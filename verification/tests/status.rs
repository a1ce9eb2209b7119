use logscan::commands::LogPattern;
use logscan::commands::status::{
    compute, output_json, output_table, status_meaning, table_header, table_row, StatusCounts,
};

#[test]
fn counts_per_code_in_order() {
    let data = "1.1.1.1 - - [d] \"GET / H\" 404 1\n1.1.1.1 - - [d] \"GET / H\" 200 1\nnot a line\n1.1.1.1 - - [d] \"GET / H\" 404 1";
    let counts = compute(data, &LogPattern::new());
    assert_eq!(counts.count(404), 2);
    assert_eq!(counts.count(200), 1);
    assert_eq!(counts.count(500), 0);
    assert_eq!(counts.pairs(), vec![(200, 1), (404, 2)]);
    let table = output_table(&counts);
    assert_eq!(table.len(), 3);
    assert_eq!(table[0], format!("{:<5} {:<6} {:<6} {:<20}", "INDEX", "STATUS", "COUNT", "MEANING"));
    assert_eq!(table[1], format!("{:<5} {:<6} {:<6} {:<20}", 1, 200, 1, "OK"));
    assert_eq!(table[2], format!("{:<5} {:<6} {:<6} {:<20}", 2, 404, 2, "Not Found"));
    assert_eq!(output_json(&counts), vec!["{", "  \"200\": 1,", "  \"404\": 2", "}"]);
    let mut by_code = serde_json::Map::new();
    by_code.insert("200".to_string(), serde_json::Value::from(1));
    by_code.insert("404".to_string(), serde_json::Value::from(2));
    assert_eq!(
        output_json(&counts).join("\n"),
        serde_json::to_string_pretty(&serde_json::Value::Object(by_code)).unwrap()
    );
    assert_eq!(output_json(&StatusCounts::new()), vec!["{}"]);
}

#[test]
fn meanings() {
    assert_eq!(status_meaning(200), "OK");
    assert_eq!(status_meaning(429), "Too Many Requests");
    assert_eq!(status_meaning(504), "Gateway Timeout");
    assert_eq!(status_meaning(418), "Unknown");
    assert_eq!(table_header(), format!("{:<5} {:<6} {:<6} {:<20}", "INDEX", "STATUS", "COUNT", "MEANING"));
    assert_eq!(table_row(11, 503, 5), format!("{:<5} {:<6} {:<6} {:<20}", 11, 503, 5, "Service Unavailable"));
}

#[test]
fn record_counts_one_code() {
    let mut counts = StatusCounts::new();
    counts.record(65535);
    counts.record(65535);
    assert_eq!(counts.count(65535), 2);
    assert_eq!(counts.pairs(), vec![(65535, 2)]);
}
