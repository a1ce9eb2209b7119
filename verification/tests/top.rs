use logscan::commands::LogPattern;
use logscan::commands::top::{compute, leading, row_start, table_header};

fn sample(lines: &[&str]) -> String {
    lines.join("\n")
}

#[test]
fn ranks_by_count_with_tie_breaks() {
    let buffer = sample(&[
        r#"198.51.100.7 - - [10/Oct/2025:11:40:43 +0000] "POST /app.js HTTP/1.1" 200 234 "https://example.com/" "Mozilla/5.0 (X11; Linux x86_64) AppleWebKit/537.36""#,
        r#"198.51.100.7 - - [10/Oct/2025:11:40:43 +0000] "POST /app.js HTTP/1.1" 200 234 "https://example.com/" "Mozilla/5.0 (X11; Linux x86_64) AppleWebKit/537.36""#,
        r#"198.51.100.7 - - [10/Oct/2025:11:40:43 +0000] "POST /app.js HTTP/1.1" 200 234 "https://example.com/" "Mozilla/5.0 (X11; Linux x86_64) AppleWebKit/537.36""#,
        r#"198.51.100.19 - - [10/Oct/2025:11:41:20 +0000] "GET /about.html HTTP/2.0" 200 458 "https://example.com/" "Mozilla/5.0 (iPhone; CPU iPhone OS 17_0 like Mac OS X)""#,
        r#"198.51.100.19 - - [10/Oct/2025:11:41:20 +0000] "GET /about.html HTTP/2.0" 200 458 "https://example.com/" "Mozilla/5.0 (iPhone; CPU iPhone OS 17_0 like Mac OS X)""#,
        r#"203.0.113.28 - - [10/Oct/2025:11:41:49 +0000] "POST /favicon.ico HTTP/1.1" 200 128 "-" "Mozilla/5.0 (Macintosh; Intel Mac OS X 10_15_7) AppleWebKit/605.1.15""#,
        r#"203.0.113.28 - - [10/Oct/2025:11:41:49 +0000] "POST /favicon.ico HTTP/1.1" 200 128 "-" "Mozilla/5.0 (Macintosh; Intel Mac OS X 10_15_7) AppleWebKit/605.1.15""#,
        r#"198.51.100.7 - - [10/Oct/2025:11:42:11 +0000] "GET /blog/post-2 HTTP/1.1" 301 - "-" "Mozilla/5.0 (iPhone; CPU iPhone OS 17_0 like Mac OS X)""#,
        r#"203.0.113.11 - - [10/Oct/2025:11:42:49 +0000] "GET /api/login HTTP/1.1" 404 0 "https://twitter.com/" "python-requests/2.31.0""#,
    ]);

    let stats = compute(&buffer, &LogPattern::new());

    assert_eq!(stats.total_parsed, 9);
    assert_eq!(stats.unique_ip[0], ("198.51.100.7".to_string(), 4usize));
    assert_eq!(stats.unique_ip[1], ("198.51.100.19".to_string(), 2usize));
    assert_eq!(stats.unique_ip[2], ("203.0.113.28".to_string(), 2usize));
}

#[test]
fn ties_follow_string_order() {
    let buffer = "10.0.0.2 - - [d] \"GET / H\" 200 1\n10.0.0.10 - - [d] \"GET / H\" 200 1\n9.0.0.1 - - [d] \"GET / H\" 200 1\n10.0.0.1 - - [d] \"GET / H\" 200 1\n";
    let stats = compute(buffer, &LogPattern::new());
    let ips: Vec<&str> = stats.unique_ip.iter().map(|(ip, _)| ip.as_str()).collect();
    let mut expected = ips.clone();
    expected.sort();
    assert_eq!(ips, expected);
    assert_eq!(ips, vec!["10.0.0.1", "10.0.0.10", "10.0.0.2", "9.0.0.1"]);
}

#[test]
fn leading_takes_the_first_ranks() {
    let buffer = "1.1.1.1 - - [d] \"GET / H\" 200 1\n2.2.2.2 - - [d] \"GET / H\" 200 1\n2.2.2.2 - - [d] \"GET / H\" 200 1\n";
    let stats = compute(buffer, &LogPattern::new());
    assert_eq!(leading(&stats, 1), vec![(1, "2.2.2.2".to_string(), 2)]);
    assert_eq!(leading(&stats, 10).len(), 2);
    assert_eq!(table_header(), format!("{:<5}{:<15}{:<10}{:<12}", "RANK", "IP", "REQUESTS", "% OF TOTAL"));
    assert_eq!(row_start(3, "2.2.2.2", 17), format!("{:<5}{:<15}{:>8}", 3, "2.2.2.2", 17));
}

#[test]
fn rows_line_up_under_the_headers() {
    let header = table_header();
    let row = format!("{}{:>12.2}", row_start(1, "203.0.113.7", 116), 11.67f64);
    assert_eq!(header.trim_end(), "RANK IP             REQUESTS  % OF TOTAL");
    assert_eq!(row, "1    203.0.113.7         116       11.67");
}

#[test]
fn addresses_in_other_digits_are_counted() {
    let data = "\u{661}.2.3.4 - - [d] \"GET / H\" 200 1\n1.2.3.4 - - [d] \"GET / H\" 200 1\n\u{661}.2.3.4 - - [d] \"GET / H\" 200 1\n9.9.9.9 - - [d] \"GET / H\" 200 1\n\u{7c1}.2.3.4 - - [d] \"GET / H\" 200 1\n";
    let stats = compute(data, &LogPattern::new());
    assert_eq!(stats.total_parsed, 5);
    assert_eq!(
        stats.unique_ip,
        vec![
            ("\u{661}.2.3.4".to_string(), 2),
            ("1.2.3.4".to_string(), 1),
            ("9.9.9.9".to_string(), 1),
            ("\u{7c1}.2.3.4".to_string(), 1),
        ]
    );
}
