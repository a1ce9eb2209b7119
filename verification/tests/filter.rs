use logscan::commands::LogPattern;
use logscan::commands::filter::{compute, matching_entry, table_header, table_row, FilterEntry};

fn sample(lines: &[&str]) -> String {
    lines.join("\n")
}

#[test]
fn return_matching_lines() {
    let buffer = sample(&[
        r#"198.51.100.7 - - [10/Oct/2025:11:40:43 +0000] "POST /app.js HTTP/1.1" 200 234 "https://example.com/" "Mozilla/5.0 (X11; Linux x86_64) AppleWebKit/537.36""#,
        r#"198.51.100.7 - - [10/Oct/2025:11:40:43 +0000] "POST /app.js HTTP/1.1" 200 234 "https://example.com/" "Mozilla/5.0 (X11; Linux x86_64) AppleWebKit/537.36""#,
        r#"198.51.100.7 - - [10/Oct/2025:11:40:43 +0000] "POST /app.js HTTP/1.1" 200 234 "https://example.com/" "Mozilla/5.0 (X11; Linux x86_64) AppleWebKit/537.36""#,
        r#"198.51.100.19 - - [10/Oct/2025:11:41:20 +0000] "GET /about.html HTTP/2.0" 404 458 "https://example.com/" "Mozilla/5.0 (iPhone; CPU iPhone OS 17_0 like Mac OS X)""#,
        r#"198.51.100.19 - - [10/Oct/2025:11:41:20 +0000] "GET /about.html HTTP/2.0" 200 458 "https://example.com/" "Mozilla/5.0 (iPhone; CPU iPhone OS 17_0 like Mac OS X)""#,
        r#"203.0.113.28 - - [10/Oct/2025:11:41:49 +0000] "POST /favicon.ico HTTP/1.1" 404 128 "-" "Mozilla/5.0 (Macintosh; Intel Mac OS X 10_15_7) AppleWebKit/605.1.15""#,
        r#"203.0.113.28 - - [10/Oct/2025:11:41:49 +0000] "POST /favicon.ico HTTP/1.1" 200 128 "-" "Mozilla/5.0 (Macintosh; Intel Mac OS X 10_15_7) AppleWebKit/605.1.15""#,
        r#"198.51.100.7 - - [10/Oct/2025:11:42:11 +0000] "GET /blog/post-2 HTTP/1.1" 301 - "-" "Mozilla/5.0 (iPhone; CPU iPhone OS 17_0 like Mac OS X)""#,
        r#"203.0.113.11 - - [10/Oct/2025:11:42:49 +0000] "GET /api/login HTTP/1.1" 404 0 "https://twitter.com/" "python-requests/2.31.0""#,
    ]);

    let four_o_four = compute(&buffer, &LogPattern::new(), 404);
    assert_eq!(four_o_four.len(), 3);

    let two_o_o = compute(&buffer, &LogPattern::new(), 200);
    assert_eq!(two_o_o.len(), 5);
}

#[test]
fn empty_buffer_returns_empty() {
    let buffer = [String::new()].join("\n");

    let empty = compute(&buffer, &LogPattern::new(), 404);
    assert_eq!(empty.len(), 0);
}

#[test]
fn malformed_line_skipped() {
    let buffer = sample(&[
        r#"198.51.100.7 - - [10/Oct/2025:11:40:43 +0000] "POST /app.js HTTP/1.1" 200 234 "https://example.com/" "Mozilla/5.0 (X11; Linux x86_64) AppleWebKit/537.36""#,
        r#"198.51.100.7 - - [10/Oct/2025:11:40:43 +0000] "POST /app.js HTTP/1.1" 200 234 "https://example.com/" "Mozilla/5.0 (X11; Linux x86_64) AppleWebKit/537.36""#,
        r#"198.51.100.7 - - [10/Oct/2025:11:40:43 +0000] "POST /app.js HTTP/1.1" 200 234 "https://example.com/" "Mozilla/5.0 (X11; Linux x86_64) AppleWebKit/537.36""#,
        r#"198.51.100.19 - - [10/Oct/2025:11:41:20 +0000] "GET /about.html HTTP/2.0" 404 458 "https://example.com/" "Mozilla/5.0 (iPhone; CPU iPhone OS 17_0 like Mac OS X)""#,
        r#"198.51.100.19 - - [10/Oct/2025:11:41:20 +0000] "GET /about.html HTTP/2.0" 200 458 "https://example.com/" "Mozilla/5.0 (iPhone; CPU iPhone OS 17_0 like Mac OS X)""#,
        r#".0.113.28 - - [10/Oct/2025:11:41:49 +0000] "POST /favicon.ico HTTP/1.1" 404 128 "-" "Mozilla/5.0 (Macintosh; Intel Mac OS X 10_15_7) AppleWebKit/605.1.15""#,
        r#"203.0.113.28 - - [10/Oct/2025:11:41:49 +0000] "POST /favicon.ico HTTP/1.1" 200 128 "-" "Mozilla/5.0 (Macintosh; Intel Mac OS X 10_15_7) AppleWebKit/605.1.15""#,
        r#"198.51.100.7 - - [10/Oct/2025:11:42:11 +0000] "GET /blog/post-2 HTTP/1.1" 301 - "-" "Mozilla/5.0 (iPhone; CPU iPhone OS 17_0 like Mac OS X)""#,
        r#"203.0.113.11 - - [10/Oct/2025:11:42:49 +0000] "GET /api/login HTTP/1.1" 404 0 "https://twitter.com/" "python-requests/2.31.0""#,
    ]);

    let four_o_four = compute(&buffer, &LogPattern::new(), 404);
    assert_eq!(four_o_four.len(), 2);
}

#[test]
fn entries_keep_line_order_and_fields() {
    let buffer = "1.1.1.1 - - [d] \"GET /a H\" 404 10\n2.2.2.2 - - [d] \"GET /b H\" 200 20\n3.3.3.3 - - [d] \"GET /c H\" 404 -\n";
    let got = compute(buffer, &LogPattern::new(), 404);
    assert_eq!(
        got,
        vec![
            FilterEntry { ip: "1.1.1.1".to_string(), path: "/a".to_string(), size: 10 },
            FilterEntry { ip: "3.3.3.3".to_string(), path: "/c".to_string(), size: 0 },
        ]
    );
    assert_eq!(matching_entry("2.2.2.2 - - [d] \"GET /b H\" 200 20", &LogPattern::new(), 404), None);
    assert_eq!(
        matching_entry("2.2.2.2 - - [d] \"GET /b H\" 200 20", &LogPattern::new(), 200),
        Some(FilterEntry { ip: "2.2.2.2".to_string(), path: "/b".to_string(), size: 20 })
    );
}

#[test]
fn table_rows_are_padded() {
    assert_eq!(table_header(), format!("{:<20}{:<30}{:<5}", "IP", "PATH", "SIZE"));
    let e = FilterEntry { ip: "203.0.113.7".to_string(), path: "/products".to_string(), size: 128374 };
    assert_eq!(table_row(&e), format!("{:<20}{:<30}{:<5}", e.ip, e.path, e.size));
}
