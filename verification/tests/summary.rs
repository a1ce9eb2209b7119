use logscan::commands::LogPattern;
use logscan::commands::summary::{
    breakdown, breakdown_row_start, compute, table_lines, try_compute, StatusClass,
};

fn sample(lines: &[&str]) -> String {
    lines.join("\n")
}

#[test]
fn count_total_request_works() {
    let data = sample(&[
        r#"203.0.113.11 - - [10/Oct/2025:11:42:49 +0000] "GET /api/login HTTP/1.1" 404 0 "https://twitter.com/" "python-requests/2.31.0""#,
        r#"198.51.100.7 - - [10/Oct/2025:11:42:11 +0000] "GET /blog/post-2 HTTP/1.1" 301 - "-" "Mozilla/5.0 (iPhone; CPU iPhone OS 17_0 like Mac OS X)""#,
        r#"198.51.100.7 - - [10/Oct/2025:11:40:43 +0000] "POST /app.js HTTP/1.1" 200 234 "https://example.com/" "Mozilla/5.0 (X11; Linux x86_64) AppleWebKit/537.36""#,
    ]);

    let result = compute(&data, &LogPattern::new());
    let actual: usize = result.total_requests();

    assert_eq!(actual, 3);
}

#[test]
fn count_malformed_lines_works() {
    let data = sample(&[
        r#"203.0.113.11 - - [10/Oct/2025:11:42:49 +0000] "/api/login HTTP/1.1" 404 0 "https://twitter.com/" "python-requests/2.31.0""#,
        r#"198.51.100.7 - - [10/Oct/2025:11:42:11 +0000] "GET /blog/post-2 HTTP/1.1"  - "-" "Mozilla/5.0 (iPhone; CPU iPhone OS 17_0 like Mac OS X)""#,
        r#"AB198.51.100.7 - - [10/Oct/2025:11:40:43 +0000] "POST /app.js HTTP/1.1" 200 234 "https://example.com/" "Mozilla/5.0 (X11; Linux x86_64) AppleWebKit/537.36""#,
        r#"172.16.0.24 - - [10/Oct/2025:11:37:07 +0000] "GET /sitemap.xml HTTP/1.1" 400 128 "-" "python-requests/2.31.0""#,
        r#"192.168.1.28 - alice [10/Oct/2025:11:36:47 +0000] "GET /robots.txt HTTP/1.1" 500 1547 "https://example.com/" "curl/8.4.0""#,
    ]);

    let result = compute(&data, &LogPattern::new());

    assert_eq!(result.ignored_lines(), 3);
    assert_eq!(result.total_requests(), 2);
}

#[test]
fn count_unique_ip_and_bytes() {
    let data = sample(&[
        r#"203.0.113.11 - - [10/Oct/2025:11:42:49 +0000] "/api/login HTTP/1.1" 404 0 "https://twitter.com/" "python-requests/2.31.0""#,
        r#"198.51.100.7 - - [10/Oct/2025:11:42:11 +0000] "GET /blog/post-2 HTTP/1.1"  - "-" "Mozilla/5.0 (iPhone; CPU iPhone OS 17_0 like Mac OS X)""#,
        r#"AB198.51.100.7 - - [10/Oct/2025:11:40:43 +0000] "POST /app.js HTTP/1.1" 200 234 "https://example.com/" "Mozilla/5.0 (X11; Linux x86_64) AppleWebKit/537.36""#,
        r#"172.16.0.24 - - [10/Oct/2025:11:37:07 +0000] "GET /sitemap.xml HTTP/1.1" 400 128 "-" "python-requests/2.31.0""#,
        r#"192.168.1.28 - alice [10/Oct/2025:11:36:47 +0000] "GET /robots.txt HTTP/1.1" 500 1547 "https://example.com/" "curl/8.4.0""#,
        r#"192.168.1.28 - alice [10/Oct/2025:11:36:47 +0000] "GET /robots.txt HTTP/1.1" 500 1547 "https://example.com/" "curl/8.4.0""#,
        r#"172.16.0.24 - - [10/Oct/2025:11:37:07 +0000] "GET /sitemap.xml HTTP/1.1" 400 128 "-" "python-requests/2.31.0""#,
    ]);

    let result = compute(&data, &LogPattern::new());

    assert_eq!(result.unique_ip_count(), 2);
    assert_eq!(result.total_bytes(), 3350);
}

#[test]
fn classes_and_breakdown() {
    let data = "1.1.1.1 - - [d] \"GET / H\" 204 1\n1.1.1.1 - - [d] \"GET / H\" 404 2\n1.1.1.1 - - [d] \"GET / H\" 404 3\n1.1.1.1 - - [d] \"GET / H\" 199 4\nbad\n";
    let s = compute(data, &LogPattern::new());
    assert_eq!(s.class_requests(StatusClass::Success), 1);
    assert_eq!(s.class_requests(StatusClass::Redirection), 0);
    assert_eq!(s.class_requests(StatusClass::ClientError), 2);
    assert_eq!(s.class_requests(StatusClass::Unknown), 1);
    assert_eq!(s.lines_seen(), 5);
    assert_eq!(
        breakdown(&s),
        vec![
            (StatusClass::Success, 1),
            (StatusClass::ClientError, 2),
            (StatusClass::Unknown, 1)
        ]
    );
    let lines = table_lines(&s);
    assert_eq!(lines[0], format!("{:<20}{:>10}", "Total requests:", 4));
    assert_eq!(lines[1], format!("{:<20}{:>10}", "Unique IPs:", 1));
    assert_eq!(lines[2], format!("{:<20}{:>10}", "Total bytes:", 10));
    assert_eq!(lines[3], format!("{:<20}{:>10}", "Ignored lines:", 1));
    assert_eq!(lines.len(), 5);
    assert_eq!(lines[4], "Status breakdown:");
    assert_eq!(
        breakdown_row_start(StatusClass::ClientError, 2),
        format!("  {:<8}{:>10} -- (", "4xx", 2)
    );
}

#[test]
fn byte_total_overflow_is_reported() {
    let data = "1.1.1.1 - - [d] \"GET / H\" 200 18446744073709551615\n1.1.1.1 - - [d] \"GET / H\" 200 1\n";
    assert!(try_compute(data, &LogPattern::new()).is_none());
    let data = "1.1.1.1 - - [d] \"GET / H\" 200 18446744073709551615\n";
    assert_eq!(try_compute(data, &LogPattern::new()).unwrap().total_bytes(), u64::MAX);
}

#[test]
fn addresses_in_other_digits_are_distinct() {
    let data = "\u{661}.2.3.4 - - [d] \"GET / H\" 200 1\n1.2.3.4 - - [d] \"GET / H\" 200 1\n\u{661}.2.3.4 - - [d] \"GET / H\" 404 1\n\u{661}.\u{662}.3.4 - - [d] \"GET / H\" 200 1\n";
    let s = compute(data, &LogPattern::new());
    assert_eq!(s.total_requests(), 4);
    assert_eq!(s.unique_ip_count(), 3);
}
