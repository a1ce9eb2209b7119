use logscan::commands::LogPattern;
use logscan::commands::{parse_line, LogLine};
use regex::Regex;

const LOG_PATTERN: &str = r#"^(?P<ip>\d{1,3}\.\d{1,3}\.\d{1,3}\.\d{1,3})\s+(?P<identity>\S+)\s+(?P<user>\S+)\s+\[(?P<datetime>[^\]]*)\]\s+"(?P<method>\w+)\s+(?P<path>\S+)\s+(?P<protocol>[^"]*)"\s+(?P<status>\d{3})\s+(?P<size>\d+|-)"#;

#[test]
fn malformed_line_returns_none() {
    let line = "this is not a log line";
    let actual = parse_line(line, &LogPattern::new());

    assert_eq!(actual, None);
}

#[test]
fn valid_line_parses_all_fields() {
    let line = r#"198.51.100.13 - - [10/Oct/2025:11:38:24 +0000] "GET /style.css HTTP/1.0" 200 128374 "https://example.com/" "curl/8.4.0""#;

    let actual = parse_line(line, &LogPattern::new());
    let expected = LogLine {
        ip: "198.51.100.13".to_string(),
        method: "GET".to_string(),
        path: "/style.css".to_string(),
        status: 200,
        size: 128374,
    };

    assert_eq!(actual, Some(expected));
}

#[test]
fn size_field_dash_parses_to_zero() {
    let line = r#"198.51.100.13 - - [10/Oct/2025:11:38:24 +0000] "GET /style.css HTTP/1.0" 200 - "https://example.com/" "curl/8.4.0""#;

    let actual = parse_line(line, &LogPattern::new());
    let expected = LogLine {
        ip: "198.51.100.13".to_string(),
        method: "GET".to_string(),
        path: "/style.css".to_string(),
        status: 200,
        size: 0,
    };

    assert_eq!(actual, Some(expected));
}

#[test]
fn empty_line_returns_none() {
    let line = r#""#;

    let actual = parse_line(line, &LogPattern::new());

    assert_eq!(actual, None);
}

#[test]
fn missing_required_field_returns_none() {
    let line = r#"198.51.100.13 - - [10/Oct/2025:11:38:24 +0000] " /style.css HTTP/1.0" 200 - "https://example.com/" "curl/8.4.0""#;

    let actual = parse_line(line, &LogPattern::new());
    assert_eq!(actual, None);
}

#[test]
fn ipv6_line_returns_none() {
    let line = r#"2001:db8::1 - - [10/Oct/2025:11:38:24 +0000] "GET /style.css HTTP/1.0" 200 - "https://example.com/" "curl/8.4.0""#;

    let actual = parse_line(line, &LogPattern::new());
    assert_eq!(actual, None);
}

/// What the pattern that the format is usually written as gives for a line.
fn by_pattern(re: &Regex, line: &str) -> Option<LogLine> {
    let cap = re.captures(line)?;
    Some(LogLine {
        ip: cap["ip"].to_string(),
        method: cap["method"].to_string(),
        path: cap["path"].to_string(),
        status: cap["status"].parse().ok()?,
        size: cap["size"].parse().unwrap_or(0),
    })
}

#[test]
fn parser_agrees_with_pattern() {
    let lines = [
        r#"198.51.100.13 - - [10/Oct/2025:11:38:24 +0000] "GET /style.css HTTP/1.0" 200 128374 "https://example.com/" "curl/8.4.0""#,
        r#"1.2.3.4 a b [x] "POST /p HTTP/2" 404 12 rest"#,
        "1.2.3.4\ta\tb\t[x]\t\"PUT\t/p\tproto\"\t500\t7\n",
        r#"1.2.3.4 a b [x] "GET /p  HTTP/1.1 extra words" 301 99999999999999999999999"#,
        r#"1.2.3.4 a b [x] "GET /p HTTP/1.1" 301 18446744073709551615"#,
        r#"1.2.3.4 a b [x] "GET /p HTTP/1.1" 301 18446744073709551616"#,
        r#"1.2.3.4 a b [x] "GET /p HTTP/1.1" 2000 1"#,
        r#"1.2.3.4 a b [x] "GET /p HTTP/1.1" 20 1"#,
        r#"1.2.3.4 a b [x] "GET /p HTTP/1.1" 200 x"#,
        r#"1.2.3.4 a b [x] "GET /p HTTP/1.1" 200 -5"#,
        r#"1234.2.3.4 a b [x] "GET /p HTTP/1.1" 200 5"#,
        r#"1.2.3.4567 a b [x] "GET /p HTTP/1.1" 200 5"#,
        r#"999.000.01.7 a b [] "GET /p HTTP/1.1" 007 5"#,
        r#"1.2.3.4 a b [x] "GET/p HTTP/1.1" 200 5"#,
        r#"1.2.3.4 a b [x] "GET /p" 200 5"#,
        r#"1.2.3.4 a b [x]"GET /p HTTP" 200 5"#,
        r#"1.2.3.4 a b c [x] "GET /p HTTP" 200 5"#,
        r#"1.2.3.4  a  b  [x]  "GET  /p  HTTP"  200  5"#,
        "1.2.3.4 a b [x] \"G\u{e9}T /p H\" 200 5",
        "1.2.3.4\u{a0}a b [x] \"GET /p H\" 200 5",
        "1.2.3.4 a b [x] \"GET /p H\" 200\u{3000}5",
        r#"1.2.3.4 a b [x] "GET /p HTTP/1.1" 200"#,
        r#"1.2.3.4 a b [x "GET /p HTTP/1.1" 200 5"#,
        r#" 1.2.3.4 a b [x] "GET /p HTTP/1.1" 200 5"#,
        "",
        "\n",
    ];
    let re = Regex::new(LOG_PATTERN).unwrap();
    let pattern = LogPattern::new();
    for line in lines {
        assert_eq!(parse_line(line, &pattern), by_pattern(&re, line), "line: {line:?}");
    }
}

#[test]
fn size_too_large_parses_to_zero() {
    let line = r#"1.2.3.4 a b [x] "GET /p HTTP/1.1" 301 18446744073709551616"#;
    assert_eq!(parse_line(line, &LogPattern::new()).unwrap().size, 0);
    let line = r#"1.2.3.4 a b [x] "GET /p HTTP/1.1" 301 18446744073709551615"#;
    assert_eq!(parse_line(line, &LogPattern::new()).unwrap().size, u64::MAX);
}

#[test]
fn status_needs_exactly_three_digits() {
    assert!(parse_line(r#"1.2.3.4 a b [x] "GET /p HTTP/1.1" 2000 1"#, &LogPattern::new()).is_none());
    assert!(parse_line(r#"1.2.3.4 a b [x] "GET /p HTTP/1.1" 20 1"#, &LogPattern::new()).is_none());
    assert_eq!(
        parse_line(r#"1.2.3.4 a b [x] "GET /p HTTP/1.1" 007 1"#, &LogPattern::new()).unwrap().status,
        7
    );
}

/// A small deterministic generator, so that the comparison below is repeatable.
struct Lcg(u64);

impl Lcg {
    fn next(&mut self) -> u64 {
        self.0 = self.0.wrapping_mul(6364136223846793005).wrapping_add(1442695040888963407);
        self.0 >> 33
    }
    fn below(&mut self, n: usize) -> usize {
        (self.next() % n as u64) as usize
    }
}

#[test]
fn parser_agrees_with_pattern_on_mutated_lines() {
    let seeds = [
        r#"198.51.100.13 - - [10/Oct/2025:11:38:24 +0000] "GET /style.css HTTP/1.0" 200 128374 "https://example.com/" "curl/8.4.0""#,
        r#"1.2.3.4 a b [x] "POST /p HTTP/2" 404 - rest"#,
        "10.0.0.1\t-\t-\t[]\t\"PUT\t/\tP\"\t500\t7",
    ];
    let alphabet: Vec<char> = " \t\n\"[]-.0123456789aZ_/\u{a0}\u{e9}\u{3000}\u{2028}x:\u{663}\u{660}\u{7c0}\u{1d7ce}\u{ff11}".chars().collect();
    let re = Regex::new(LOG_PATTERN).unwrap();
    let pattern = LogPattern::new();
    let mut rng = Lcg(7);
    for round in 0..5000 {
        let seed = seeds[round % seeds.len()];
        let mut chars: Vec<char> = seed.chars().collect();
        for _ in 0..(1 + rng.below(3)) {
            let pos = rng.below(chars.len() + 1);
            match rng.below(3) {
                0 if pos < chars.len() => {
                    chars.remove(pos);
                }
                1 if pos < chars.len() => {
                    chars[pos] = alphabet[rng.below(alphabet.len())];
                }
                _ => chars.insert(pos, alphabet[rng.below(alphabet.len())]),
            }
        }
        let line: String = chars.into_iter().collect();
        assert_eq!(parse_line(&line, &pattern), by_pattern(&re, &line), "line: {line:?}");
    }
}

#[test]
fn unicode_digits_are_digits() {
    let re = LogPattern::new();
    let line = "1.2.3.4 - - [x] \"G / H\" 200 12\u{663}";
    assert_eq!(parse_line(line, &re).unwrap().size, 0);
    let line = "\u{661}\u{662}.2.3.4 - - [x] \"G / H\" 200 \u{665}";
    let parsed = parse_line(line, &re).unwrap();
    assert_eq!(parsed.ip, "\u{661}\u{662}.2.3.4");
    assert_eq!(parsed.size, 0);
    let line = "1.2.3.4 - - [x] \"G / H\" 2\u{660}0 5";
    assert_eq!(parse_line(line, &re), None);
    let line = "1.2.3.4 - - [x] \"G / H\" 200 \u{ff11}";
    assert_eq!(parse_line(line, &re).unwrap().size, 0);
}

#[test]
fn line_breaks_at_the_end_change_nothing() {
    let re = LogPattern::new();
    for s in [
        r#"1.2.3.4 a b [x] "GET /p HTTP/1.1" 200 12"#,
        r#"1.2.3.4 a b [x] "GET /p HTTP/1.1" 200 -"#,
        r#"1.2.3.4 a b [x] "GET /p HTTP/1.1" 200"#,
        r#"1.2.3.4 a b [x] "GET /p HTTP/1.1" 200 "#,
        r#"1.2.3.4 a b [x] "GET"#,
        "",
    ] {
        assert_eq!(parse_line(&format!("{s}\n"), &re), parse_line(s, &re));
        assert_eq!(parse_line(&format!("{s}\r\n"), &re), parse_line(s, &re));
    }
}
