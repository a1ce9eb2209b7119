use logscan::commands::LogPattern;
use logscan::commands::summary::{breakdown, class_of_status, Stats, StatusClass};
use logscan::commands::top::TopCounter;
use logscan::commands::{filter, parse_line, status, summary, top, LogLine};

const LOG: &str = "203.0.113.7 - - [10/Oct/2025:11:38:24 +0000] \"GET /a HTTP/1.1\" 200 10 \"-\" \"ua\"\n\
198.51.100.7 - bob [10/Oct/2025:11:38:25 +0000] \"POST /b HTTP/1.1\" 404 - \"-\" \"ua\"\n\
garbage line\n\
203.0.113.7 - - [10/Oct/2025:11:38:26 +0000] \"GET /c HTTP/2.0\" 404 5\n\
10.0.0.1 - - [x] \"GET /d HTTP/1.0\" 503 7\n\
\n\
10.0.0.1 - - [x] \"GET /d HTTP/1.0\" 302 1";

#[test]
fn filter_selects_what_status_counts() {
    let counts = status::compute(LOG, &LogPattern::new());
    for code in [200u16, 302, 404, 503, 500] {
        assert_eq!(filter::compute(LOG, &LogPattern::new(), code).len(), counts.count(code));
    }
}

#[test]
fn summary_and_top_agree() {
    let s = summary::compute(LOG, &LogPattern::new());
    let t = top::compute(LOG, &LogPattern::new());
    assert_eq!(s.total_requests(), t.total_parsed);
    assert_eq!(s.unique_ip_count(), t.unique_ip.len());
    let sum: usize = t.unique_ip.iter().map(|(_, c)| c).sum();
    assert_eq!(sum, t.total_parsed);
    assert_eq!(t.total_parsed, 5);
}

#[test]
fn every_line_is_counted_once() {
    let s = summary::compute(LOG, &LogPattern::new());
    assert_eq!(s.lines_seen(), 7);
    assert_eq!(s.ignored_lines(), 2);
    let rows: usize = breakdown(&s).iter().map(|(_, n)| n).sum();
    assert_eq!(rows, s.total_requests());
}

#[test]
fn streaming_equals_whole_text() {
    let mut stats = Stats::new();
    let mut counter = TopCounter::new();
    for line in LOG.split_inclusive('\n') {
        let parsed = parse_line(line, &LogPattern::new());
        if let Some(l) = &parsed {
            counter.record(&l.ip);
        }
        stats.add(&parsed);
    }
    let whole = summary::compute(LOG, &LogPattern::new());
    assert_eq!(stats.total_requests(), whole.total_requests());
    assert_eq!(stats.ignored_lines(), whole.ignored_lines());
    assert_eq!(stats.total_bytes(), whole.total_bytes());
    assert_eq!(stats.unique_ip_count(), whole.unique_ip_count());
    assert_eq!(counter.finish().unique_ip, top::compute(LOG, &LogPattern::new()).unique_ip);

    let (a, b) = LOG.split_at(LOG.find("garbage").unwrap());
    let mut joined = filter::compute(a, &LogPattern::new(), 404);
    joined.extend(filter::compute(b, &LogPattern::new(), 404));
    assert_eq!(joined, filter::compute(LOG, &LogPattern::new(), 404));
}

#[test]
fn formatted_line_parses_to_its_fields() {
    let line = format!(
        "{} - - [{}] \"{} {} {}\" {:03} {} \"ref\" \"agent\"",
        "7.88.199.0", "01/Jan/2026:00:00:00 +0000", "DELETE", "/x?y=z", "HTTP/1.1", 42, 123456789
    );
    assert_eq!(
        parse_line(&line, &LogPattern::new()),
        Some(LogLine {
            ip: "7.88.199.0".to_string(),
            method: "DELETE".to_string(),
            path: "/x?y=z".to_string(),
            status: 42,
            size: 123456789,
        })
    );
}

#[test]
fn status_counts_add_up_to_summary_classes() {
    let re = LogPattern::new();
    let counts = status::compute(LOG, &re);
    let s = summary::compute(LOG, &re);
    for class in [
        StatusClass::Success,
        StatusClass::Redirection,
        StatusClass::ClientError,
        StatusClass::ServerError,
        StatusClass::Unknown,
    ] {
        let sum: usize = counts
            .pairs()
            .iter()
            .filter(|(st, _)| class_of_status(*st) == class)
            .map(|(_, n)| n)
            .sum();
        assert_eq!(sum, s.class_requests(class));
    }
}
