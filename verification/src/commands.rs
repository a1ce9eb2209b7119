//! The access-log line format (Apache/nginx Combined Log Format with an IPv4
//! client address) and its parser.
//!
//! A line is accepted when it begins with
//!
//! ```text
//! IP WS IDENT WS USER WS "[" DATETIME "]" WS '"' METHOD WS PATH WS PROTOCOL '"' WS STATUS WS SIZE
//! ```
//!
//! where `IP` is four dot-separated groups of one to three decimal digits
//! (Unicode `Nd`, the class `\d`), `WS`
//! is a non-empty run of Unicode white space, `IDENT`, `USER` and `PATH` are
//! runs of non-white-space, `DATETIME` holds no `]`, `METHOD` is a run of
//! Unicode word characters, `PROTOCOL` holds no `"`, `STATUS` is exactly three
//! decimal digits and `SIZE` is a run of decimal digits or a single `-`.
//! Anything may follow. The status must moreover be written in ASCII digits,
//! and a size that is not in ASCII digits, or does not fit in a `u64`, counts
//! as 0.
use crate::text::{
    ascii_decimals_exact, chars_of, decimal, digit_char, digit_value, is_ascii_word, is_decimal, is_digit,
    is_digit_char, is_white_space, is_white_space_char, is_word_char, string_of, unicode_word_char,
    DecimalClass,
};
use vstd::prelude::*;

pub mod filter;
pub mod status;
pub mod summary;
pub mod top;

verus! {

/// One parsed access-log line.
#[derive(PartialEq, Eq, Debug)]
pub struct LogLine {
    pub ip: String,
    pub method: String,
    pub path: String,
    pub status: u16,
    pub size: u64,
}

/// The mathematical content of a [`LogLine`].
pub struct LogRecord {
    pub ip: Seq<char>,
    pub method: Seq<char>,
    pub path: Seq<char>,
    pub status: u16,
    pub size: u64,
}

impl View for LogLine {
    type V = LogRecord;

    open spec fn view(&self) -> LogRecord {
        LogRecord {
            ip: self.ip@,
            method: self.method@,
            path: self.path@,
            status: self.status,
            size: self.size,
        }
    }
}

/// The character classes that the format uses.
pub enum CharClass {
    Digit,
    Space,
    NonSpace,
    Word,
    Except(char),
}

pub open spec fn in_class(cls: CharClass, c: char) -> bool {
    match cls {
        CharClass::Digit => is_decimal(c),
        CharClass::Space => is_white_space(c),
        CharClass::NonSpace => !is_white_space(c),
        CharClass::Word => unicode_word_char(c),
        CharClass::Except(x) => c != x,
    }
}

/// The end of the longest run of `cls` characters that starts at `i`.
pub open spec fn scan(s: Seq<char>, i: int, cls: CharClass) -> int
    decreases s.len() - i,
{
    if 0 <= i < s.len() && in_class(cls, s[i]) {
        scan(s, i + 1, cls)
    } else {
        i
    }
}

/// `s[i]` exists and is `c`.
pub open spec fn has(s: Seq<char>, i: int, c: char) -> bool {
    0 <= i < s.len() && s[i] == c
}

// Each token below reads from position `i` and gives the position after the
// token, or -1 when the token is absent. A position of -1 stays -1.
/// A run of one or more `cls` characters.
pub open spec fn tok_run(s: Seq<char>, i: int, cls: CharClass) -> int {
    if i < 0 {
        -1
    } else if scan(s, i, cls) > i {
        scan(s, i, cls)
    } else {
        -1
    }
}

/// One to three digits, followed by no further digit.
pub open spec fn tok_octet(s: Seq<char>, i: int) -> int {
    if i < 0 {
        -1
    } else if i < scan(s, i, CharClass::Digit) <= i + 3 {
        scan(s, i, CharClass::Digit)
    } else {
        -1
    }
}

/// The single character `c`.
pub open spec fn tok_lit(s: Seq<char>, i: int, c: char) -> int {
    if i >= 0 && has(s, i, c) {
        i + 1
    } else {
        -1
    }
}

/// Everything up to and including the first `c`.
pub open spec fn tok_through(s: Seq<char>, i: int, c: char) -> int {
    if i >= 0 && has(s, scan(s, i, CharClass::Except(c)), c) {
        scan(s, i, CharClass::Except(c)) + 1
    } else {
        -1
    }
}

/// Exactly three digits (what follows is checked by the next token).
pub open spec fn tok_three_digits(s: Seq<char>, i: int) -> int {
    if i >= 0 && i + 3 <= s.len() && is_decimal(s[i]) && is_decimal(s[i + 1]) && is_decimal(s[i + 2]) {
        i + 3
    } else {
        -1
    }
}

/// The size field: a run of digits, or `-`.
pub open spec fn tok_size(s: Seq<char>, i: int) -> int {
    if i < 0 {
        -1
    } else if scan(s, i, CharClass::Digit) > i {
        scan(s, i, CharClass::Digit)
    } else if has(s, i, '-') {
        i + 1
    } else {
        -1
    }
}

/// The value of a run of ASCII digits.
pub open spec fn digits_value(ds: Seq<char>) -> nat
    decreases ds.len(),
{
    if ds.len() == 0 {
        0
    } else {
        digits_value(ds.drop_last()) * 10 + digit_value(ds.last())
    }
}

/// The positions of the fields in a line: `p[k]` is the position after the
/// `k`-th token, or -1.
pub open spec fn positions(s: Seq<char>) -> Seq<int> {
    let p1 = tok_octet(s, 0);
    let p2 = tok_lit(s, p1, '.');
    let p3 = tok_octet(s, p2);
    let p4 = tok_lit(s, p3, '.');
    let p5 = tok_octet(s, p4);
    let p6 = tok_lit(s, p5, '.');
    let p7 = tok_octet(s, p6);
    let p8 = tok_run(s, p7, CharClass::Space);
    let p9 = tok_run(s, p8, CharClass::NonSpace);
    let p10 = tok_run(s, p9, CharClass::Space);
    let p11 = tok_run(s, p10, CharClass::NonSpace);
    let p12 = tok_run(s, p11, CharClass::Space);
    let p13 = tok_lit(s, p12, '[');
    let p14 = tok_through(s, p13, ']');
    let p15 = tok_run(s, p14, CharClass::Space);
    let p16 = tok_lit(s, p15, '"');
    let p17 = tok_run(s, p16, CharClass::Word);
    let p18 = tok_run(s, p17, CharClass::Space);
    let p19 = tok_run(s, p18, CharClass::NonSpace);
    let p20 = tok_run(s, p19, CharClass::Space);
    let p21 = tok_through(s, p20, '"');
    let p22 = tok_run(s, p21, CharClass::Space);
    let p23 = tok_three_digits(s, p22);
    let p24 = tok_run(s, p23, CharClass::Space);
    let p25 = tok_size(s, p24);
    seq![
        0, p1, p2, p3, p4, p5, p6, p7, p8, p9, p10, p11, p12, p13, p14, p15, p16, p17, p18, p19,
        p20, p21, p22, p23, p24, p25,
    ]
}

/// All characters are ASCII digits.
pub open spec fn ascii_digits(ds: Seq<char>) -> bool {
    forall|k: int| 0 <= k < ds.len() ==> is_digit(#[trigger] ds[k])
}

/// The value of the size field: the digits' value when they are ASCII digits
/// and the value fits in a `u64`, and 0 for `-`, for other digits or for a
/// value too large.
pub open spec fn size_value(s: Seq<char>, from: int, to: int) -> u64 {
    let v = digits_value(s.subrange(from, to));
    if has(s, from, '-') || !ascii_digits(s.subrange(from, to)) || v > u64::MAX {
        0
    } else {
        v as u64
    }
}

/// What a line parses to, if it is in the format and its status is in ASCII
/// digits.
pub open spec fn parse_spec(s: Seq<char>) -> Option<LogRecord> {
    let p = positions(s);
    if p[25] < 0 || !ascii_digits(s.subrange(p[22], p[23])) {
        None
    } else {
        Some(
            LogRecord {
                ip: s.subrange(0, p[7]),
                method: s.subrange(p[16], p[17]),
                path: s.subrange(p[18], p[19]),
                status: (digits_value(s.subrange(p[22], p[23]))) as u16,
                size: size_value(s, p[24], p[25]),
            },
        )
    }
}

pub proof fn lemma_scan_bounds(s: Seq<char>, i: int, cls: CharClass)
    requires
        0 <= i <= s.len(),
    ensures
        i <= scan(s, i, cls) <= s.len(),
        forall|k: int| i <= k < scan(s, i, cls) ==> in_class(cls, #[trigger] s[k]),
        scan(s, i, cls) < s.len() ==> !in_class(cls, s[scan(s, i, cls)]),
    decreases s.len() - i,
{
    if i < s.len() && in_class(cls, s[i]) {
        lemma_scan_bounds(s, i + 1, cls);
    }
}

/// The character classes of the format, as the parser reads them.
pub struct LogPattern {
    digits: DecimalClass,
}

impl LogPattern {
    pub closed spec fn wf(&self) -> bool {
        self.digits.wf()
    }

    /// Reads the classes the format is written in.
    pub fn new() -> (re: Self)
        ensures
            re.wf(),
            ascii_decimals_exact(),
    {
        LogPattern { digits: DecimalClass::new() }
    }
}

fn in_class_exec(cls: &CharClass, c: char, re: &LogPattern) -> (r: bool)
    requires
        re.wf(),
    ensures
        r == in_class(*cls, c),
{
    match cls {
        CharClass::Digit => re.digits.contains(c),
        CharClass::Space => is_white_space_char(c),
        CharClass::NonSpace => !is_white_space_char(c),
        CharClass::Word => is_word_char(c),
        CharClass::Except(x) => c != *x,
    }
}

/// The end of the longest run of `cls` characters from `i`.
fn scan_exec(v: &Vec<char>, i: usize, cls: &CharClass, re: &LogPattern) -> (e: usize)
    requires
        i <= v.len(),
        re.wf(),
    ensures
        e == scan(v@, i as int, *cls),
{
    let mut j = i;
    while j < v.len() && in_class_exec(cls, v[j], re)
        invariant
            re.wf(),
            i <= j <= v.len(),
            scan(v@, j as int, *cls) == scan(v@, i as int, *cls),
        decreases v.len() - j,
    {
        j += 1;
    }
    j
}

fn run_exec(v: &Vec<char>, i: usize, cls: &CharClass, re: &LogPattern) -> (r: Option<usize>)
    requires
        i <= v.len(),
        re.wf(),
    ensures
        match r {
            Some(e) => e as int == tok_run(v@, i as int, *cls) && e <= v.len(),
            None => tok_run(v@, i as int, *cls) == -1,
        },
{
    proof {
        lemma_scan_bounds(v@, i as int, *cls);
    }
    let e = scan_exec(v, i, cls, re);
    if e > i {
        Some(e)
    } else {
        None
    }
}

fn octet_exec(v: &Vec<char>, i: usize, re: &LogPattern) -> (r: Option<usize>)
    requires
        i <= v.len(),
        re.wf(),
    ensures
        match r {
            Some(e) => e as int == tok_octet(v@, i as int) && e <= v.len(),
            None => tok_octet(v@, i as int) == -1,
        },
{
    proof {
        lemma_scan_bounds(v@, i as int, CharClass::Digit);
    }
    let e = scan_exec(v, i, &CharClass::Digit, re);
    if i < e && e - i <= 3 {
        Some(e)
    } else {
        None
    }
}

fn lit_exec(v: &Vec<char>, i: usize, c: char) -> (r: Option<usize>)
    requires
        i <= v.len(),
    ensures
        match r {
            Some(e) => e as int == tok_lit(v@, i as int, c) && e <= v.len(),
            None => tok_lit(v@, i as int, c) == -1,
        },
{
    if i < v.len() && v[i] == c {
        Some(i + 1)
    } else {
        None
    }
}

fn through_exec(v: &Vec<char>, i: usize, c: char, re: &LogPattern) -> (r: Option<usize>)
    requires
        i <= v.len(),
        re.wf(),
    ensures
        match r {
            Some(e) => e as int == tok_through(v@, i as int, c) && e <= v.len(),
            None => tok_through(v@, i as int, c) == -1,
        },
{
    proof {
        lemma_scan_bounds(v@, i as int, CharClass::Except(c));
    }
    let e = scan_exec(v, i, &CharClass::Except(c), re);
    if e < v.len() && v[e] == c {
        Some(e + 1)
    } else {
        None
    }
}

fn three_digits_exec(v: &Vec<char>, i: usize, re: &LogPattern) -> (r: Option<usize>)
    requires
        i <= v.len(),
        re.wf(),
    ensures
        match r {
            Some(e) => e as int == tok_three_digits(v@, i as int) && e <= v.len(),
            None => tok_three_digits(v@, i as int) == -1,
        },
{
    if v.len() - i >= 3 && re.digits.contains(v[i]) && re.digits.contains(v[i + 1])
        && re.digits.contains(v[i + 2]) {
        Some(i + 3)
    } else {
        None
    }
}

fn size_exec(v: &Vec<char>, i: usize, re: &LogPattern) -> (r: Option<usize>)
    requires
        i <= v.len(),
        re.wf(),
    ensures
        match r {
            Some(e) => e as int == tok_size(v@, i as int) && e <= v.len(),
            None => tok_size(v@, i as int) == -1,
        },
{
    proof {
        lemma_scan_bounds(v@, i as int, CharClass::Digit);
    }
    let e = scan_exec(v, i, &CharClass::Digit, re);
    if e > i {
        Some(e)
    } else if i < v.len() && v[i] == '-' {
        Some(i + 1)
    } else {
        None
    }
}

/// The value of the digits `v[from..to]`, or `None` when it exceeds `u64::MAX`.
fn digits_value_exec(v: &Vec<char>, from: usize, to: usize) -> (r: Option<u64>)
    requires
        from <= to <= v.len(),
        forall|k: int| from <= k < to ==> is_digit(#[trigger] v@[k]),
    ensures
        match r {
            Some(x) => x as nat == digits_value(v@.subrange(from as int, to as int)),
            None => digits_value(v@.subrange(from as int, to as int)) > u64::MAX,
        },
{
    let mut acc: u64 = 0;
    let mut i = from;
    while i < to
        invariant
            from <= i <= to <= v.len(),
            forall|k: int| from <= k < to ==> is_digit(#[trigger] v@[k]),
            acc as nat == digits_value(v@.subrange(from as int, i as int)),
        decreases to - i,
    {
        let ghost prefix = v@.subrange(from as int, i as int);
        let ghost next = v@.subrange(from as int, i + 1);
        assert(next.drop_last() == prefix);
        assert(next.last() == v@[i as int]);
        let d = (v[i] as u32) - ('0' as u32);
        if acc > (u64::MAX - (d as u64)) / 10 {
            proof {
                lemma_digits_value_monotone(v@, from as int, i + 1, to as int);
            }
            return None;
        }
        acc = acc * 10 + (d as u64);
        i += 1;
    }
    Some(acc)
}

proof fn lemma_digits_value_monotone(s: Seq<char>, from: int, mid: int, to: int)
    requires
        0 <= from <= mid <= to <= s.len(),
    ensures
        digits_value(s.subrange(from, mid)) <= digits_value(s.subrange(from, to)),
    decreases to - mid,
{
    if mid < to {
        lemma_digits_value_monotone(s, from, mid, to - 1);
        assert(s.subrange(from, to).drop_last() == s.subrange(from, to - 1));
    }
}

/// Whether `v[from..to]` are all ASCII digits.
fn ascii_digits_exec(v: &Vec<char>, from: usize, to: usize) -> (r: bool)
    requires
        from <= to <= v.len(),
    ensures
        r == ascii_digits(v@.subrange(from as int, to as int)),
{
    let mut i = from;
    while i < to
        invariant
            from <= i <= to <= v.len(),
            forall|k: int| from <= k < i ==> is_digit(#[trigger] v@[k]),
        decreases to - i,
    {
        if !is_digit_char(v[i]) {
            assert(!is_digit(v@.subrange(from as int, to as int)[i - from]));
            return false;
        }
        i += 1;
    }
    assert forall|k: int| 0 <= k < to - from implies is_digit(#[trigger] v@.subrange(from as int, to as int)[k]) by {
        assert(v@.subrange(from as int, to as int)[k] == v@[from + k]);
    }
    true
}

/// Parses one access-log line given as its characters.
pub fn parse_chars(v: &Vec<char>, re: &LogPattern) -> (r: Option<LogLine>)
    requires
        re.wf(),
    ensures
        match r {
            Some(l) => parse_spec(v@) == Some(l@),
            None => parse_spec(v@) is None,
        },
{
    let ghost s = v@;
    let ghost p = positions(s);
    let p1 = match octet_exec(v, 0, re) {
        Some(e) => e,
        None => return None,
    };
    let p2 = match lit_exec(v, p1, '.') {
        Some(e) => e,
        None => return None,
    };
    let p3 = match octet_exec(v, p2, re) {
        Some(e) => e,
        None => return None,
    };
    let p4 = match lit_exec(v, p3, '.') {
        Some(e) => e,
        None => return None,
    };
    let p5 = match octet_exec(v, p4, re) {
        Some(e) => e,
        None => return None,
    };
    let p6 = match lit_exec(v, p5, '.') {
        Some(e) => e,
        None => return None,
    };
    let p7 = match octet_exec(v, p6, re) {
        Some(e) => e,
        None => return None,
    };
    let p8 = match run_exec(v, p7, &CharClass::Space, re) {
        Some(e) => e,
        None => return None,
    };
    let p9 = match run_exec(v, p8, &CharClass::NonSpace, re) {
        Some(e) => e,
        None => return None,
    };
    let p10 = match run_exec(v, p9, &CharClass::Space, re) {
        Some(e) => e,
        None => return None,
    };
    let p11 = match run_exec(v, p10, &CharClass::NonSpace, re) {
        Some(e) => e,
        None => return None,
    };
    let p12 = match run_exec(v, p11, &CharClass::Space, re) {
        Some(e) => e,
        None => return None,
    };
    let p13 = match lit_exec(v, p12, '[') {
        Some(e) => e,
        None => return None,
    };
    let p14 = match through_exec(v, p13, ']', re) {
        Some(e) => e,
        None => return None,
    };
    let p15 = match run_exec(v, p14, &CharClass::Space, re) {
        Some(e) => e,
        None => return None,
    };
    let p16 = match lit_exec(v, p15, '"') {
        Some(e) => e,
        None => return None,
    };
    let p17 = match run_exec(v, p16, &CharClass::Word, re) {
        Some(e) => e,
        None => return None,
    };
    let p18 = match run_exec(v, p17, &CharClass::Space, re) {
        Some(e) => e,
        None => return None,
    };
    let p19 = match run_exec(v, p18, &CharClass::NonSpace, re) {
        Some(e) => e,
        None => return None,
    };
    let p20 = match run_exec(v, p19, &CharClass::Space, re) {
        Some(e) => e,
        None => return None,
    };
    let p21 = match through_exec(v, p20, '"', re) {
        Some(e) => e,
        None => return None,
    };
    let p22 = match run_exec(v, p21, &CharClass::Space, re) {
        Some(e) => e,
        None => return None,
    };
    let p23 = match three_digits_exec(v, p22, re) {
        Some(e) => e,
        None => return None,
    };
    let p24 = match run_exec(v, p23, &CharClass::Space, re) {
        Some(e) => e,
        None => return None,
    };
    let p25 = match size_exec(v, p24, re) {
        Some(e) => e,
        None => return None,
    };
    assert(p[7] == p7 && p[16] == p16 && p[17] == p17 && p[18] == p18 && p[19] == p19);
    assert(p[22] == p22 && p[23] == p23 && p[24] == p24 && p[25] == p25);
    if !ascii_digits_exec(v, p22, p23) {
        return None;
    }
    proof {
        assert(v@.subrange(p22 as int, p23 as int)[0] == v@[p22 as int]);
        assert(v@.subrange(p22 as int, p23 as int)[1] == v@[p22 + 1]);
        assert(v@.subrange(p22 as int, p23 as int)[2] == v@[p22 + 2]);
    }
    let d0 = (v[p22] as u32) - ('0' as u32);
    let d1 = (v[p22 + 1] as u32) - ('0' as u32);
    let d2 = (v[p22 + 2] as u32) - ('0' as u32);
    let status = (d0 * 100 + d1 * 10 + d2) as u16;
    proof {
        let ds = s.subrange(p22 as int, p23 as int);
        assert(ds.drop_last().drop_last().drop_last().len() == 0);
        assert(digits_value(ds) == (d0 * 100 + d1 * 10 + d2) as nat) by {
            let a = s.subrange(p22 as int, p22 + 1);
            let b = s.subrange(p22 as int, p22 + 2);
            assert(a.drop_last() == s.subrange(p22 as int, p22 as int));
            assert(digits_value(a.drop_last()) == 0);
            assert(digits_value(a) == d0);
            assert(b.drop_last() == a);
            assert(digits_value(b) == d0 * 10 + d1);
            assert(ds.drop_last() == b);
        }
    }
    let size: u64 = if v[p24] == '-' {
        0
    } else if !ascii_digits_exec(v, p24, p25) {
        0
    } else {
        proof {
            assert forall|k: int| p24 <= k < p25 implies is_digit(#[trigger] v@[k]) by {
                assert(v@.subrange(p24 as int, p25 as int)[k - p24] == v@[k]);
            }
        }
        match digits_value_exec(v, p24, p25) {
            Some(x) => x,
            None => 0,
        }
    };
    let ip = string_of(v, 0, p7);
    let method = string_of(v, p16, p17);
    let path = string_of(v, p18, p19);
    Some(LogLine { ip, method, path, status, size })
}

/// Parses one access-log line; `None` when the line is not in the format.
pub fn parse_line(line: &str, re: &LogPattern) -> (r: Option<LogLine>)
    requires
        re.wf(),
    ensures
        match r {
            Some(l) => parse_spec(line@) == Some(l@),
            None => parse_spec(line@) is None,
        },
{
    let v = chars_of(line);
    parse_chars(&v, re)
}

/// Where the line that starts at `i` ends: just after its `\n`, or at the
/// end of the text.
pub open spec fn line_end(s: Seq<char>, i: int) -> int {
    let e = scan(s, i, CharClass::Except('\n'));
    if e < s.len() {
        e + 1
    } else {
        s.len() as int
    }
}

/// The lines of `s` from position `i` on, as a reader's `read_line` yields
/// them: each up to and including its `\n`, the last one possibly without.
pub open spec fn lines_from(s: Seq<char>, i: int) -> Seq<Seq<char>>
    decreases s.len() - i,
{
    if 0 <= i < s.len() {
        proof {
            lemma_scan_bounds(s, i, CharClass::Except('\n'));
        }
        seq![s.subrange(i, line_end(s, i))] + lines_from(s, line_end(s, i))
    } else {
        seq![]
    }
}

/// The lines of a text.
pub open spec fn lines_of(s: Seq<char>) -> Seq<Seq<char>> {
    lines_from(s, 0)
}

/// The records of the lines that parse, in order.
pub open spec fn records(lines: Seq<Seq<char>>) -> Seq<LogRecord>
    decreases lines.len(),
{
    if lines.len() == 0 {
        seq![]
    } else {
        match parse_spec(lines.last()) {
            Some(r) => records(lines.drop_last()).push(r),
            None => records(lines.drop_last()),
        }
    }
}

pub proof fn lemma_line_end(s: Seq<char>, i: int)
    requires
        0 <= i < s.len(),
    ensures
        i < line_end(s, i) <= s.len(),
        forall|k: int| i <= k < line_end(s, i) - 1 ==> s[k] != '\n',
        line_end(s, i) < s.len() ==> s[line_end(s, i) - 1] == '\n',
{
    lemma_scan_bounds(s, i, CharClass::Except('\n'));
}

/// The position just after the line that starts at `i`.
pub fn line_end_exec(v: &Vec<char>, i: usize) -> (e: usize)
    requires
        i < v.len(),
    ensures
        e as int == line_end(v@, i as int),
        i < e <= v.len(),
{
    proof {
        lemma_line_end(v@, i as int);
    }
    let cls = CharClass::Except('\n');
    let mut stop = i;
    while stop < v.len() && v[stop] != '\n'
        invariant
            i <= stop <= v.len(),
            cls == CharClass::Except('\n'),
            scan(v@, stop as int, cls) == scan(v@, i as int, cls),
        decreases v.len() - stop,
    {
        assert(in_class(cls, v@[stop as int]));
        stop += 1;
    }
    proof {
        lemma_scan_bounds(v@, i as int, cls);
    }
    if stop < v.len() {
        stop + 1
    } else {
        stop
    }
}

/// A copy of `v[lo..hi]`.
pub fn sub_vec(v: &Vec<char>, lo: usize, hi: usize) -> (r: Vec<char>)
    requires
        lo <= hi <= v.len(),
    ensures
        r@ == v@.subrange(lo as int, hi as int),
{
    let mut r: Vec<char> = Vec::new();
    let mut i = lo;
    while i < hi
        invariant
            lo <= i <= hi <= v.len(),
            r@ == v@.subrange(lo as int, i as int),
        decreases hi - i,
    {
        r.push(v[i]);
        assert(v@.subrange(lo as int, i + 1) == v@.subrange(lo as int, i as int).push(v@[i as int]));
        i += 1;
    }
    r
}

/// The records of `lines` and of one more line.
pub proof fn lemma_records_push(lines: Seq<Seq<char>>, line: Seq<char>)
    ensures
        records(lines.push(line)) == match parse_spec(line) {
            Some(r) => records(lines).push(r),
            None => records(lines),
        },
{
    assert(lines.push(line).drop_last() == lines);
}

/// Every line holds at least one character, so there are no more lines than
/// characters.
pub proof fn lemma_lines_from_len(s: Seq<char>, i: int)
    requires
        0 <= i <= s.len(),
    ensures
        lines_from(s, i).len() <= s.len() - i,
    decreases s.len() - i,
{
    if i < s.len() {
        lemma_line_end(s, i);
        lemma_lines_from_len(s, line_end(s, i));
    }
}

/// The client address of a parsed line is at most 15 characters, each a
/// decimal digit or a dot.
pub proof fn lemma_parse_ip_chars(s: Seq<char>)
    ensures
        parse_spec(s) matches Some(r) ==> r.ip.len() <= 15 && forall|i: int|
            0 <= i < r.ip.len() ==> is_decimal(#[trigger] r.ip[i]) || r.ip[i] == '.',
{
    let p = positions(s);
    if p[25] >= 0 {
        assert(p[7] >= 0 && p[6] >= 0 && p[5] >= 0 && p[4] >= 0 && p[3] >= 0 && p[2] >= 0 && p[1] >= 0);
        assert(p[7] <= s.len()) by {
            lemma_scan_bounds(s, p[6], CharClass::Digit);
        }
        lemma_scan_bounds(s, 0, CharClass::Digit);
        lemma_scan_bounds(s, p[2], CharClass::Digit);
        lemma_scan_bounds(s, p[4], CharClass::Digit);
        lemma_scan_bounds(s, p[6], CharClass::Digit);
        let ip = s.subrange(0, p[7]);
        assert forall|i: int| 0 <= i < ip.len() implies is_decimal(#[trigger] ip[i]) || ip[i] == '.' by {
            assert(ip[i] == s[i]);
        }
    }
}

/// No more records than lines.
pub proof fn lemma_records_len(lines: Seq<Seq<char>>)
    ensures
        records(lines).len() <= lines.len(),
    decreases lines.len(),
{
    if lines.len() > 0 {
        lemma_records_len(lines.drop_last());
    }
}

proof fn lemma_scan_shift(p: Seq<char>, b: Seq<char>, j: int, cls: CharClass)
    requires
        0 <= j <= b.len(),
    ensures
        scan(p + b, p.len() + j, cls) == p.len() + scan(b, j, cls),
    decreases b.len() - j,
{
    if j < b.len() {
        assert((p + b)[p.len() + j] == b[j]);
        if in_class(cls, b[j]) {
            lemma_scan_shift(p, b, j + 1, cls);
        }
    }
}

proof fn lemma_lines_from_shift(p: Seq<char>, b: Seq<char>, j: int)
    requires
        0 <= j <= b.len(),
    ensures
        lines_from(p + b, p.len() + j) == lines_from(b, j),
    decreases b.len() - j,
{
    if j < b.len() {
        lemma_scan_shift(p, b, j, CharClass::Except('\n'));
        lemma_line_end(b, j);
        let e = line_end(b, j);
        assert(line_end(p + b, p.len() + j) == p.len() + e);
        assert((p + b).subrange(p.len() + j, p.len() + e) == b.subrange(j, e));
        lemma_lines_from_shift(p, b, e);
    }
}

proof fn lemma_scan_prefix(a: Seq<char>, b: Seq<char>, i: int)
    requires
        0 <= i < a.len(),
        a.last() == '\n',
    ensures
        scan(a + b, i, CharClass::Except('\n')) == scan(a, i, CharClass::Except('\n')),
        scan(a, i, CharClass::Except('\n')) < a.len(),
    decreases a.len() - i,
{
    assert((a + b)[i] == a[i]);
    if a[i] != '\n' {
        lemma_scan_prefix(a, b, i + 1);
    }
}

proof fn lemma_lines_from_concat(a: Seq<char>, b: Seq<char>, i: int)
    requires
        0 <= i <= a.len(),
        a.len() == 0 || a.last() == '\n',
    ensures
        lines_from(a + b, i) == lines_from(a, i) + lines_from(b, 0),
    decreases a.len() - i,
{
    if i == a.len() {
        lemma_lines_from_shift(a, b, 0);
        assert(lines_from(a, i) == Seq::<Seq<char>>::empty());
        assert(Seq::<Seq<char>>::empty() + lines_from(b, 0) == lines_from(b, 0));
    } else {
        lemma_scan_prefix(a, b, i);
        lemma_line_end(a, i);
        let e = line_end(a, i);
        assert(line_end(a + b, i) == e);
        assert((a + b).subrange(i, e) == a.subrange(i, e));
        lemma_lines_from_concat(a, b, e);
        assert(seq![a.subrange(i, e)] + (lines_from(a, e) + lines_from(b, 0)) == (seq![
            a.subrange(i, e),
        ] + lines_from(a, e)) + lines_from(b, 0));
    }
}

/// Reading a text in two pieces, the first ending at a line break, yields
/// the lines of the first piece and then those of the second: a log can be
/// processed as it streams in.
pub proof fn lemma_lines_of_concat(a: Seq<char>, b: Seq<char>)
    requires
        a.len() == 0 || a.last() == '\n',
    ensures
        lines_of(a + b) == lines_of(a) + lines_of(b),
{
    lemma_lines_from_concat(a, b, 0);
}

/// Every line but possibly the last ends with a line break, and none holds
/// another.
pub proof fn lemma_lines_shape(s: Seq<char>, i: int)
    requires
        0 <= i <= s.len(),
    ensures
        forall|k: int| 0 <= k < lines_from(s, i).len() ==> #[trigger] lines_from(s, i)[k].len() > 0,
        forall|k: int| 0 <= k < lines_from(s, i).len() - 1 ==> #[trigger] lines_from(s, i)[k].last() == '\n',
        forall|k: int, m: int|
            0 <= k < lines_from(s, i).len() && 0 <= m < lines_from(s, i)[k].len() - 1
                ==> #[trigger] lines_from(s, i)[k][m] != '\n',
    decreases s.len() - i,
{
    if i < s.len() {
        lemma_line_end(s, i);
        let e = line_end(s, i);
        lemma_lines_shape(s, e);
        let rest = lines_from(s, e);
        let ls = lines_from(s, i);
        assert(ls == seq![s.subrange(i, e)] + rest);
        assert forall|k: int| 0 <= k < ls.len() - 1 implies #[trigger] ls[k].last() == '\n' by {
            if k == 0 {
                if e == s.len() {
                    lemma_lines_from_len(s, e);
                }
            } else {
                assert(ls[k] == rest[k - 1]);
            }
        }
        assert forall|k: int, m: int| 0 <= k < ls.len() && 0 <= m < ls[k].len() - 1 implies #[trigger] ls[k][m] != '\n' by {
            if k > 0 {
                assert(ls[k] == rest[k - 1]);
            }
        }
        assert forall|k: int| 0 <= k < ls.len() implies #[trigger] ls[k].len() > 0 by {
            if k > 0 {
                assert(ls[k] == rest[k - 1]);
            }
        }
    }
}

proof fn lemma_digit_char(d: nat)
    requires
        d < 10,
    ensures
        is_digit(digit_char(d)),
        digit_value(digit_char(d)) == d,
{
}

/// The decimal rendering of a number is a run of digits whose value is the
/// number.
pub proof fn lemma_decimal_digits(n: nat)
    ensures
        decimal(n).len() > 0,
        forall|k: int| 0 <= k < decimal(n).len() ==> is_digit(#[trigger] decimal(n)[k]),
        digits_value(decimal(n)) == n,
    decreases n,
{
    if n < 10 {
        lemma_digit_char(n);
        assert(decimal(n).drop_last() == Seq::<char>::empty());
        assert(decimal(n).last() == digit_char(n));
        assert(digits_value(decimal(n)) == digits_value(Seq::<char>::empty()) * 10 + n);
    } else {
        lemma_decimal_digits(n / 10);
        lemma_digit_char(n % 10);
        assert(decimal(n).drop_last() == decimal(n / 10));
        assert(decimal(n).last() == digit_char(n % 10));
        assert(digits_value(decimal(n)) == (n / 10) * 10 + n % 10);
    }
}

proof fn lemma_scan_ext(s: Seq<char>, t: Seq<char>, i: int, cls: CharClass)
    requires
        0 <= i <= s.len(),
    ensures
        scan(s, i, cls) < s.len() ==> scan(s + t, i, cls) == scan(s, i, cls),
        scan(s, i, cls) == s.len() ==> scan(s + t, i, cls) >= s.len(),
    decreases s.len() - i,
{
    lemma_scan_bounds(s, i, cls);
    lemma_scan_bounds(s + t, i, cls);
    if i < s.len() {
        assert((s + t)[i] == s[i]);
        if in_class(cls, s[i]) {
            lemma_scan_ext(s, t, i + 1, cls);
        }
    }
}

/// Where a token ends in `s` and in `s + t` agree, or neither can lead to a
/// parse that `t` changes: `s` is used up (or failed) and `s + t` is past the
/// end of `s` (or failed).
pub open spec fn agree(s: Seq<char>, t: Seq<char>, ps: int, pt: int) -> bool {
    ||| ps == pt && ps <= s.len()
    ||| (ps == -1 || ps == s.len()) && (pt == -1 || s.len() <= pt <= s.len() + t.len())
}

proof fn lemma_agree_run(s: Seq<char>, t: Seq<char>, ps: int, pt: int, cls: CharClass)
    requires
        agree(s, t, ps, pt),
    ensures
        agree(s, t, tok_run(s, ps, cls), tok_run(s + t, pt, cls)),
        agree(s, t, tok_octet(s, ps), tok_octet(s + t, pt)),
        agree(s, t, tok_through(s, ps, cls_char(cls)), tok_through(s + t, pt, cls_char(cls))),
{
    let n = s.len() as int;
    let c = cls_char(cls);
    if ps >= 0 {
        lemma_scan_bounds(s, ps, cls);
        lemma_scan_bounds(s, ps, CharClass::Digit);
        lemma_scan_bounds(s, ps, CharClass::Except(c));
    }
    if pt >= 0 {
        lemma_scan_bounds(s + t, pt, cls);
        lemma_scan_bounds(s + t, pt, CharClass::Digit);
        lemma_scan_bounds(s + t, pt, CharClass::Except(c));
    }
    if ps == pt && 0 <= ps <= n {
        lemma_scan_ext(s, t, ps, cls);
        lemma_scan_ext(s, t, ps, CharClass::Digit);
        lemma_scan_ext(s, t, ps, CharClass::Except(c));
        let e = scan(s, ps, CharClass::Except(c));
        if e < n {
            assert((s + t)[e] == s[e]);
        }
    }
}

/// The character a `through` token reads up to, for the classes that name one.
pub open spec fn cls_char(cls: CharClass) -> char {
    match cls {
        CharClass::Except(c) => c,
        _ => ' ',
    }
}

proof fn lemma_agree_lit(s: Seq<char>, t: Seq<char>, ps: int, pt: int, c: char)
    requires
        agree(s, t, ps, pt),
    ensures
        agree(s, t, tok_lit(s, ps, c), tok_lit(s + t, pt, c)),
        agree(s, t, tok_three_digits(s, ps), tok_three_digits(s + t, pt)),
{
    if ps == pt && 0 <= ps < s.len() {
        assert((s + t)[ps] == s[ps]);
        if ps + 3 <= s.len() {
            assert((s + t)[ps + 1] == s[ps + 1]);
            assert((s + t)[ps + 2] == s[ps + 2]);
        }
    }
}

/// Appending characters that are neither decimal digits nor `-` to a line
/// does not change what it parses to: a line break at the end of a line, as
/// a reader hands it over, changes nothing.
pub proof fn lemma_parse_extend(s: Seq<char>, t: Seq<char>)
    requires
        forall|k: int| 0 <= k < t.len() ==> !is_decimal(#[trigger] t[k]) && t[k] != '-',
    ensures
        parse_spec(s + t) == parse_spec(s),
{
    let n = s.len() as int;
    let u = s + t;
    let p = positions(s);
    let q = positions(u);
    assert(agree(s, t, p[0], q[0]));
    lemma_agree_run(s, t, p[0], q[0], CharClass::Space);
    lemma_agree_lit(s, t, p[1], q[1], '.');
    lemma_agree_run(s, t, p[2], q[2], CharClass::Space);
    lemma_agree_lit(s, t, p[3], q[3], '.');
    lemma_agree_run(s, t, p[4], q[4], CharClass::Space);
    lemma_agree_lit(s, t, p[5], q[5], '.');
    lemma_agree_run(s, t, p[6], q[6], CharClass::Space);
    lemma_agree_run(s, t, p[7], q[7], CharClass::Space);
    lemma_agree_run(s, t, p[8], q[8], CharClass::NonSpace);
    lemma_agree_run(s, t, p[9], q[9], CharClass::Space);
    lemma_agree_run(s, t, p[10], q[10], CharClass::NonSpace);
    lemma_agree_run(s, t, p[11], q[11], CharClass::Space);
    lemma_agree_lit(s, t, p[12], q[12], '[');
    lemma_agree_run(s, t, p[13], q[13], CharClass::Except(']'));
    lemma_agree_run(s, t, p[14], q[14], CharClass::Space);
    lemma_agree_lit(s, t, p[15], q[15], '"');
    lemma_agree_run(s, t, p[16], q[16], CharClass::Word);
    lemma_agree_run(s, t, p[17], q[17], CharClass::Space);
    lemma_agree_run(s, t, p[18], q[18], CharClass::NonSpace);
    lemma_agree_run(s, t, p[19], q[19], CharClass::Space);
    lemma_agree_run(s, t, p[20], q[20], CharClass::Except('"'));
    lemma_agree_run(s, t, p[21], q[21], CharClass::Space);
    lemma_agree_lit(s, t, p[22], q[22], '.');
    lemma_agree_run(s, t, p[23], q[23], CharClass::Space);
    assert(agree(s, t, p[24], q[24]));
    // the size: a run of digits that may reach the end of `s` stops there
    // in `s + t` too
    if p[24] >= 0 {
        lemma_scan_bounds(s, p[24], CharClass::Digit);
    }
    if q[24] >= 0 {
        lemma_scan_bounds(u, q[24], CharClass::Digit);
    }
    if p[24] == q[24] && 0 <= p[24] <= n {
        lemma_scan_ext(s, t, p[24], CharClass::Digit);
        if scan(s, p[24], CharClass::Digit) == n && n < u.len() {
            assert(u[n] == t[0]);
            lemma_scan_bounds(u, p[24], CharClass::Digit);
            assert(scan(u, p[24], CharClass::Digit) == n);
        }
        if p[24] < n {
            assert(u[p[24]] == s[p[24]]);
        } else if n < u.len() {
            assert(u[n] == t[0]);
        }
    } else if q[24] >= n && q[24] < u.len() {
        assert(u[q[24]] == t[q[24] - n]);
    }
    assert(p[25] == q[25] || (p[25] < 0 && q[25] < 0));
    if p[25] >= 0 {
        assert(p[25] <= n);
        assert(u.subrange(0, p[7]) == s.subrange(0, p[7]));
        assert(u.subrange(p[16], p[17]) == s.subrange(p[16], p[17]));
        assert(u.subrange(p[18], p[19]) == s.subrange(p[18], p[19]));
        assert(u.subrange(p[22], p[23]) == s.subrange(p[22], p[23]));
        assert(u.subrange(p[24], p[25]) == s.subrange(p[24], p[25]));
        assert(has(u, p[24], '-') == has(s, p[24], '-'));
    }
}

/// A line break, or a carriage return and a line break, at the end of a line
/// does not change what the line parses to.
pub proof fn lemma_parse_line_break(s: Seq<char>)
    requires
        ascii_decimals_exact(),
    ensures
        parse_spec(s + seq!['\n']) == parse_spec(s),
        parse_spec(s + seq!['\r', '\n']) == parse_spec(s),
{
    assert(!is_decimal('\n'));
    assert(!is_decimal('\r'));
    lemma_parse_extend(s, seq!['\n']);
    lemma_parse_extend(s, seq!['\r', '\n']);
}

/// One to three ASCII digits.
pub open spec fn is_octet(o: Seq<char>) -> bool {
    &&& 1 <= o.len() <= 3
    &&& forall|k: int| 0 <= k < o.len() ==> is_digit(#[trigger] o[k])
}

/// The three digits of a status code below 1000.
pub open spec fn status_digits(st: u16) -> Seq<char> {
    seq![
        digit_char((st / 100) as nat),
        digit_char(((st / 10) % 10) as nat),
        digit_char((st % 10) as nat),
    ]
}

/// A line in the format with the given fields, `-` for the identity and the
/// user, and anything after the size.
#[verifier::opaque]
pub open spec fn format_line(
    o1: Seq<char>,
    o2: Seq<char>,
    o3: Seq<char>,
    o4: Seq<char>,
    when: Seq<char>,
    method: Seq<char>,
    path: Seq<char>,
    protocol: Seq<char>,
    st: u16,
    size: u64,
    tail: Seq<char>,
) -> Seq<char> {
    o1 + seq!['.'] + o2 + seq!['.'] + o3 + seq!['.'] + o4 + seq![' ', '-', ' ', '-', ' ', '['] + when + seq![']', ' ', '"'] + method + seq![' '] + path + seq![' '] + protocol + seq!['"', ' '] + status_digits(st) + seq![' '] + decimal(size as nat) + tail
}

proof fn lemma_run_at(s: Seq<char>, i: int, t: Seq<char>, cls: CharClass)
    requires
        0 <= i,
        i + t.len() <= s.len(),
        s.subrange(i, i + t.len()) == t,
        forall|k: int| 0 <= k < t.len() ==> in_class(cls, #[trigger] t[k]),
        i + t.len() == s.len() || !in_class(cls, s[i + t.len()]),
    ensures
        scan(s, i, cls) == i + t.len(),
    decreases t.len(),
{
    if t.len() > 0 {
        assert(s[i] == t[0]);
        assert(s.subrange(i + 1, i + t.len()) =~= t.drop_first());
        lemma_run_at(s, i + 1, t.drop_first(), cls);
    }
}

proof fn lemma_piece(before: Seq<char>, x: Seq<char>, whole: Seq<char>)
    requires
        (before.len() + x.len()) as int <= whole.len(),
        whole.subrange(0, (before.len() + x.len()) as int) == before + x,
    ensures
        whole.subrange(before.len() as int, (before.len() + x.len()) as int) == x,
        whole.subrange(0, before.len() as int) == before,
{
    assert(whole.subrange(before.len() as int, (before.len() + x.len()) as int) =~= x) by {
        assert forall|k: int| 0 <= k < x.len() implies whole.subrange(
            before.len() as int,
            (before.len() + x.len()) as int,
        )[k] == x[k] by {
            assert(whole.subrange(0, (before.len() + x.len()) as int)[before.len() + k] == (before + x)[before.len() + k]);
            assert(whole.subrange(0, (before.len() + x.len()) as int)[before.len() + k] == whole[before.len() + k]);
            assert(whole.subrange(before.len() as int, (before.len() + x.len()) as int)[k] == whole[before.len() + k]);
        }
    }
    assert(whole.subrange(0, before.len() as int) =~= before) by {
        assert forall|k: int| 0 <= k < before.len() implies whole.subrange(0, before.len() as int)[k]
            == before[k] by {
            assert(whole.subrange(0, (before.len() + x.len()) as int)[k] == (before + x)[k]);
        }
    }
}

/// Where the fields of a formatted line stand.
#[verifier::rlimit(60)]
#[verifier::spinoff_prover]
proof fn lemma_layout(
    o1: Seq<char>,
    o2: Seq<char>,
    o3: Seq<char>,
    o4: Seq<char>,
    when: Seq<char>,
    method: Seq<char>,
    path: Seq<char>,
    protocol: Seq<char>,
    st: u16,
    size: u64,
    tail: Seq<char>,
)
    ensures
        ({
            let s = format_line(o1, o2, o3, o4, when, method, path, protocol, st, size, tail);
            let a1 = o1.len() as int;
            let a2 = a1 + 1;
            let a3 = a2 + o2.len();
            let a4 = a3 + 1;
            let a5 = a4 + o3.len();
            let a6 = a5 + 1;
            let a7 = a6 + o4.len();
            let a8 = a7 + 6;
            let a9 = a8 + when.len();
            let a10 = a9 + 3;
            let a11 = a10 + method.len();
            let a12 = a11 + 1;
            let a13 = a12 + path.len();
            let a14 = a13 + 1;
            let a15 = a14 + protocol.len();
            let a16 = a15 + 2;
            let a17 = a16 + 4;
            let a18 = a17 + decimal(size as nat).len();
            &&& s.len() == a18 + tail.len()
            &&& s.subrange(0, a1) == o1
            &&& s.subrange(a1, a2) == seq!['.']
            &&& s.subrange(a2, a3) == o2
            &&& s.subrange(a3, a4) == seq!['.']
            &&& s.subrange(a4, a5) == o3
            &&& s.subrange(a5, a6) == seq!['.']
            &&& s.subrange(a6, a7) == o4
            &&& s.subrange(a7, a8) == seq![' ', '-', ' ', '-', ' ', '[']
            &&& s.subrange(a8, a9) == when
            &&& s.subrange(a9, a10) == seq![']', ' ', '"']
            &&& s.subrange(a10, a11) == method
            &&& s.subrange(a11, a12) == seq![' ']
            &&& s.subrange(a12, a13) == path
            &&& s.subrange(a13, a14) == seq![' ']
            &&& s.subrange(a14, a15) == protocol
            &&& s.subrange(a15, a16) == seq!['"', ' ']
            &&& s.subrange(a16, a16 + 3) == status_digits(st)
            &&& s.subrange(a16 + 3, a17) == seq![' ']
            &&& s.subrange(a17, a18) == decimal(size as nat)
            &&& s.subrange(a18, s.len() as int) == tail
            &&& s.subrange(0, a7) == o1 + seq!['.'] + o2 + seq!['.'] + o3 + seq!['.'] + o4
        }),
{
    reveal(format_line);
    let s = format_line(o1, o2, o3, o4, when, method, path, protocol, st, size, tail);
    let x1 = o1;
    let q1 = x1;
    let x2 = seq!['.'];
    let q2 = q1 + x2;
    let x3 = o2;
    let q3 = q2 + x3;
    let x4 = seq!['.'];
    let q4 = q3 + x4;
    let x5 = o3;
    let q5 = q4 + x5;
    let x6 = seq!['.'];
    let q6 = q5 + x6;
    let x7 = o4;
    let q7 = q6 + x7;
    let x8 = seq![' ', '-', ' ', '-', ' ', '['];
    let q8 = q7 + x8;
    let x9 = when;
    let q9 = q8 + x9;
    let x10 = seq![']', ' ', '"'];
    let q10 = q9 + x10;
    let x11 = method;
    let q11 = q10 + x11;
    let x12 = seq![' '];
    let q12 = q11 + x12;
    let x13 = path;
    let q13 = q12 + x13;
    let x14 = seq![' '];
    let q14 = q13 + x14;
    let x15 = protocol;
    let q15 = q14 + x15;
    let x16 = seq!['"', ' '];
    let q16 = q15 + x16;
    let x17 = status_digits(st);
    let q17 = q16 + x17;
    let x18 = seq![' '];
    let q18 = q17 + x18;
    let x19 = decimal(size as nat);
    let q19 = q18 + x19;
    let x20 = tail;
    let q20 = q19 + x20;
    assert(s == q20);
    assert(s.subrange(0, q20.len() as int) =~= q20);
    lemma_piece(q19, x20, s);
    lemma_piece(q18, x19, s);
    lemma_piece(q17, x18, s);
    lemma_piece(q16, x17, s);
    lemma_piece(q15, x16, s);
    lemma_piece(q14, x15, s);
    lemma_piece(q13, x14, s);
    lemma_piece(q12, x13, s);
    lemma_piece(q11, x12, s);
    lemma_piece(q10, x11, s);
    lemma_piece(q9, x10, s);
    lemma_piece(q8, x9, s);
    lemma_piece(q7, x8, s);
    lemma_piece(q6, x7, s);
    lemma_piece(q5, x6, s);
    lemma_piece(q4, x5, s);
    lemma_piece(q3, x4, s);
    lemma_piece(q2, x3, s);
    lemma_piece(q1, x2, s);
    assert(s.subrange(0, q1.len() as int) == x1);
    assert(s.subrange(q20.len() - x20.len(), s.len() as int) == x20);
    assert(s.subrange(0, q7.len() as int) == q7);
}

proof fn lemma_char_at(s: Seq<char>, i: int, j: int, t: Seq<char>, k: int)
    requires
        0 <= i <= j <= s.len(),
        s.subrange(i, j) == t,
        0 <= k < t.len(),
    ensures
        s[i + k] == t[k],
{
    assert(s.subrange(i, j)[k] == s[i + k]);
}

/// Whether `m` can stand as the method of a request: one or more word
/// characters. Whatever it returns, a space is known not to be a word
/// character afterwards.
pub fn is_method(m: &str) -> (r: bool)
    ensures
        r <==> (m@.len() > 0 && forall|k: int| 0 <= k < m@.len() ==> unicode_word_char(#[trigger] m@[k])),
        !unicode_word_char(' '),
{
    let _ = is_word_char(' ');
    assert(!is_ascii_word(' '));
    let v = chars_of(m);
    if v.len() == 0 {
        return false;
    }
    let mut i: usize = 0;
    while i < v.len()
        invariant
            i <= v@.len(),
            v@ == m@,
            !unicode_word_char(' '),
            forall|k: int| 0 <= k < i ==> unicode_word_char(#[trigger] v@[k]),
        decreases v.len() - i,
    {
        if !is_word_char(v[i]) {
            return false;
        }
        i += 1;
    }
    true
}

/// A line in the format parses to its fields: the address, the method, the
/// path, the status code and the size.
#[verifier::rlimit(30)]
pub proof fn lemma_parse_format_line(
    o1: Seq<char>,
    o2: Seq<char>,
    o3: Seq<char>,
    o4: Seq<char>,
    when: Seq<char>,
    method: Seq<char>,
    path: Seq<char>,
    protocol: Seq<char>,
    st: u16,
    size: u64,
    tail: Seq<char>,
)
    requires
        is_octet(o1),
        is_octet(o2),
        is_octet(o3),
        is_octet(o4),
        forall|k: int| 0 <= k < when.len() ==> #[trigger] when[k] != ']',
        method.len() > 0,
        forall|k: int| 0 <= k < method.len() ==> unicode_word_char(#[trigger] method[k]),
        !unicode_word_char(' '),
        path.len() > 0,
        forall|k: int| 0 <= k < path.len() ==> !is_white_space(#[trigger] path[k]),
        forall|k: int| 0 <= k < protocol.len() ==> #[trigger] protocol[k] != '"',
        protocol.len() == 0 || !is_white_space(protocol[0]),
        st < 1000,
        tail.len() == 0 || !is_decimal(tail[0]),
        ascii_decimals_exact(),
    ensures
        parse_spec(format_line(o1, o2, o3, o4, when, method, path, protocol, st, size, tail))
            == Some(
            LogRecord {
                ip: o1 + seq!['.'] + o2 + seq!['.'] + o3 + seq!['.'] + o4,
                method: method,
                path: path,
                status: st,
                size: size,
            },
        ),
{
    lemma_layout(o1, o2, o3, o4, when, method, path, protocol, st, size, tail);
    let s = format_line(o1, o2, o3, o4, when, method, path, protocol, st, size, tail);
    let sd = status_digits(st);
    let dd = decimal(size as nat);
    lemma_decimal_digits(size as nat);
    lemma_digit_char((st / 100) as nat);
    lemma_digit_char(((st / 10) % 10) as nat);
    lemma_digit_char((st % 10) as nat);
    let a1 = o1.len() as int;
    let a2 = a1 + 1;
    let a3 = a2 + o2.len();
    let a4 = a3 + 1;
    let a5 = a4 + o3.len();
    let a6 = a5 + 1;
    let a7 = a6 + o4.len();
    let a8 = a7 + 6;
    let a9 = a8 + when.len();
    let a10 = a9 + 3;
    let a11 = a10 + method.len();
    let a12 = a11 + 1;
    let a13 = a12 + path.len();
    let a14 = a13 + 1;
    let a15 = a14 + protocol.len();
    let a16 = a15 + 2;
    let a17 = a16 + 4;
    let a18 = a17 + dd.len();
    let mid = seq![' ', '-', ' ', '-', ' ', '['];
    let close = seq![']', ' ', '"'];
    let quote = seq!['"', ' '];
    lemma_char_at(s, a1, a2, seq!['.'], 0);
    lemma_char_at(s, a3, a4, seq!['.'], 0);
    lemma_char_at(s, a5, a6, seq!['.'], 0);
    lemma_char_at(s, a7, a8, mid, 0);
    lemma_char_at(s, a7, a8, mid, 1);
    lemma_char_at(s, a7, a8, mid, 2);
    lemma_char_at(s, a7, a8, mid, 3);
    lemma_char_at(s, a7, a8, mid, 4);
    lemma_char_at(s, a7, a8, mid, 5);
    lemma_char_at(s, a9, a10, close, 0);
    lemma_char_at(s, a9, a10, close, 1);
    lemma_char_at(s, a9, a10, close, 2);
    lemma_char_at(s, a11, a12, seq![' '], 0);
    lemma_char_at(s, a12, a13, path, 0);
    lemma_char_at(s, a13, a14, seq![' '], 0);
    if protocol.len() > 0 {
        lemma_char_at(s, a14, a15, protocol, 0);
    }
    lemma_char_at(s, a15, a16, quote, 0);
    lemma_char_at(s, a15, a16, quote, 1);
    lemma_char_at(s, a16, a16 + 3, sd, 0);
    lemma_char_at(s, a16, a16 + 3, sd, 1);
    lemma_char_at(s, a16, a16 + 3, sd, 2);
    lemma_char_at(s, a16 + 3, a17, seq![' '], 0);
    lemma_char_at(s, a17, a18, dd, 0);
    if tail.len() > 0 {
        lemma_char_at(s, a18, s.len() as int, tail, 0);
    }
    // the address
    lemma_run_at(s, 0, o1, CharClass::Digit);
    lemma_run_at(s, a2, o2, CharClass::Digit);
    lemma_run_at(s, a4, o3, CharClass::Digit);
    lemma_run_at(s, a6, o4, CharClass::Digit);
    let p = positions(s);
    assert(p[7] == a7);
    // identity, user and the date
    assert(s.subrange(a7, a7 + 1) =~= seq![' ']);
    assert(s.subrange(a7 + 1, a7 + 2) =~= seq!['-']);
    assert(s.subrange(a7 + 2, a7 + 3) =~= seq![' ']);
    assert(s.subrange(a7 + 3, a7 + 4) =~= seq!['-']);
    assert(s.subrange(a7 + 4, a7 + 5) =~= seq![' ']);
    lemma_run_at(s, a7, seq![' '], CharClass::Space);
    lemma_run_at(s, a7 + 1, seq!['-'], CharClass::NonSpace);
    lemma_run_at(s, a7 + 2, seq![' '], CharClass::Space);
    lemma_run_at(s, a7 + 3, seq!['-'], CharClass::NonSpace);
    lemma_run_at(s, a7 + 4, seq![' '], CharClass::Space);
    assert(p[13] == a8);
    lemma_run_at(s, a8, when, CharClass::Except(']'));
    assert(p[14] == a9 + 1);
    assert(s.subrange(a9 + 1, a9 + 2) =~= seq![' ']);
    lemma_run_at(s, a9 + 1, seq![' '], CharClass::Space);
    assert(p[16] == a10);
    // the request
    lemma_run_at(s, a10, method, CharClass::Word);
    lemma_run_at(s, a11, seq![' '], CharClass::Space);
    lemma_run_at(s, a12, path, CharClass::NonSpace);
    lemma_run_at(s, a13, seq![' '], CharClass::Space);
    assert(p[20] == a14);
    lemma_run_at(s, a14, protocol, CharClass::Except('"'));
    assert(p[21] == a15 + 1);
    assert(s.subrange(a15 + 1, a15 + 2) =~= seq![' ']);
    lemma_run_at(s, a15 + 1, seq![' '], CharClass::Space);
    assert(p[22] == a16);
    assert(p[23] == a16 + 3);
    lemma_run_at(s, a16 + 3, seq![' '], CharClass::Space);
    assert(p[24] == a17);
    lemma_run_at(s, a17, dd, CharClass::Digit);
    assert(p[25] == a18);
    // the values
    assert(digits_value(sd) == st) by {
        let a = sd.subrange(0, 1);
        let b = sd.subrange(0, 2);
        let d0 = (st / 100) as nat;
        let d1 = ((st / 10) % 10) as nat;
        let d2 = (st % 10) as nat;
        assert(a.drop_last() =~= Seq::<char>::empty());
        assert(digits_value(Seq::<char>::empty()) == 0);
        assert(a.last() == sd[0] && sd[0] == digit_char(d0));
        assert(b.last() == sd[1] && sd[1] == digit_char(d1));
        assert(sd.last() == digit_char(d2));
        assert(digits_value(a) == d0);
        assert(b.drop_last() =~= a);
        assert(digits_value(b) == d0 * 10 + d1);
        assert(sd.drop_last() =~= b);
        assert(digits_value(sd) == (d0 * 10 + d1) * 10 + d2);
        let x = st as int;
        assert((((x / 100) * 10 + (x / 10) % 10) * 10 + x % 10) == x) by (nonlinear_arith)
            requires
                0 <= x < 1000,
        ;
    }
}

} // verus!
