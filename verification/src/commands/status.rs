//! Request counts per HTTP status code.
use crate::commands::{LogPattern, 
    lemma_line_end, lemma_records_push, line_end_exec, lines_from,
    lines_of, parse_chars, parse_spec, records, sub_vec, LogRecord,
};
use crate::text::{append, chars_of, decimal, decimal_string, pad_right, padded_right};
use vstd::prelude::*;

verus! {

/// How many of `recs` carry status `st`.
pub open spec fn status_count(recs: Seq<LogRecord>, st: u16) -> nat
    decreases recs.len(),
{
    if recs.len() == 0 {
        0
    } else {
        status_count(recs.drop_last(), st) + if recs.last().status == st {
            1nat
        } else {
            0nat
        }
    }
}

/// The count of each status code that occurs among the parsed lines.
pub open spec fn status_tally(lines: Seq<Seq<char>>) -> Map<u16, nat> {
    Map::new(
        |st: u16| status_count(records(lines), st) > 0,
        |st: u16| status_count(records(lines), st),
    )
}

/// Number of codes a `u16` can hold.
pub const CODES: usize = 65536;

/// A count per status code, kept in a table indexed by the code: the report
/// lists the codes in increasing order, which a scan of the table gives
/// directly, where a hash map would have to be walked in an unspecified
/// order and sorted; the table's size is fixed by the width of a code.
pub struct StatusCounts {
    counts: Vec<usize>,
}

impl StatusCounts {
    /// The table has one slot per code.
    pub closed spec fn wf(&self) -> bool {
        self.counts.len() == CODES
    }

    /// The counts that are not zero.
    pub closed spec fn view(&self) -> Map<u16, nat> {
        Map::new(
            |st: u16| self.counts@[st as int] > 0,
            |st: u16| self.counts@[st as int] as nat,
        )
    }

    /// The count of one code (0 when it never occurred).
    pub open spec fn count_of(&self, st: u16) -> nat {
        if self.view().contains_key(st) {
            self.view()[st]
        } else {
            0
        }
    }

    /// No status seen yet.
    pub fn new() -> (r: Self)
        ensures
            r.wf(),
            r.view() == Map::<u16, nat>::empty(),
    {
        let mut counts: Vec<usize> = Vec::new();
        while counts.len() < CODES
            invariant
                counts.len() <= CODES,
                forall|i: int| 0 <= i < counts.len() ==> counts@[i] == 0,
            decreases CODES - counts.len(),
        {
            counts.push(0);
        }
        let r = StatusCounts { counts };
        assert(r.view() =~= Map::<u16, nat>::empty());
        r
    }

    /// How often `st` was recorded.
    pub fn count(&self, st: u16) -> (n: usize)
        requires
            self.wf(),
        ensures
            n == self.count_of(st),
    {
        self.counts[st as usize]
    }

    /// Records one more request with status `st`.
    pub fn record(&mut self, st: u16)
        requires
            old(self).wf(),
            old(self).count_of(st) < usize::MAX,
        ensures
            final(self).wf(),
            final(self).view() == old(self).view().insert(st, old(self).count_of(st) + 1),
    {
        let i = st as usize;
        let c = self.counts[i];
        self.counts.set(i, c + 1);
        assert(self.view() =~= old(self).view().insert(st, old(self).count_of(st) + 1));
    }

    /// The codes that occurred, in increasing order, with their counts.
    pub fn pairs(&self) -> (ps: Vec<(u16, usize)>)
        requires
            self.wf(),
        ensures
            ps.len() == codes_below(self.view(), CODES as nat).len(),
            forall|i: int|
                0 <= i < ps.len() ==> #[trigger] ps[i].0 == codes_below(self.view(), CODES as nat)[i]
                    && self.view()[ps[i].0] == ps[i].1,
    {
        let mut ps: Vec<(u16, usize)> = Vec::new();
        let mut k: usize = 0;
        while k < CODES
            invariant
                k <= CODES,
                self.wf(),
                ps.len() == codes_below(self.view(), k as nat).len(),
                forall|i: int|
                    0 <= i < ps.len() ==> #[trigger] ps[i].0 == codes_below(self.view(), k as nat)[i]
                        && self.view()[ps[i].0] == ps[i].1,
            decreases CODES - k,
        {
            let c = self.counts[k];
            let st = k as u16;
            assert(codes_below(self.view(), (k + 1) as nat) == if self.view().contains_key(st) {
                codes_below(self.view(), k as nat).push(st)
            } else {
                codes_below(self.view(), k as nat)
            });
            if c > 0 {
                ps.push((st, c));
            }
            k += 1;
        }
        ps
    }
}

/// The codes in `m` below `k`, in increasing order.
pub open spec fn codes_below(m: Map<u16, nat>, k: nat) -> Seq<u16>
    decreases k,
{
    if k == 0 {
        seq![]
    } else if m.contains_key((k - 1) as u16) {
        codes_below(m, (k - 1) as nat).push((k - 1) as u16)
    } else {
        codes_below(m, (k - 1) as nat)
    }
}

/// `codes_below(m, k)` lists, in strictly increasing order, exactly the codes
/// below `k` that `m` holds: the status table has one row per code that
/// occurred, in increasing order.
pub proof fn lemma_codes_below(m: Map<u16, nat>, k: nat)
    requires
        k <= CODES,
    ensures
        forall|i: int, j: int|
            0 <= i < j < codes_below(m, k).len() ==> codes_below(m, k)[i] < codes_below(m, k)[j],
        forall|i: int| 0 <= i < codes_below(m, k).len() ==> codes_below(m, k)[i] < k,
        forall|st: u16| st < k ==> (m.contains_key(st) <==> codes_below(m, k).contains(st)),
    decreases k,
{
    if k > 0 {
        lemma_codes_below(m, (k - 1) as nat);
        let prev = codes_below(m, (k - 1) as nat);
        let c = (k - 1) as u16;
        if m.contains_key(c) {
            let cur = prev.push(c);
            assert(codes_below(m, k) == cur);
            assert forall|st: u16| st < k implies (m.contains_key(st) <==> cur.contains(st)) by {
                if st < k - 1 {
                    if prev.contains(st) {
                        let i = choose|i: int| 0 <= i < prev.len() && prev[i] == st;
                        assert(cur[i] == st);
                    }
                    if cur.contains(st) {
                        let i = choose|i: int| 0 <= i < cur.len() && cur[i] == st;
                        assert(i < prev.len());
                        assert(prev[i] == st);
                    }
                } else {
                    assert(cur[cur.len() - 1] == st);
                }
            }
        } else {
            assert forall|st: u16| st < k implies (m.contains_key(st) <==> prev.contains(st)) by {
                if st == k - 1 && prev.contains(st) {
                    let i = choose|i: int| 0 <= i < prev.len() && prev[i] == st;
                }
            }
        }
    }
}

/// Tallies the status codes of the lines of `input` that parse.
pub fn compute(input: &str, re: &LogPattern) -> (r: StatusCounts)
    requires
        re.wf(),
    ensures
        r.wf(),
        r.view() == status_tally(lines_of(input@)),
{
    let v = chars_of(input);
    let ghost s = v@;
    let mut counts = StatusCounts::new();
    let mut start: usize = 0;
    let ghost mut done: Seq<Seq<char>> = seq![];
    proof {
        assert(status_tally(done) =~= counts.view());
    }
    while start < v.len()
        invariant
            re.wf(),
            s == v@,
            s == input@,
            start <= v.len(),
            lines_of(s) == done + lines_from(s, start as int),
            done.len() <= start,
            counts.wf(),
            counts.view() == status_tally(done),
            forall|st: u16| status_count(records(done), st) <= done.len(),
        decreases v.len() - start,
    {
        let end = line_end_exec(&v, start);
        let line = sub_vec(&v, start, end);
        proof {
            lemma_line_end(s, start as int);
            lemma_records_push(done, line@);
            assert(lines_from(s, start as int) == seq![line@] + lines_from(s, end as int));
            assert(done + lines_from(s, start as int) == done.push(line@) + lines_from(
                s,
                end as int,
            ));
        }
        match parse_chars(&line, re) {
            Some(l) => {
                assert(counts.count_of(l.status) == status_count(records(done), l.status));
                counts.record(l.status);
                proof {
                    let nd = done.push(line@);
                    assert(records(nd) == records(done).push(l@));
                    assert(records(nd).drop_last() == records(done));
                    assert(counts.view() =~= status_tally(nd));
                }
            },
            None => {
                proof {
                    let nd = done.push(line@);
                    assert(counts.view() =~= status_tally(nd));
                }
            },
        }
        proof {
            let nd = done.push(line@);
            assert forall|st: u16| status_count(records(nd), st) <= nd.len() by {
                assert(status_count(records(done), st) <= done.len());
                match parse_spec(line@) {
                    Some(r) => {
                        assert(records(nd) == records(done).push(r));
                        assert(records(nd).drop_last() == records(done));
                    },
                    None => {
                        assert(records(nd) == records(done));
                    },
                }
            }
            done = nd;
        }
        start = end;
    }
    proof {
        assert(lines_from(s, start as int) == Seq::<Seq<char>>::empty());
        assert(done + Seq::<Seq<char>>::empty() == done);
    }
    counts
}

/// The meaning of a status code.
pub open spec fn meaning(code: u16) -> Seq<char> {
    if code == 200 {
        "OK"@
    } else if code == 201 {
        "Created"@
    } else if code == 204 {
        "No Content"@
    } else if code == 301 {
        "Moved Permanently"@
    } else if code == 302 {
        "Found"@
    } else if code == 304 {
        "Not Modified"@
    } else if code == 400 {
        "Bad Request"@
    } else if code == 401 {
        "Unauthorized"@
    } else if code == 403 {
        "Forbidden"@
    } else if code == 404 {
        "Not Found"@
    } else if code == 405 {
        "Method Not Allowed"@
    } else if code == 429 {
        "Too Many Requests"@
    } else if code == 500 {
        "Internal Server Error"@
    } else if code == 502 {
        "Bad Gateway"@
    } else if code == 503 {
        "Service Unavailable"@
    } else if code == 504 {
        "Gateway Timeout"@
    } else {
        "Unknown"@
    }
}

/// The meaning of each code the table knows is its standard reason phrase,
/// and every other code is "Unknown".
pub proof fn lemma_reason_phrases()
    ensures
        meaning(200) == "OK"@,
        meaning(201) == "Created"@,
        meaning(204) == "No Content"@,
        meaning(301) == "Moved Permanently"@,
        meaning(302) == "Found"@,
        meaning(304) == "Not Modified"@,
        meaning(400) == "Bad Request"@,
        meaning(401) == "Unauthorized"@,
        meaning(403) == "Forbidden"@,
        meaning(404) == "Not Found"@,
        meaning(405) == "Method Not Allowed"@,
        meaning(429) == "Too Many Requests"@,
        meaning(500) == "Internal Server Error"@,
        meaning(502) == "Bad Gateway"@,
        meaning(503) == "Service Unavailable"@,
        meaning(504) == "Gateway Timeout"@,
        forall|code: u16| !(code == 200 || code == 201 || code == 204 || code == 301 || code == 302 || code == 304 || code == 400 || code == 401 || code == 403 || code == 404 || code == 405 || code == 429 || code == 500 || code == 502 || code == 503 || code == 504) ==> #[trigger] meaning(code) == "Unknown"@,
{
}

/// The human-readable meaning of an HTTP status code.
pub fn status_meaning(code: u16) -> (m: &'static str)
    ensures
        m@ == meaning(code),
        code == 200 ==> m@ == "OK"@,
        code == 201 ==> m@ == "Created"@,
        code == 204 ==> m@ == "No Content"@,
        code == 301 ==> m@ == "Moved Permanently"@,
        code == 302 ==> m@ == "Found"@,
        code == 304 ==> m@ == "Not Modified"@,
        code == 400 ==> m@ == "Bad Request"@,
        code == 401 ==> m@ == "Unauthorized"@,
        code == 403 ==> m@ == "Forbidden"@,
        code == 404 ==> m@ == "Not Found"@,
        code == 405 ==> m@ == "Method Not Allowed"@,
        code == 429 ==> m@ == "Too Many Requests"@,
        code == 500 ==> m@ == "Internal Server Error"@,
        code == 502 ==> m@ == "Bad Gateway"@,
        code == 503 ==> m@ == "Service Unavailable"@,
        code == 504 ==> m@ == "Gateway Timeout"@,
        !(code == 200 || code == 201 || code == 204 || code == 301 || code == 302 || code == 304 || code == 400 || code == 401 || code == 403 || code == 404 || code == 405 || code == 429 || code == 500 || code == 502 || code == 503 || code == 504) ==> m@ == "Unknown"@,
{
    match code {
        200 => "OK",
        201 => "Created",
        204 => "No Content",
        301 => "Moved Permanently",
        302 => "Found",
        304 => "Not Modified",
        400 => "Bad Request",
        401 => "Unauthorized",
        403 => "Forbidden",
        404 => "Not Found",
        405 => "Method Not Allowed",
        429 => "Too Many Requests",
        500 => "Internal Server Error",
        502 => "Bad Gateway",
        503 => "Service Unavailable",
        504 => "Gateway Timeout",
        _ => "Unknown",
    }
}

/// The header line of the status table.
pub open spec fn table_header_spec() -> Seq<char> {
    pad_right("INDEX"@, 5) + " "@ + pad_right("STATUS"@, 6) + " "@ + pad_right("COUNT"@, 6) + " "@
        + pad_right("MEANING"@, 20)
}

/// One row of the status table: the 1-based rank, the code, its count and its
/// meaning.
pub open spec fn table_row_spec(rank: nat, code: u16, count: nat) -> Seq<char> {
    pad_right(decimal(rank), 5) + " "@ + pad_right(decimal(code as nat), 6) + " "@ + pad_right(
        decimal(count),
        6,
    ) + " "@ + pad_right(meaning(code), 20)
}

pub fn table_header() -> (h: String)
    ensures
        h@ == table_header_spec(),
{
    let mut h = padded_right("INDEX", 5);
    append(&mut h, " ");
    append(&mut h, padded_right("STATUS", 6).as_str());
    append(&mut h, " ");
    append(&mut h, padded_right("COUNT", 6).as_str());
    append(&mut h, " ");
    append(&mut h, padded_right("MEANING", 20).as_str());
    h
}

pub fn table_row(rank: u64, code: u16, count: u64) -> (row: String)
    ensures
        row@ == table_row_spec(rank as nat, code, count as nat),
{
    let mut row = padded_right(decimal_string(rank).as_str(), 5);
    append(&mut row, " ");
    append(&mut row, padded_right(decimal_string(code as u64).as_str(), 6).as_str());
    append(&mut row, " ");
    append(&mut row, padded_right(decimal_string(count).as_str(), 6).as_str());
    append(&mut row, " ");
    append(&mut row, padded_right(status_meaning(code), 20).as_str());
    row
}

/// The lines of the status table: a header, then one row per code that
/// occurred, in increasing order of code, ranked from 1.
pub fn output_table(counts: &StatusCounts) -> (out: Vec<String>)
    requires
        counts.wf(),
    ensures
        out.len() == codes_below(counts.view(), CODES as nat).len() + 1,
        out[0]@ == table_header_spec(),
        forall|i: int| #![trigger out[i]]
            1 <= i < out.len() ==> {
                let st = codes_below(counts.view(), CODES as nat)[i - 1];
                out[i]@ == table_row_spec(i as nat, st, counts.view()[st])
            },
{
    let ps = counts.pairs();
    let mut out: Vec<String> = Vec::new();
    out.push(table_header());
    let mut i: usize = 0;
    while i < ps.len()
        invariant
            i <= ps.len(),
            out.len() == i + 1,
            out[0]@ == table_header_spec(),
            ps.len() == codes_below(counts.view(), CODES as nat).len(),
            forall|k: int|
                0 <= k < ps.len() ==> #[trigger] ps[k].0 == codes_below(counts.view(), CODES as nat)[k]
                    && counts.view()[ps[k].0] == ps[k].1,
            forall|k: int| #![trigger out[k]]
                1 <= k < out.len() ==> {
                    let st = codes_below(counts.view(), CODES as nat)[k - 1];
                    out[k]@ == table_row_spec(k as nat, st, counts.view()[st])
                },
        decreases ps.len() - i,
    {
        let (st, c) = ps[i];
        assert(ps[i as int].0 == st);
        out.push(table_row((i + 1) as u64, st, c as u64));
        i += 1;
    }
    out
}

/// One member of the JSON object: the code as a key and its count, with a
/// comma unless it is the last member.
pub open spec fn json_member(code: u16, count: nat, last: bool) -> Seq<char> {
    "  \""@ + decimal(code as nat) + "\": "@ + decimal(count) + if last {
        Seq::<char>::empty()
    } else {
        seq![',']
    }
}

fn json_member_exec(code: u16, count: usize, last: bool) -> (s: String)
    ensures
        s@ == json_member(code, count as nat, last),
{
    let mut s = "  \"".to_owned();
    append(&mut s, decimal_string(code as u64).as_str());
    append(&mut s, "\": ");
    append(&mut s, decimal_string(count as u64).as_str());
    if !last {
        append(&mut s, ",");
        proof {
            reveal_strlit(",");
        }
    }
    s
}

/// The status counts as a pretty-printed JSON object, line by line: each
/// code that occurred, in increasing order, as a key mapped to its count
/// (`{}` when no line parsed).
pub fn output_json(counts: &StatusCounts) -> (out: Vec<String>)
    requires
        counts.wf(),
    ensures
        codes_below(counts.view(), CODES as nat).len() == 0 ==> out.len() == 1 && out[0]@ == "{}"@,
        codes_below(counts.view(), CODES as nat).len() > 0 ==> {
            let codes = codes_below(counts.view(), CODES as nat);
            &&& out.len() == codes.len() + 2
            &&& out[0]@ == "{"@
            &&& out[out.len() - 1]@ == "}"@
            &&& forall|i: int| #![trigger out[i]]
                1 <= i <= codes.len() ==> out[i]@ == json_member(
                    codes[i - 1],
                    counts.view()[codes[i - 1]],
                    i == codes.len(),
                )
        },
{
    let ps = counts.pairs();
    let mut out: Vec<String> = Vec::new();
    if ps.len() == 0 {
        out.push("{}".to_owned());
        return out;
    }
    out.push("{".to_owned());
    let mut i: usize = 0;
    while i < ps.len()
        invariant
            i <= ps.len(),
            out.len() == i + 1,
            out[0]@ == "{"@,
            ps.len() == codes_below(counts.view(), CODES as nat).len(),
            forall|k: int|
                0 <= k < ps.len() ==> #[trigger] ps[k].0 == codes_below(counts.view(), CODES as nat)[k]
                    && counts.view()[ps[k].0] == ps[k].1,
            forall|k: int| #![trigger out[k]]
                1 <= k < out.len() ==> {
                    let st = codes_below(counts.view(), CODES as nat)[k - 1];
                    out[k]@ == json_member(st, counts.view()[st], k == ps.len())
                },
        decreases ps.len() - i,
    {
        let (st, c) = ps[i];
        assert(ps[i as int].0 == st);
        out.push(json_member_exec(st, c, i + 1 == ps.len()));
        i += 1;
    }
    out.push("}".to_owned());
    out
}

} // verus!
