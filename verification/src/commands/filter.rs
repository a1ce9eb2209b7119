//! The requests that carry a given status code.
use crate::commands::{LogPattern, 
    lemma_line_end, lemma_records_push, line_end_exec, lines_from, lines_of, parse_chars,
    parse_line, parse_spec, records, sub_vec, LogLine, LogRecord,
};
use crate::text::{append, decimal, decimal_string, pad_right, padded_right};
use vstd::prelude::*;

verus! {

/// One request selected by the filter.
#[derive(PartialEq, Eq, Debug)]
pub struct FilterEntry {
    pub ip: String,
    pub path: String,
    pub size: u64,
}

/// The mathematical content of a [`FilterEntry`].
pub struct EntryRecord {
    pub ip: Seq<char>,
    pub path: Seq<char>,
    pub size: u64,
}

impl View for FilterEntry {
    type V = EntryRecord;

    open spec fn view(&self) -> EntryRecord {
        EntryRecord { ip: self.ip@, path: self.path@, size: self.size }
    }
}

/// The entry that a record contributes.
pub open spec fn entry_of(r: LogRecord) -> EntryRecord {
    EntryRecord { ip: r.ip, path: r.path, size: r.size }
}

/// The entries of the records with status `st`, in order.
pub open spec fn matching(recs: Seq<LogRecord>, st: u16) -> Seq<EntryRecord>
    decreases recs.len(),
{
    if recs.len() == 0 {
        seq![]
    } else if recs.last().status == st {
        matching(recs.drop_last(), st).push(entry_of(recs.last()))
    } else {
        matching(recs.drop_last(), st)
    }
}

/// What the filter selects from a list of lines.
pub open spec fn filter_spec(lines: Seq<Seq<char>>, st: u16) -> Seq<EntryRecord> {
    matching(records(lines), st)
}

fn entry_from(l: LogLine) -> (e: FilterEntry)
    ensures
        e@ == entry_of(l@),
{
    FilterEntry { ip: l.ip, path: l.path, size: l.size }
}

/// The entry of one line, when the line parses and carries status `status`.
pub fn matching_entry(line: &str, re: &LogPattern, status: u16) -> (r: Option<FilterEntry>)
    requires
        re.wf(),
    ensures
        r is Some <==> (parse_spec(line@) matches Some(rec) && rec.status == status),
        r matches Some(e) ==> parse_spec(line@) matches Some(rec) && e.ip@ == rec.ip
            && e.path@ == rec.path && e.size == rec.size,
        match parse_spec(line@) {
            Some(rec) => if rec.status == status {
                r is Some && r->0@ == entry_of(rec)
            } else {
                r is None
            },
            None => r is None,
        },
{
    match parse_line(line, re) {
        Some(l) => if l.status == status {
            Some(entry_from(l))
        } else {
            None
        },
        None => None,
    }
}

/// The entries of the lines of `input` that parse and carry status `status`,
/// in the order of the lines.
pub fn compute(input: &str, re: &LogPattern, status: u16) -> (r: Vec<FilterEntry>)
    requires
        re.wf(),
    ensures
        r.len() == records(lines_of(input@)).filter(|x: LogRecord| x.status == status).len(),
        forall|i: int| #![trigger r[i]]
            0 <= i < r.len() ==> {
                let rec = records(lines_of(input@)).filter(|x: LogRecord| x.status == status)[i];
                &&& r[i].ip@ == rec.ip
                &&& r[i].path@ == rec.path
                &&& r[i].size == rec.size
            },
        r.len() == filter_spec(lines_of(input@), status).len(),
        forall|i: int|
            0 <= i < r.len() ==> #[trigger] r[i]@ == filter_spec(lines_of(input@), status)[i],
{
    let v = crate::text::chars_of(input);
    let ghost s = v@;
    let mut out: Vec<FilterEntry> = Vec::new();
    let mut start: usize = 0;
    let ghost mut done: Seq<Seq<char>> = seq![];
    while start < v.len()
        invariant
            re.wf(),
            s == v@,
            s == input@,
            start <= v.len(),
            lines_of(s) == done + lines_from(s, start as int),
            out.len() == filter_spec(done, status).len(),
            forall|i: int| 0 <= i < out.len() ==> #[trigger] out[i]@ == filter_spec(done, status)[i],
        decreases v.len() - start,
    {
        let end = line_end_exec(&v, start);
        let line = sub_vec(&v, start, end);
        let ghost nd = done.push(line@);
        proof {
            lemma_line_end(s, start as int);
            lemma_records_push(done, line@);
            assert(lines_from(s, start as int) == seq![line@] + lines_from(s, end as int));
            assert(done + lines_from(s, start as int) == nd + lines_from(s, end as int));
        }
        match parse_chars(&line, re) {
            Some(l) => {
                proof {
                    assert(records(nd) == records(done).push(l@));
                    assert(records(nd).drop_last() == records(done));
                }
                if l.status == status {
                    out.push(entry_from(l));
                }
            },
            None => {
                assert(records(nd) == records(done));
            },
        }
        proof {
            done = nd;
        }
        start = end;
    }
    proof {
        assert(lines_from(s, start as int) == Seq::<Seq<char>>::empty());
        assert(done + Seq::<Seq<char>>::empty() == done);
        lemma_filter_entries(done, status);
        assert forall|i: int| 0 <= i < out.len() implies #[trigger] out[i].ip@ == filter_spec(done, status)[i].ip
            && out[i].path@ == filter_spec(done, status)[i].path
            && out[i].size == filter_spec(done, status)[i].size by {
            assert(out[i]@ == filter_spec(done, status)[i]);
        }
    }
    out
}

/// The header line of the filter table.
pub open spec fn table_header_spec() -> Seq<char> {
    pad_right("IP"@, 20) + pad_right("PATH"@, 30) + pad_right("SIZE"@, 5)
}

/// One row of the filter table.
pub open spec fn table_row_spec(e: EntryRecord) -> Seq<char> {
    pad_right(e.ip, 20) + pad_right(e.path, 30) + pad_right(decimal(e.size as nat), 5)
}

/// The filter selects, in order, the parsed requests whose status is `st`,
/// and each entry carries exactly that request's address, path and size.
pub proof fn lemma_filter_entries(lines: Seq<Seq<char>>, st: u16)
    ensures
        filter_spec(lines, st).len() == records(lines).filter(|x: LogRecord| x.status == st).len(),
        forall|i: int| #![trigger filter_spec(lines, st)[i]]
            0 <= i < filter_spec(lines, st).len() ==> {
                let rec = records(lines).filter(|x: LogRecord| x.status == st)[i];
                &&& filter_spec(lines, st)[i].ip == rec.ip
                &&& filter_spec(lines, st)[i].path == rec.path
                &&& filter_spec(lines, st)[i].size == rec.size
            },
{
    lemma_matching_filter(records(lines), st);
}

proof fn lemma_matching_filter(recs: Seq<LogRecord>, st: u16)
    ensures
        matching(recs, st).len() == recs.filter(|x: LogRecord| x.status == st).len(),
        forall|i: int| #![trigger matching(recs, st)[i]]
            0 <= i < matching(recs, st).len() ==> {
                let rec = recs.filter(|x: LogRecord| x.status == st)[i];
                &&& matching(recs, st)[i].ip == rec.ip
                &&& matching(recs, st)[i].path == rec.path
                &&& matching(recs, st)[i].size == rec.size
            },
    decreases recs.len(),
{
    reveal(Seq::filter);
    if recs.len() > 0 {
        lemma_matching_filter(recs.drop_last(), st);
    }
}

pub fn table_header() -> (h: String)
    ensures
        h@ == table_header_spec(),
{
    let mut h = padded_right("IP", 20);
    append(&mut h, padded_right("PATH", 30).as_str());
    append(&mut h, padded_right("SIZE", 5).as_str());
    h
}

pub fn table_row(e: &FilterEntry) -> (row: String)
    ensures
        row@ == table_row_spec(e@),
{
    let mut row = padded_right(e.ip.as_str(), 20);
    append(&mut row, padded_right(e.path.as_str(), 30).as_str());
    append(&mut row, padded_right(decimal_string(e.size).as_str(), 5).as_str());
    row
}

} // verus!
