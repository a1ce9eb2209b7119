//! Overall traffic statistics: requests per status class, distinct client
//! addresses, bytes served and lines that did not parse.
use crate::commands::{LogPattern, 
    lemma_line_end, lemma_records_push, line_end_exec, lines_from,
    lines_of, parse_chars, parse_spec, records, sub_vec, LogLine, LogRecord,
};
use crate::ipkey::{ip_key_of, ip_shaped, is_ip_shaped, key_u64, lemma_ip_key_order};
use crate::text::{append, decimal, decimal_string, pad_left, pad_right, padded_left, padded_right};
use std::collections::HashSet;
use vstd::prelude::*;

verus! {

broadcast use vstd::std_specs::hash::group_hash_axioms;

/// The classes into which status codes are grouped.
#[derive(PartialEq, Eq, Structural, Clone, Copy, Debug)]
pub enum StatusClass {
    Success,
    Redirection,
    ClientError,
    ServerError,
    Unknown,
}

/// `2xx`, `3xx`, `4xx`, `5xx`, and every other code.
pub open spec fn class_of(st: u16) -> StatusClass {
    if 200 <= st <= 299 {
        StatusClass::Success
    } else if 300 <= st <= 399 {
        StatusClass::Redirection
    } else if 400 <= st <= 499 {
        StatusClass::ClientError
    } else if 500 <= st <= 599 {
        StatusClass::ServerError
    } else {
        StatusClass::Unknown
    }
}

pub fn class_of_status(st: u16) -> (c: StatusClass)
    ensures
        c == class_of(st),
        200 <= st <= 299 <==> c == StatusClass::Success,
        300 <= st <= 399 <==> c == StatusClass::Redirection,
        400 <= st <= 499 <==> c == StatusClass::ClientError,
        500 <= st <= 599 <==> c == StatusClass::ServerError,
        st < 200 || st > 599 <==> c == StatusClass::Unknown,
{
    if 200 <= st && st <= 299 {
        StatusClass::Success
    } else if 300 <= st && st <= 399 {
        StatusClass::Redirection
    } else if 400 <= st && st <= 499 {
        StatusClass::ClientError
    } else if 500 <= st && st <= 599 {
        StatusClass::ServerError
    } else {
        StatusClass::Unknown
    }
}

/// The label of a class.
pub open spec fn label(c: StatusClass) -> Seq<char> {
    match c {
        StatusClass::Success => "2xx"@,
        StatusClass::Redirection => "3xx"@,
        StatusClass::ClientError => "4xx"@,
        StatusClass::ServerError => "5xx"@,
        StatusClass::Unknown => "unknown"@,
    }
}

pub fn class_label(c: StatusClass) -> (s: &'static str)
    ensures
        s@ == label(c),
{
    match c {
        StatusClass::Success => "2xx",
        StatusClass::Redirection => "3xx",
        StatusClass::ClientError => "4xx",
        StatusClass::ServerError => "5xx",
        StatusClass::Unknown => "unknown",
    }
}

/// How many of `recs` fall in class `c`.
pub open spec fn class_count(recs: Seq<LogRecord>, c: StatusClass) -> nat
    decreases recs.len(),
{
    if recs.len() == 0 {
        0
    } else {
        class_count(recs.drop_last(), c) + if class_of(recs.last().status) == c {
            1nat
        } else {
            0nat
        }
    }
}

/// The bytes of all of `recs`.
pub open spec fn total_bytes(recs: Seq<LogRecord>) -> nat
    decreases recs.len(),
{
    if recs.len() == 0 {
        0
    } else {
        total_bytes(recs.drop_last()) + recs.last().size as nat
    }
}

/// The distinct client addresses of `recs`.
pub open spec fn ip_set(recs: Seq<LogRecord>) -> Set<Seq<char>>
    decreases recs.len(),
{
    if recs.len() == 0 {
        Set::empty()
    } else {
        ip_set(recs.drop_last()).insert(recs.last().ip)
    }
}

/// The running statistics of a log.
pub struct Stats {
    ips: HashSet<u64>,
    shaped: Ghost<Set<Seq<char>>>,
    others: Vec<String>,
    success: usize,
    redirection: usize,
    client_error: usize,
    server_error: usize,
    unknown: usize,
    ignored: usize,
    total_size: u64,
}

impl Stats {
    /// The addresses kept in the list beside the key table.
    pub closed spec fn others_view(&self) -> Seq<Seq<char>> {
        self.others@.map_values(|ip: String| ip@)
    }

    /// Addresses in ASCII digits are held in the table by their keys; the
    /// others, each once, in a list.
    pub closed spec fn wf(&self) -> bool {
        &&& self.shaped@.finite()
        &&& forall|ip: Seq<char>| #[trigger] self.shaped@.contains(ip) ==> ip_shaped(ip)
        &&& self.ips@ == self.shaped@.map(|ip: Seq<char>| key_u64(ip))
        &&& self.others_view().no_duplicates()
        &&& forall|i: int| 0 <= i < self.others_view().len() ==> !ip_shaped(#[trigger] self.others_view()[i])
        &&& self.shaped@.len() + self.others@.len() <= self.requests()
        &&& self.line_count() <= usize::MAX
    }

    /// Requests counted in class `c`.
    pub closed spec fn requests_of(&self, c: StatusClass) -> nat {
        match c {
            StatusClass::Success => self.success as nat,
            StatusClass::Redirection => self.redirection as nat,
            StatusClass::ClientError => self.client_error as nat,
            StatusClass::ServerError => self.server_error as nat,
            StatusClass::Unknown => self.unknown as nat,
        }
    }

    /// All requests counted.
    pub open spec fn requests(&self) -> nat {
        self.requests_of(StatusClass::Success) + self.requests_of(StatusClass::Redirection)
            + self.requests_of(StatusClass::ClientError) + self.requests_of(
            StatusClass::ServerError,
        ) + self.requests_of(StatusClass::Unknown)
    }

    /// The distinct client addresses seen.
    pub closed spec fn unique_ips(&self) -> Set<Seq<char>> {
        self.shaped@ + self.others_view().to_set()
    }

    /// Lines that did not parse.
    pub closed spec fn ignored(&self) -> nat {
        self.ignored as nat
    }

    /// Bytes of all requests.
    pub closed spec fn total_size(&self) -> nat {
        self.total_size as nat
    }

    /// Lines seen, parsed or not.
    pub open spec fn line_count(&self) -> nat {
        self.requests() + self.ignored()
    }

    /// The statistics are those of `lines`.
    pub open spec fn describes(&self, lines: Seq<Seq<char>>) -> bool {
        &&& forall|c: StatusClass| #[trigger]
            self.requests_of(c) == class_count(records(lines), c)
        &&& self.unique_ips() == ip_set(records(lines))
        &&& self.ignored() == lines.len() - records(lines).len()
        &&& self.total_size() == total_bytes(records(lines))
    }

    /// Nothing seen yet.
    pub fn new() -> (s: Self)
        ensures
            s.wf(),
            s.describes(seq![]),
    {
        let s = Stats {
            ips: HashSet::new(),
            shaped: Ghost(Set::empty()),
            others: Vec::new(),
            success: 0,
            redirection: 0,
            client_error: 0,
            server_error: 0,
            unknown: 0,
            ignored: 0,
            total_size: 0,
        };
        assert(s.ips@ =~= s.shaped@.map(|ip: Seq<char>| key_u64(ip)));
        assert(s.others_view() =~= Seq::<Seq<char>>::empty());
        assert(s.unique_ips() =~= Set::<Seq<char>>::empty());
        s
    }

    /// Takes one more line into account, given what it parsed to.
    pub fn add(&mut self, parsed: &Option<LogLine>)
        requires
            old(self).wf(),
            old(self).line_count() < usize::MAX,
            parsed matches Some(l) ==> old(self).total_size() + l.size <= u64::MAX,
        ensures
            final(self).wf(),
            match parsed {
                Some(l) => {
                    &&& forall|c: StatusClass| #[trigger]
                        final(self).requests_of(c) == old(self).requests_of(c) + if class_of(
                            l.status,
                        ) == c {
                            1nat
                        } else {
                            0nat
                        }
                    &&& final(self).unique_ips() == old(self).unique_ips().insert(l.ip@)
                    &&& final(self).ignored() == old(self).ignored()
                    &&& final(self).total_size() == old(self).total_size() + l.size
                },
                None => {
                    &&& forall|c: StatusClass| #[trigger]
                        final(self).requests_of(c) == old(self).requests_of(c)
                    &&& final(self).unique_ips() == old(self).unique_ips()
                    &&& final(self).ignored() == old(self).ignored() + 1
                    &&& final(self).total_size() == old(self).total_size()
                },
            },
    {
        match parsed {
            Some(l) => {
                match class_of_status(l.status) {
                    StatusClass::Success => self.success = self.success + 1,
                    StatusClass::Redirection => self.redirection = self.redirection + 1,
                    StatusClass::ClientError => self.client_error = self.client_error + 1,
                    StatusClass::ServerError => self.server_error = self.server_error + 1,
                    StatusClass::Unknown => self.unknown = self.unknown + 1,
                }
                self.total_size = self.total_size + l.size;
                let ghost before = *self;
                if is_ip_shaped(l.ip.as_str()) {
                    self.add_shaped(&l.ip);
                    proof {
                        assert(self.unique_ips() =~= before.unique_ips().insert(l.ip@));
                    }
                } else {
                    self.add_other(&l.ip);
                    proof {
                        assert(self.unique_ips() =~= before.unique_ips().insert(l.ip@));
                    }
                }
            },
            None => {
                self.ignored = self.ignored + 1;
            },
        }
    }

    /// Notes an address in ASCII digits, by its key.
    fn add_shaped(&mut self, ip: &String)
        requires
            ip_shaped(ip@),
            old(self).shaped@.finite(),
            forall|x: Seq<char>| #[trigger] old(self).shaped@.contains(x) ==> ip_shaped(x),
            old(self).ips@ == old(self).shaped@.map(|x: Seq<char>| key_u64(x)),
        ensures
            final(self).shaped@ == old(self).shaped@.insert(ip@),
            final(self).shaped@.finite(),
            forall|x: Seq<char>| #[trigger] final(self).shaped@.contains(x) ==> ip_shaped(x),
            final(self).ips@ == final(self).shaped@.map(|x: Seq<char>| key_u64(x)),
            final(self).others == old(self).others,
            final(self).success == old(self).success,
            final(self).redirection == old(self).redirection,
            final(self).client_error == old(self).client_error,
            final(self).server_error == old(self).server_error,
            final(self).unknown == old(self).unknown,
            final(self).ignored == old(self).ignored,
            final(self).total_size == old(self).total_size,
    {
        let k = ip_key_of(ip.as_str());
        self.ips.insert(k);
        let ghost old_seen = self.shaped@;
        self.shaped = Ghost(old_seen.insert(ip@));
        proof {
            let f = |x: Seq<char>| key_u64(x);
            assert(self.ips@ =~= self.shaped@.map(f)) by {
                assert(f(ip@) == k);
                assert forall|x: u64| self.ips@.contains(x) implies #[trigger] self.shaped@.map(
                    f,
                ).contains(x) by {
                    if x != k {
                        assert(old(self).ips@.contains(x));
                        assert(old_seen.map(f).contains(x));
                        let w = choose|w: Seq<char>| old_seen.contains(w) && f(w) == x;
                        assert(self.shaped@.contains(w));
                    } else {
                        assert(self.shaped@.contains(ip@));
                    }
                }
                assert forall|x: u64| #[trigger] self.shaped@.map(f).contains(x) implies self.ips@.contains(
                    x,
                ) by {
                    let w = choose|w: Seq<char>| self.shaped@.contains(w) && f(w) == x;
                    if w != ip@ {
                        assert(old_seen.contains(w));
                        assert(old_seen.map(f).contains(x));
                    }
                }
            }
        }
    }

    /// Notes an address in other digits, in the list.
    fn add_other(&mut self, ip: &String)
        requires
            !ip_shaped(ip@),
            old(self).others_view().no_duplicates(),
            forall|i: int| 0 <= i < old(self).others_view().len() ==> !ip_shaped(#[trigger] old(self).others_view()[i]),
        ensures
            final(self).others_view().no_duplicates(),
            forall|i: int| 0 <= i < final(self).others_view().len() ==> !ip_shaped(#[trigger] final(self).others_view()[i]),
            final(self).others_view().to_set() == old(self).others_view().to_set().insert(ip@),
            final(self).others@.len() <= old(self).others@.len() + 1,
            final(self).others@.len() == old(self).others@.len() + 1 ==> !old(self).others_view().contains(ip@),
            final(self).shaped == old(self).shaped,
            final(self).ips == old(self).ips,
            final(self).success == old(self).success,
            final(self).redirection == old(self).redirection,
            final(self).client_error == old(self).client_error,
            final(self).server_error == old(self).server_error,
            final(self).unknown == old(self).unknown,
            final(self).ignored == old(self).ignored,
            final(self).total_size == old(self).total_size,
    {
        let ghost ov = self.others_view();
        let mut j: usize = 0;
        while j < self.others.len() && !(self.others[j] == *ip)
            invariant
                j <= self.others@.len(),
                ov == self.others_view(),
                forall|k: int| 0 <= k < j ==> ov[k] != ip@,
            decreases self.others.len() - j,
        {
            j += 1;
        }
        if j < self.others.len() {
            assert(ov[j as int] == ip@);
            assert(ov.to_set().insert(ip@) =~= ov.to_set());
        } else {
            self.others.push(ip.clone());
            proof {
                assert(self.others_view() =~= ov.push(ip@));
                assert(!ov.contains(ip@));
                let nv = self.others_view();
                assert forall|y: Seq<char>| #[trigger] nv.to_set().contains(y) <==> ov.to_set().insert(ip@).contains(y) by {
                    if nv.contains(y) {
                        let i = choose|i: int| 0 <= i < nv.len() && nv[i] == y;
                        if i < ov.len() {
                            assert(ov[i] == y);
                        }
                    }
                    if ov.contains(y) {
                        let i = choose|i: int| 0 <= i < ov.len() && ov[i] == y;
                        assert(nv[i] == y);
                    }
                    if y == ip@ {
                        assert(nv[ov.len() as int] == y);
                    }
                }
                assert(nv.to_set() =~= ov.to_set().insert(ip@));
            }
        }
    }

    /// All requests counted (the lines that parsed).
    pub fn total_requests(&self) -> (n: usize)
        requires
            self.wf(),
        ensures
            n == self.requests(),
    {
        self.success + self.redirection + self.client_error + self.server_error + self.unknown
    }

    /// Requests counted in class `c`.
    pub fn class_requests(&self, c: StatusClass) -> (n: usize)
        ensures
            n == self.requests_of(c),
    {
        match c {
            StatusClass::Success => self.success,
            StatusClass::Redirection => self.redirection,
            StatusClass::ClientError => self.client_error,
            StatusClass::ServerError => self.server_error,
            StatusClass::Unknown => self.unknown,
        }
    }

    /// Number of distinct client addresses.
    pub fn unique_ip_count(&self) -> (n: usize)
        requires
            self.wf(),
        ensures
            n == self.unique_ips().len(),
    {
        proof {
            let f = |ip: Seq<char>| key_u64(ip);
            assert(vstd::relations::injective_on(f, self.shaped@)) by {
                assert forall|a: Seq<char>, b: Seq<char>|
                    self.shaped@.contains(a) && self.shaped@.contains(b) && #[trigger] f(a) == #[trigger] f(
                        b,
                    ) implies a == b by {
                    lemma_ip_key_order(a, b);
                    crate::ipkey::lemma_key_u64(a);
                    crate::ipkey::lemma_key_u64(b);
                }
            }
            vstd::set_lib::lemma_map_size(self.shaped@, self.ips@, f);
            let ov = self.others_view();
            ov.unique_seq_to_set();
            assert(self.shaped@.disjoint(ov.to_set())) by {
                assert forall|x: Seq<char>| self.shaped@.contains(x) implies !ov.to_set().contains(x) by {
                    if ov.contains(x) {
                        let i = choose|i: int| 0 <= i < ov.len() && ov[i] == x;
                        assert(!ip_shaped(ov[i]));
                    }
                }
            }
            vstd::set_lib::lemma_set_disjoint_lens(self.shaped@, ov.to_set());
        }
        self.ips.len() + self.others.len()
    }

    /// Lines that did not parse.
    pub fn ignored_lines(&self) -> (n: usize)
        ensures
            n == self.ignored(),
    {
        self.ignored
    }

    /// Bytes of all requests.
    pub fn total_bytes(&self) -> (n: u64)
        ensures
            n == self.total_size(),
    {
        self.total_size
    }

    /// Lines seen, parsed or not.
    pub fn lines_seen(&self) -> (n: usize)
        requires
            self.wf(),
        ensures
            n == self.line_count(),
    {
        self.total_requests() + self.ignored
    }
}

/// Counting the records of class `c` is counting those that `p` selects,
/// when `p` selects exactly the records whose status falls in `c`.
proof fn lemma_class_count_filter(recs: Seq<LogRecord>, c: StatusClass, p: spec_fn(LogRecord) -> bool)
    requires
        forall|r: LogRecord| #[trigger] p(r) <==> class_of(r.status) == c,
    ensures
        class_count(recs, c) == recs.filter(p).len(),
    decreases recs.len(),
{
    reveal(Seq::filter);
    if recs.len() > 0 {
        lemma_class_count_filter(recs.drop_last(), c, p);
    }
}

/// The summary's class counts are the numbers of parsed requests whose
/// status lies in `200..=299`, `300..=399`, `400..=499` and `500..=599`,
/// and, for the unknown class, outside `200..=599`.
pub proof fn lemma_classes_by_status_range(lines: Seq<Seq<char>>, s: Stats)
    requires
        s.describes(lines),
    ensures
        s.requests_of(StatusClass::Success) == records(lines).filter(
            |r: LogRecord| 200 <= r.status <= 299,
        ).len(),
        s.requests_of(StatusClass::Redirection) == records(lines).filter(
            |r: LogRecord| 300 <= r.status <= 399,
        ).len(),
        s.requests_of(StatusClass::ClientError) == records(lines).filter(
            |r: LogRecord| 400 <= r.status <= 499,
        ).len(),
        s.requests_of(StatusClass::ServerError) == records(lines).filter(
            |r: LogRecord| 500 <= r.status <= 599,
        ).len(),
        s.requests_of(StatusClass::Unknown) == records(lines).filter(
            |r: LogRecord| r.status < 200 || r.status > 599,
        ).len(),
{
    let recs = records(lines);
    lemma_class_count_filter(recs, StatusClass::Success, |r: LogRecord| 200 <= r.status <= 299);
    lemma_class_count_filter(recs, StatusClass::Redirection, |r: LogRecord| 300 <= r.status <= 399);
    lemma_class_count_filter(recs, StatusClass::ClientError, |r: LogRecord| 400 <= r.status <= 499);
    lemma_class_count_filter(recs, StatusClass::ServerError, |r: LogRecord| 500 <= r.status <= 599);
    lemma_class_count_filter(
        recs,
        StatusClass::Unknown,
        |r: LogRecord| r.status < 200 || r.status > 599,
    );
}

/// Every record falls in exactly one class.
pub proof fn lemma_class_count_sum(recs: Seq<LogRecord>)
    ensures
        class_count(recs, StatusClass::Success) + class_count(recs, StatusClass::Redirection)
            + class_count(recs, StatusClass::ClientError) + class_count(recs, StatusClass::ServerError)
            + class_count(recs, StatusClass::Unknown) == recs.len(),
    decreases recs.len(),
{
    if recs.len() > 0 {
        lemma_class_count_sum(recs.drop_last());
    }
}

/// Reading more lines never lowers the byte total.
pub proof fn lemma_total_bytes_prefix(a: Seq<Seq<char>>, b: Seq<Seq<char>>)
    ensures
        total_bytes(records(a)) <= total_bytes(records(a + b)),
    decreases b.len(),
{
    if b.len() > 0 {
        lemma_total_bytes_prefix(a, b.drop_last());
        assert((a + b).drop_last() == a + b.drop_last());
        let prev = records(a + b.drop_last());
        match parse_spec((a + b).last()) {
            Some(r) => {
                assert(records(a + b) == prev.push(r));
                assert(records(a + b).drop_last() == prev);
            },
            None => {},
        }
    }
}

/// Feeding the statistics of some lines what one more line parses to, as
/// `Stats::add` does, gives the statistics of those lines and that one.
pub proof fn lemma_describes_push(a: Stats, b: Stats, done: Seq<Seq<char>>, line: Seq<char>)
    requires
        a.describes(done),
        match parse_spec(line) {
            Some(l) => {
                &&& forall|c: StatusClass| #[trigger]
                    b.requests_of(c) == a.requests_of(c) + if class_of(l.status) == c {
                        1nat
                    } else {
                        0nat
                    }
                &&& b.unique_ips() == a.unique_ips().insert(l.ip)
                &&& b.ignored() == a.ignored()
                &&& b.total_size() == a.total_size() + l.size
            },
            None => {
                &&& forall|c: StatusClass| #[trigger] b.requests_of(c) == a.requests_of(c)
                &&& b.unique_ips() == a.unique_ips()
                &&& b.ignored() == a.ignored() + 1
                &&& b.total_size() == a.total_size()
            },
        },
    ensures
        b.describes(done.push(line)),
{
    let nd = done.push(line);
    lemma_records_push(done, line);
    match parse_spec(line) {
        Some(r) => {
            assert(records(nd) == records(done).push(r));
            assert(records(nd).drop_last() == records(done));
            assert forall|c: StatusClass| #[trigger]
                b.requests_of(c) == class_count(records(nd), c) by {}
        },
        None => {
            assert(records(nd) == records(done));
        },
    }
}

/// The statistics of the lines of `input`, or `None` when the byte total
/// does not fit in a `u64`.
#[verifier::rlimit(60)]
pub fn try_compute(input: &str, re: &LogPattern) -> (r: Option<Stats>)
    requires
        re.wf(),
    ensures
        r is None <==> total_bytes(records(lines_of(input@))) > u64::MAX,
        r matches Some(st) ==> st.wf() && st.describes(lines_of(input@)),
{
    let v = crate::text::chars_of(input);
    let ghost s = v@;
    let mut stats = Stats::new();
    let mut start: usize = 0;
    let ghost mut done: Seq<Seq<char>> = seq![];
    while start < v.len()
        invariant
            re.wf(),
            s == v@,
            s == input@,
            start <= v.len(),
            lines_of(s) == done + lines_from(s, start as int),
            done.len() <= start,
            stats.wf(),
            stats.describes(done),
            stats.line_count() == done.len(),
        decreases v.len() - start,
    {
        let end = line_end_exec(&v, start);
        let line = sub_vec(&v, start, end);
        let ghost nd = done.push(line@);
        proof {
            lemma_line_end(s, start as int);
            lemma_records_push(done, line@);
            assert(lines_from(s, start as int) == seq![line@] + lines_from(s, end as int));
            assert(done + lines_from(s, start as int) == nd + lines_from(s, end as int));
        }
        let parsed = parse_chars(&line, re);
        match &parsed {
            Some(l) => {
                if stats.total_bytes() > u64::MAX - l.size {
                    proof {
                        assert(records(nd) == records(done).push(l@));
                        assert(records(nd).drop_last() == records(done));
                        assert(total_bytes(records(nd)) == total_bytes(records(done)) + l.size);
                        lemma_total_bytes_prefix(nd, lines_from(s, end as int));
                        assert(lines_of(input@) == nd + lines_from(s, end as int));
                    }
                    return None;
                }
            },
            None => {},
        }
        let ghost before = stats;
        stats.add(&parsed);
        proof {
            lemma_describes_push(before, stats, done, line@);
            done = nd;
        }
        start = end;
    }
    proof {
        assert(lines_from(s, start as int) == Seq::<Seq<char>>::empty());
        assert(done + Seq::<Seq<char>>::empty() == done);
    }
    Some(stats)
}

/// The statistics of the lines of `input`.
pub fn compute(input: &str, re: &LogPattern) -> (r: Stats)
    requires
        re.wf(),
        total_bytes(records(lines_of(input@))) <= u64::MAX,
    ensures
        r.wf(),
        r.describes(lines_of(input@)),
{
    match try_compute(input, re) {
        Some(st) => st,
        None => Stats::new(),
    }
}

/// A label and a number, as the summary table prints them (`{:<20}{:>10}`).
pub open spec fn total_line(label: Seq<char>, n: nat) -> Seq<char> {
    pad_right(label, 20) + pad_left(decimal(n), 10)
}

fn total_line_exec(label: &str, n: u64) -> (s: String)
    ensures
        s@ == total_line(label@, n as nat),
{
    let mut s = padded_right(label, 20);
    append(&mut s, padded_left(decimal_string(n).as_str(), 10).as_str());
    s
}

/// The lines of the summary table up to the status breakdown: the request,
/// address, byte and ignored-line totals, and the breakdown's title.
pub fn table_lines(stats: &Stats) -> (out: Vec<String>)
    requires
        stats.wf(),
    ensures
        out.len() == 5,
        out[0]@ == total_line("Total requests:"@, stats.requests()),
        out[1]@ == total_line("Unique IPs:"@, stats.unique_ips().len()),
        out[2]@ == total_line("Total bytes:"@, stats.total_size()),
        out[3]@ == total_line("Ignored lines:"@, stats.ignored()),
        out[4]@ == "Status breakdown:"@,
{
    let mut out: Vec<String> = Vec::new();
    out.push(total_line_exec("Total requests:", stats.total_requests() as u64));
    out.push(total_line_exec("Unique IPs:", stats.unique_ip_count() as u64));
    out.push(total_line_exec("Total bytes:", stats.total_bytes()));
    out.push(total_line_exec("Ignored lines:", stats.ignored_lines() as u64));
    out.push("Status breakdown:".to_owned());
    out
}

/// The classes in the order the breakdown lists them.
pub open spec fn class_order() -> Seq<StatusClass> {
    seq![
        StatusClass::Success,
        StatusClass::Redirection,
        StatusClass::ClientError,
        StatusClass::ServerError,
        StatusClass::Unknown,
    ]
}

/// The classes among the first `k` of the breakdown order that have
/// requests, with their counts.
pub open spec fn breakdown_spec(stats: Stats, k: nat) -> Seq<(StatusClass, nat)>
    decreases k,
{
    if k == 0 || k > 5 {
        seq![]
    } else {
        let c = class_order()[k - 1];
        let prev = breakdown_spec(stats, (k - 1) as nat);
        if stats.requests_of(c) > 0 {
            prev.push((c, stats.requests_of(c)))
        } else {
            prev
        }
    }
}

/// The classes that have requests, in breakdown order, with their counts.
pub fn breakdown(stats: &Stats) -> (rows: Vec<(StatusClass, usize)>)
    ensures
        rows.len() == breakdown_spec(*stats, 5).len(),
        forall|i: int|
            0 <= i < rows.len() ==> #[trigger] rows[i].0 == breakdown_spec(*stats, 5)[i].0 && rows[i].1
                == breakdown_spec(*stats, 5)[i].1,
{
    let mut rows: Vec<(StatusClass, usize)> = Vec::new();
    let classes = [
        StatusClass::Success,
        StatusClass::Redirection,
        StatusClass::ClientError,
        StatusClass::ServerError,
        StatusClass::Unknown,
    ];
    assert(classes@ == class_order());
    let mut i: usize = 0;
    while i < 5
        invariant
            i <= 5,
            classes@ == class_order(),
            rows.len() == breakdown_spec(*stats, i as nat).len(),
            forall|j: int|
                0 <= j < rows.len() ==> #[trigger] rows[j].0 == breakdown_spec(*stats, i as nat)[j].0
                    && rows[j].1 == breakdown_spec(*stats, i as nat)[j].1,
        decreases 5 - i,
    {
        let c = classes[i];
        let n = stats.class_requests(c);
        if n > 0 {
            rows.push((c, n));
        }
        i += 1;
    }
    rows
}

/// The start of a breakdown row, up to where the percentage goes
/// (`  {:<8}{:>10} -- (`).
pub open spec fn breakdown_row_start_spec(c: StatusClass, n: nat) -> Seq<char> {
    "  "@ + pad_right(label(c), 8) + pad_left(decimal(n), 10) + " -- ("@
}

pub fn breakdown_row_start(c: StatusClass, n: usize) -> (s: String)
    ensures
        s@ == breakdown_row_start_spec(c, n as nat),
{
    let mut s = "  ".to_owned();
    append(&mut s, padded_right(class_label(c), 8).as_str());
    append(&mut s, padded_left(decimal_string(n as u64).as_str(), 10).as_str());
    append(&mut s, " -- (");
    s
}

/// Every line of a log is counted once: as a request when it parses, as
/// ignored when it does not.
pub proof fn lemma_every_line_counted(s: Stats, lines: Seq<Seq<char>>)
    requires
        s.describes(lines),
    ensures
        s.requests() == records(lines).len(),
        s.line_count() == lines.len(),
{
    lemma_class_count_sum(records(lines));
    crate::commands::lemma_records_len(lines);
}

/// The sum of the counts of some breakdown rows.
pub open spec fn rows_total(rows: Seq<(StatusClass, nat)>) -> nat
    decreases rows.len(),
{
    if rows.len() == 0 {
        0
    } else {
        rows_total(rows.drop_last()) + rows.last().1
    }
}

proof fn lemma_breakdown_step(s: Stats, k: nat)
    requires
        k < 5,
    ensures
        rows_total(breakdown_spec(s, k + 1)) == rows_total(breakdown_spec(s, k)) + s.requests_of(
            class_order()[k as int],
        ),
{
    let c = class_order()[k as int];
    let next = breakdown_spec(s, k + 1);
    if s.requests_of(c) > 0 {
        assert(next.drop_last() == breakdown_spec(s, k));
    }
}

/// The rows of the status breakdown add up to the total request count.
pub proof fn lemma_breakdown_total(s: Stats)
    ensures
        rows_total(breakdown_spec(s, 5)) == s.requests(),
{
    lemma_breakdown_step(s, 0);
    lemma_breakdown_step(s, 1);
    lemma_breakdown_step(s, 2);
    lemma_breakdown_step(s, 3);
    lemma_breakdown_step(s, 4);
}

} // verus!
