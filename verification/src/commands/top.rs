//! Client addresses ranked by how many requests they made.
use crate::commands::{LogPattern, 
    lemma_line_end, lemma_records_len, lemma_records_push, line_end_exec, lines_from,
    lines_of, parse_chars, records, sub_vec, LogRecord,
};
use crate::ipkey::{
    ip_key_of, ip_shaped, is_ip_shaped, key_u64, lemma_ip_key_order, lemma_key_u64,
    lemma_str_lt_irreflexive, lemma_str_lt_order, str_lt, text_less,
};
use crate::text::{append, decimal, decimal_string, pad_left, pad_right, padded_left, padded_right};
use std::collections::HashMap;
use vstd::std_specs::iter::IteratorSpec;
use vstd::prelude::*;

verus! {

broadcast use {vstd::std_specs::hash::group_hash_axioms, vstd::seq_lib::group_to_multiset_ensures};

/// `a` may come before `b` in the ranking: more requests first, and among
/// equal counts the address that is not greater first.
pub open spec fn before(a: (String, usize), b: (String, usize)) -> bool {
    a.1 > b.1 || (a.1 == b.1 && !str_lt(b.0@, a.0@))
}

pub open spec fn in_rank_order(s: Seq<(String, usize)>) -> bool {
    forall|i: int, j: int| 0 <= i < j < s.len() ==> before(s[i], s[j])
}

proof fn lemma_before_trans(a: (String, usize), b: (String, usize), c: (String, usize))
    requires
        before(a, b),
        before(b, c),
    ensures
        before(a, c),
{
    lemma_str_lt_order(c.0@, a.0@, b.0@);
    lemma_str_lt_order(a.0@, b.0@, c.0@);
}

fn before_exec(a: &(String, usize), b: &(String, usize)) -> (r: bool)
    ensures
        r == before(*a, *b),
{
    a.1 > b.1 || (a.1 == b.1 && !text_less(b.0.as_str(), a.0.as_str()))
}

/// Merges two rankings.
fn merge(a: Vec<(String, usize)>, b: Vec<(String, usize)>) -> (r: Vec<(String, usize)>)
    requires
        in_rank_order(a@),
        in_rank_order(b@),
    ensures
        in_rank_order(r@),
        r@.to_multiset() == a@.to_multiset().add(b@.to_multiset()),
{
    let mut r: Vec<(String, usize)> = Vec::new();
    let mut i: usize = 0;
    let mut j: usize = 0;
    while i < a.len() || j < b.len()
        invariant
            i <= a.len(),
            j <= b.len(),
            in_rank_order(a@),
            in_rank_order(b@),
            in_rank_order(r@),
            r@.len() == i + j,
            r@.to_multiset() == a@.take(i as int).to_multiset().add(b@.take(j as int).to_multiset()),
            r@.len() > 0 && i < a.len() ==> before(r@.last(), a@[i as int]),
            r@.len() > 0 && j < b.len() ==> before(r@.last(), b@[j as int]),
        decreases a.len() + b.len() - i - j,
    {
        let take_a = if i < a.len() && j < b.len() {
            before_exec(&a[i], &b[j])
        } else {
            i < a.len()
        };
        let ghost old_r = r@;
        if take_a {
            let x = (a[i].0.clone(), a[i].1);
            assert(x == a@[i as int]);
            r.push(x);
            proof {
                assert(a@.take(i + 1) == a@.take(i as int).push(x));
                assert forall|p: int, q: int| 0 <= p < q < r@.len() implies before(r@[p], r@[q]) by {
                    if q == r@.len() - 1 && p < q - 1 {
                        lemma_before_trans(old_r[p], old_r.last(), x);
                    }
                }
                if i + 1 < a.len() {
                    assert(before(x, a@[i + 1]));
                }
            }
            i += 1;
        } else {
            let x = (b[j].0.clone(), b[j].1);
            assert(x == b@[j as int]);
            r.push(x);
            proof {
                assert(b@.take(j + 1) == b@.take(j as int).push(x));
                assert forall|p: int, q: int| 0 <= p < q < r@.len() implies before(r@[p], r@[q]) by {
                    if q == r@.len() - 1 && p < q - 1 {
                        lemma_before_trans(old_r[p], old_r.last(), x);
                    }
                }
                if j + 1 < b.len() {
                    assert(before(x, b@[j + 1]));
                }
                if i < a.len() {
                    lemma_str_lt_order(x.0@, a@[i as int].0@, x.0@);
                    lemma_str_lt_irreflexive(x.0@);
                }
            }
            j += 1;
        }
    }
    proof {
        assert(a@.take(a@.len() as int) == a@);
        assert(b@.take(b@.len() as int) == b@);
    }
    r
}

/// Sorts into rank order (merge sort).
fn rank_sort(v: Vec<(String, usize)>) -> (r: Vec<(String, usize)>)
    ensures
        in_rank_order(r@),
        r@.to_multiset() == v@.to_multiset(),
    decreases v.len(),
{
    if v.len() <= 1 {
        return v;
    }
    let mid = v.len() / 2;
    let mut left: Vec<(String, usize)> = Vec::new();
    let mut right: Vec<(String, usize)> = Vec::new();
    let mut k: usize = 0;
    while k < v.len()
        invariant
            k <= v.len(),
            mid < v.len(),
            k <= mid ==> left@ == v@.take(k as int) && right@.len() == 0,
            k > mid ==> left@ == v@.take(mid as int) && right@ == v@.subrange(mid as int, k as int),
        decreases v.len() - k,
    {
        let x = (v[k].0.clone(), v[k].1);
        assert(x == v@[k as int]);
        if k < mid {
            left.push(x);
            assert(v@.take(k + 1) == v@.take(k as int).push(v@[k as int]));
        } else {
            right.push(x);
            assert(v@.subrange(mid as int, k + 1) == v@.subrange(mid as int, k as int).push(
                v@[k as int],
            ));
        }
        k += 1;
    }
    proof {
        assert(v@ == left@ + right@);
        vstd::seq_lib::lemma_multiset_commutative(left@, right@);
    }
    let sl = rank_sort(left);
    let sr = rank_sort(right);
    merge(sl, sr)
}

/// How many of `recs` come from `ip`.
pub open spec fn count_ip(recs: Seq<LogRecord>, ip: Seq<char>) -> nat
    decreases recs.len(),
{
    if recs.len() == 0 {
        0
    } else {
        count_ip(recs.drop_last(), ip) + if recs.last().ip == ip {
            1nat
        } else {
            0nat
        }
    }
}

/// The request count of each client address among `recs`.
pub open spec fn ip_counts(recs: Seq<LogRecord>) -> Map<Seq<char>, nat> {
    Map::new(|ip: Seq<char>| count_ip(recs, ip) > 0, |ip: Seq<char>| count_ip(recs, ip))
}

/// `out` lists the entries of `m`, each once, most requests first and, among
/// equal counts, in increasing order of address.
pub open spec fn ranks(m: Map<Seq<char>, nat>, out: Seq<(Seq<char>, nat)>) -> bool {
    &&& forall|i: int|
        0 <= i < out.len() ==> m.contains_key(#[trigger] out[i].0) && m[out[i].0] == out[i].1
    &&& forall|ip: Seq<char>| #[trigger]
        m.contains_key(ip) ==> exists|i: int| 0 <= i < out.len() && out[i].0 == ip
    &&& forall|i: int, j: int|
        0 <= i < j < out.len() ==> #[trigger] out[i].1 > #[trigger] out[j].1 || (out[i].1
            == out[j].1 && str_lt(out[i].0, out[j].0))
}

/// The entries as addresses and counts.
pub open spec fn entries_view(v: Seq<(String, usize)>) -> Seq<(Seq<char>, nat)> {
    v.map_values(|e: (String, usize)| (e.0@, e.1 as nat))
}

/// Addresses ranked by request count, and how many lines parsed.
pub struct IpCounts {
    pub unique_ip: Vec<(String, usize)>,
    pub total_parsed: usize,
}

/// Running request counts per client address.
pub struct TopCounter {
    counts: HashMap<u64, (String, usize)>,
    others: Vec<(String, usize)>,
    model: Ghost<Map<Seq<char>, nat>>,
    total_parsed: usize,
}

impl TopCounter {
    /// Addresses in ASCII digits are held in the table under their keys, the
    /// others, each once, in a list; each with its count.
    pub closed spec fn wf(&self) -> bool {
        &&& forall|ip: Seq<char>| #[trigger]
            self.model@.contains_key(ip) ==> {
                &&& 0 < self.model@[ip] <= self.total_parsed
                &&& ip_shaped(ip) ==> {
                    &&& self.counts@.contains_key(key_u64(ip))
                    &&& self.counts@[key_u64(ip)].0@ == ip
                    &&& self.counts@[key_u64(ip)].1 == self.model@[ip]
                }
                &&& !ip_shaped(ip) ==> exists|j: int|
                    0 <= j < self.others@.len() && #[trigger] self.others@[j].0@ == ip
            }
        &&& forall|k: u64| #[trigger]
            self.counts@.contains_key(k) ==> self.model@.contains_key(self.counts@[k].0@)
                && key_u64(self.counts@[k].0@) == k && ip_shaped(self.counts@[k].0@)
        &&& forall|j: int| #![trigger self.others@[j]]
            0 <= j < self.others@.len() ==> {
                &&& self.model@.contains_key(self.others@[j].0@)
                &&& self.model@[self.others@[j].0@] == self.others@[j].1
                &&& !ip_shaped(self.others@[j].0@)
            }
        &&& forall|i: int, j: int|
            0 <= i < j < self.others@.len() ==> #[trigger] self.others@[i].0@ != #[trigger] self.others@[j].0@
    }

    /// The request count of each address seen.
    pub closed spec fn counts(&self) -> Map<Seq<char>, nat> {
        self.model@
    }

    /// Requests counted.
    pub closed spec fn total(&self) -> nat {
        self.total_parsed as nat
    }

    /// Nothing counted yet.
    pub fn new() -> (t: Self)
        ensures
            t.wf(),
            t.counts() == Map::<Seq<char>, nat>::empty(),
            t.total() == 0,
    {
        TopCounter {
            counts: HashMap::new(),
            others: Vec::new(),
            model: Ghost(Map::empty()),
            total_parsed: 0,
        }
    }

    /// Requests counted.
    pub fn total_parsed(&self) -> (n: usize)
        ensures
            n == self.total(),
    {
        self.total_parsed
    }

    /// Counts one more request from `ip`.
    pub fn record(&mut self, ip: &str)
        requires
            old(self).wf(),
            old(self).total() < usize::MAX,
        ensures
            final(self).wf(),
            final(self).total() == old(self).total() + 1,
            final(self).counts() == old(self).counts().insert(
                ip@,
                if old(self).counts().contains_key(ip@) {
                    old(self).counts()[ip@] + 1
                } else {
                    1
                },
            ),
    {
        if is_ip_shaped(ip) {
            self.record_shaped(ip);
        } else {
            self.record_other(ip);
        }
    }

    fn record_shaped(&mut self, ip: &str)
        requires
            old(self).wf(),
            ip_shaped(ip@),
            old(self).total() < usize::MAX,
        ensures
            final(self).wf(),
            final(self).total() == old(self).total() + 1,
            final(self).counts() == old(self).counts().insert(
                ip@,
                if old(self).counts().contains_key(ip@) {
                    old(self).counts()[ip@] + 1
                } else {
                    1
                },
            ),
    {
        let k = ip_key_of(ip);
        let ghost old_model = self.model@;
        let n: usize = match self.counts.get(&k) {
            Some(e) => {
                proof {
                    let w = self.counts@[k].0@;
                    assert(self.model@.contains_key(w));
                    lemma_ip_key_order(w, ip@);
                    lemma_key_u64(w);
                    lemma_key_u64(ip@);
                }
                e.1 + 1
            },
            None => {
                proof {
                    if self.model@.contains_key(ip@) {
                        assert(self.counts@.contains_key(key_u64(ip@)));
                    }
                }
                1
            },
        };
        self.counts.insert(k, (ip.to_owned(), n));
        self.model = Ghost(old_model.insert(ip@, n as nat));
        self.total_parsed = self.total_parsed + 1;
        proof {
            assert forall|x: Seq<char>| #[trigger] self.model@.contains_key(x) implies {
                &&& 0 < self.model@[x] <= self.total_parsed
                &&& ip_shaped(x) ==> {
                    &&& self.counts@.contains_key(key_u64(x))
                    &&& self.counts@[key_u64(x)].0@ == x
                    &&& self.counts@[key_u64(x)].1 == self.model@[x]
                }
                &&& !ip_shaped(x) ==> exists|j: int|
                    0 <= j < self.others@.len() && #[trigger] self.others@[j].0@ == x
            } by {
                if x != ip@ {
                    assert(old_model.contains_key(x));
                    if ip_shaped(x) {
                        lemma_ip_key_order(x, ip@);
                        lemma_key_u64(x);
                        lemma_key_u64(ip@);
                    } else {
                        let t = choose|t: int|
                            0 <= t < old(self).others@.len() && #[trigger] old(self).others@[t].0@ == x;
                        assert(self.others@[t] == old(self).others@[t]);
                    }
                }
            }
            assert forall|k2: u64| #[trigger] self.counts@.contains_key(k2) implies self.model@.contains_key(
                self.counts@[k2].0@,
            ) && key_u64(self.counts@[k2].0@) == k2 && ip_shaped(self.counts@[k2].0@) by {
                if k2 != k {
                    assert(old(self).counts@.contains_key(k2));
                }
            }
            assert forall|j: int| #![trigger self.others@[j]] 0 <= j < self.others@.len() implies {
                &&& self.model@.contains_key(self.others@[j].0@)
                &&& self.model@[self.others@[j].0@] == self.others@[j].1
                &&& !ip_shaped(self.others@[j].0@)
            } by {
                assert(old(self).others@[j] == self.others@[j]);
            }
        }
    }

    fn record_other(&mut self, ip: &str)
        requires
            old(self).wf(),
            !ip_shaped(ip@),
            old(self).total() < usize::MAX,
        ensures
            final(self).wf(),
            final(self).total() == old(self).total() + 1,
            final(self).counts() == old(self).counts().insert(
                ip@,
                if old(self).counts().contains_key(ip@) {
                    old(self).counts()[ip@] + 1
                } else {
                    1
                },
            ),
    {
        let ghost old_model = self.model@;
        let ghost os = self.others@;
        let owned = ip.to_owned();
        let mut j: usize = 0;
        while j < self.others.len() && !(self.others[j].0 == owned)
            invariant
                j <= self.others@.len(),
                os == self.others@,
                owned@ == ip@,
                forall|t: int| 0 <= t < j ==> #[trigger] os[t].0@ != ip@,
            decreases self.others.len() - j,
        {
            j += 1;
        }
        if j < self.others.len() {
            proof {
                assert(os[j as int].0@ == ip@);
                assert(old_model.contains_key(os[j as int].0@));
                assert(old_model[ip@] < usize::MAX);
            }
            let n = self.others[j].1 + 1;
            let e = (owned, n);
            self.others.set(j, e);
            assert(self.others@ == os.update(j as int, e));
            self.model = Ghost(old_model.insert(ip@, n as nat));
            self.total_parsed = self.total_parsed + 1;
            proof {
                assert forall|x: Seq<char>| #[trigger] self.model@.contains_key(x) implies {
                    &&& 0 < self.model@[x] <= self.total_parsed
                    &&& ip_shaped(x) ==> {
                        &&& self.counts@.contains_key(key_u64(x))
                        &&& self.counts@[key_u64(x)].0@ == x
                        &&& self.counts@[key_u64(x)].1 == self.model@[x]
                    }
                    &&& !ip_shaped(x) ==> exists|t: int|
                        0 <= t < self.others@.len() && #[trigger] self.others@[t].0@ == x
                } by {
                    if x != ip@ {
                        assert(old_model.contains_key(x));
                        if !ip_shaped(x) {
                            let t = choose|t: int| 0 <= t < os.len() && #[trigger] os[t].0@ == x;
                            assert(self.others@[t] == os[t]);
                        }
                    } else {
                        assert(self.others@[j as int].0@ == x);
                    }
                }
                assert forall|t: int| #![trigger self.others@[t]] 0 <= t < self.others@.len() implies {
                    &&& self.model@.contains_key(self.others@[t].0@)
                    &&& self.model@[self.others@[t].0@] == self.others@[t].1
                    &&& !ip_shaped(self.others@[t].0@)
                } by {
                    if t != j {
                        assert(self.others@[t] == os[t]);
                        assert(os[t].0@ != ip@);
                    }
                }
                assert forall|a: int, b: int|
                    0 <= a < b < self.others@.len() implies #[trigger] self.others@[a].0@ != #[trigger] self.others@[b].0@ by {
                    assert(os[a].0@ != os[b].0@);
                    if a == j {
                        assert(self.others@[b] == os[b]);
                    } else if b == j {
                        assert(self.others@[a] == os[a]);
                    } else {
                        assert(self.others@[a] == os[a]);
                        assert(self.others@[b] == os[b]);
                    }
                }
            }
        } else {
            proof {
                if old_model.contains_key(ip@) {
                    let t = choose|t: int| 0 <= t < os.len() && #[trigger] os[t].0@ == ip@;
                    assert(false);
                }
            }
            self.others.push((owned, 1));
            self.model = Ghost(old_model.insert(ip@, 1));
            self.total_parsed = self.total_parsed + 1;
            proof {
                assert forall|x: Seq<char>| #[trigger] self.model@.contains_key(x) implies {
                    &&& 0 < self.model@[x] <= self.total_parsed
                    &&& ip_shaped(x) ==> {
                        &&& self.counts@.contains_key(key_u64(x))
                        &&& self.counts@[key_u64(x)].0@ == x
                        &&& self.counts@[key_u64(x)].1 == self.model@[x]
                    }
                    &&& !ip_shaped(x) ==> exists|t: int|
                        0 <= t < self.others@.len() && #[trigger] self.others@[t].0@ == x
                } by {
                    if x != ip@ {
                        assert(old_model.contains_key(x));
                        if !ip_shaped(x) {
                            let t = choose|t: int| 0 <= t < os.len() && #[trigger] os[t].0@ == x;
                            assert(self.others@[t] == os[t]);
                        }
                    } else {
                        assert(self.others@[os.len() as int].0@ == x);
                    }
                }
                assert forall|t: int| #![trigger self.others@[t]] 0 <= t < self.others@.len() implies {
                    &&& self.model@.contains_key(self.others@[t].0@)
                    &&& self.model@[self.others@[t].0@] == self.others@[t].1
                    &&& !ip_shaped(self.others@[t].0@)
                } by {
                    if t < os.len() {
                        assert(self.others@[t] == os[t]);
                        assert(os[t].0@ != ip@);
                    }
                }
                assert forall|a: int, b: int|
                    0 <= a < b < self.others@.len() implies #[trigger] self.others@[a].0@ != #[trigger] self.others@[b].0@ by {
                    assert(self.others@[a] == os[a]);
                    if b < os.len() {
                        assert(self.others@[b] == os[b]);
                    }
                }
            }
        }
    }

    /// The addresses ranked.
    pub fn finish(&self) -> (r: IpCounts)
        requires
            self.wf(),
        ensures
            r.total_parsed == self.total(),
            ranks(self.counts(), entries_view(r.unique_ip@)),
    {
        let mut all = self.table_rows();
        let ghost from_table = all@;
        let mut j: usize = 0;
        while j < self.others.len()
            invariant
                self.wf(),
                j <= self.others@.len(),
                all@ == from_table + self.others@.take(j as int),
            decreases self.others.len() - j,
        {
            let x = (self.others[j].0.clone(), self.others[j].1);
            assert(x == self.others@[j as int]);
            all.push(x);
            assert(self.others@.take(j + 1) == self.others@.take(j as int).push(x));
            j += 1;
        }
        assert(self.others@.take(self.others@.len() as int) == self.others@);
        proof {
            self.lemma_rows_cover(from_table, all@);
        }
        let sorted = rank_sort(all);
        proof {
            lemma_rows_rank(self.model@, all@, sorted@);
        }
        IpCounts { unique_ip: sorted, total_parsed: self.total_parsed }
    }

    /// The (address, count) rows of the key table, in the table's order.
    fn table_rows(&self) -> (rows: Vec<(String, usize)>)
        requires
            self.wf(),
        ensures
            forall|i: int|
                0 <= i < rows@.len() ==> #[trigger] self.counts@.contains_key(key_u64(rows@[i].0@))
                    && self.counts@[key_u64(rows@[i].0@)] == rows@[i]
                    && ip_shaped(rows@[i].0@),
            forall|k: u64| #[trigger]
                self.counts@.contains_key(k) ==> exists|i: int|
                    0 <= i < rows@.len() && rows@[i] == self.counts@[k],
            forall|i: int, j: int| 0 <= i < j < rows@.len() ==> #[trigger] rows@[i].0@ != #[trigger] rows@[j].0@,
    {
        let ghost m = self.counts@;
        let iter = self.counts.iter();
        let ghost es = iter.remaining();
        assert(es == vstd::std_specs::hash::spec_hash_map_iter(&self.counts).remaining());
        assert(es.no_duplicates());
        let mut rows: Vec<(String, usize)> = Vec::new();
        for entry in it: iter
            invariant
                it.seq() == es,
                rows@.len() == it.index(),
                forall|i: int| 0 <= i < it.index() ==> #[trigger] rows@[i] == *es[i].1,
        {
            let (k, e) = entry;
            rows.push((e.0.clone(), e.1));
        }
        assert(rows@.len() == es.len());
        assert forall|i: int|
            0 <= i < rows@.len() implies #[trigger] m.contains_key(key_u64(rows@[i].0@))
            && m[key_u64(rows@[i].0@)] == rows@[i] && ip_shaped(rows@[i].0@) by {
            assert(m.contains_key(*es[i].0));
            assert(m[*es[i].0] == *es[i].1);
        }
        assert forall|k: u64| #[trigger] m.contains_key(k) implies exists|i: int|
            0 <= i < rows@.len() && rows@[i] == m[k] by {
            assert(es.contains((&k, &m[k])));
            let i = choose|i: int| 0 <= i < es.len() && es[i] == (&k, &m[k]);
            assert(rows@[i] == m[k]);
        }
        assert forall|i: int, j: int| 0 <= i < j < rows@.len() implies #[trigger] rows@[i].0@
            != #[trigger] rows@[j].0@ by {
            assert(m.contains_key(*es[i].0));
            assert(m.contains_key(*es[j].0));
            if rows@[i].0@ == rows@[j].0@ {
                assert(*es[i].0 == *es[j].0);
                assert(es[i] == es[j]);
            }
        }
        rows
    }

    /// The table's rows followed by the list give each address seen, once,
    /// with its count.
    proof fn lemma_rows_cover(&self, table: Seq<(String, usize)>, all: Seq<(String, usize)>)
        requires
            self.wf(),
            all == table + self.others@,
            forall|i: int|
                0 <= i < table.len() ==> #[trigger] self.counts@.contains_key(key_u64(table[i].0@))
                    && self.counts@[key_u64(table[i].0@)] == table[i]
                    && ip_shaped(table[i].0@),
            forall|k: u64| #[trigger]
                self.counts@.contains_key(k) ==> exists|i: int|
                    0 <= i < table.len() && table[i] == self.counts@[k],
            forall|i: int, j: int| 0 <= i < j < table.len() ==> #[trigger] table[i].0@ != #[trigger] table[j].0@,
        ensures
            forall|i: int|
                0 <= i < all.len() ==> #[trigger] self.model@.contains_key(all[i].0@)
                    && self.model@[all[i].0@] == all[i].1,
            forall|ip: Seq<char>| #[trigger]
                self.model@.contains_key(ip) ==> exists|i: int| 0 <= i < all.len() && all[i].0@ == ip,
            forall|i: int, j: int| 0 <= i < j < all.len() ==> #[trigger] all[i].0@ != #[trigger] all[j].0@,
    {
        let t = table.len() as int;
        assert forall|i: int| 0 <= i < all.len() implies #[trigger] self.model@.contains_key(all[i].0@)
            && self.model@[all[i].0@] == all[i].1 by {
            if i < t {
                assert(all[i] == table[i]);
                let k = key_u64(table[i].0@);
                assert(self.counts@.contains_key(k));
            } else {
                assert(all[i] == self.others@[i - t]);
            }
        }
        assert forall|ip: Seq<char>| #[trigger] self.model@.contains_key(ip) implies exists|i: int|
            0 <= i < all.len() && all[i].0@ == ip by {
            if ip_shaped(ip) {
                let k = key_u64(ip);
                assert(self.counts@.contains_key(k));
                let i = choose|i: int| 0 <= i < table.len() && table[i] == self.counts@[k];
                assert(all[i] == table[i]);
            } else {
                let j = choose|j: int| 0 <= j < self.others@.len() && #[trigger] self.others@[j].0@ == ip;
                assert(all[t + j] == self.others@[j]);
            }
        }
        assert forall|i: int, j: int| 0 <= i < j < all.len() implies #[trigger] all[i].0@ != #[trigger] all[j].0@ by {
            if j < t {
                assert(all[i] == table[i] && all[j] == table[j]);
            } else if i >= t {
                assert(all[i] == self.others@[i - t] && all[j] == self.others@[j - t]);
            } else {
                assert(all[i] == table[i] && all[j] == self.others@[j - t]);
                assert(self.counts@.contains_key(key_u64(table[i].0@)));
                assert(!ip_shaped(self.others@[j - t].0@));
            }
        }
    }
}

/// A ranking of rows that give each address once, with its count, ranks the
/// counts.
proof fn lemma_rows_rank(
    m: Map<Seq<char>, nat>,
    all: Seq<(String, usize)>,
    sorted: Seq<(String, usize)>,
)
    requires
        forall|i: int|
            0 <= i < all.len() ==> #[trigger] m.contains_key(all[i].0@) && m[all[i].0@] == all[i].1,
        forall|ip: Seq<char>| #[trigger] m.contains_key(ip) ==> exists|i: int| 0 <= i < all.len() && all[i].0@ == ip,
        forall|i: int, j: int| 0 <= i < j < all.len() ==> #[trigger] all[i].0@ != #[trigger] all[j].0@,
        in_rank_order(sorted),
        sorted.to_multiset() == all.to_multiset(),
    ensures
        ranks(m, entries_view(sorted)),
{
    let ev = entries_view(sorted);
    assert(all.no_duplicates()) by {
        assert forall|i: int, j: int| 0 <= i < all.len() && 0 <= j < all.len() && i != j implies all[i] != all[j] by {
            if i < j {
                assert(all[i].0@ != all[j].0@);
            } else {
                assert(all[j].0@ != all[i].0@);
            }
        }
    }
    all.lemma_multiset_has_no_duplicates();
    sorted.lemma_multiset_has_no_duplicates_conv();
    assert forall|t: int| 0 <= t < sorted.len() implies exists|i: int| 0 <= i < all.len() && all[i] == #[trigger] sorted[t] by {
        assert(sorted.to_multiset().count(sorted[t]) > 0);
        assert(all.contains(sorted[t]));
    }
    assert forall|i: int| 0 <= i < ev.len() implies m.contains_key(#[trigger] ev[i].0) && m[ev[i].0] == ev[i].1 by {
        let p = choose|p: int| 0 <= p < all.len() && all[p] == sorted[i];
        assert(m.contains_key(all[p].0@));
    }
    assert forall|ip: Seq<char>| #[trigger] m.contains_key(ip) implies exists|i: int|
        0 <= i < ev.len() && ev[i].0 == ip by {
        let p = choose|p: int| 0 <= p < all.len() && all[p].0@ == ip;
        assert(all.contains(all[p]));
        assert(all.to_multiset().count(all[p]) > 0);
        assert(sorted.contains(all[p]));
        let t = choose|t: int| 0 <= t < sorted.len() && sorted[t] == all[p];
        assert(ev[t].0 == ip);
    }
    assert forall|i: int, j: int| 0 <= i < j < ev.len() implies #[trigger] ev[i].1 > #[trigger] ev[j].1 || (
        ev[i].1 == ev[j].1 && str_lt(ev[i].0, ev[j].0)) by {
        assert(before(sorted[i], sorted[j]));
        let p = choose|p: int| 0 <= p < all.len() && all[p] == sorted[i];
        let q = choose|q: int| 0 <= q < all.len() && all[q] == sorted[j];
        assert(sorted[i] != sorted[j]);
        assert(p != q);
        if p < q {
            assert(all[p].0@ != all[q].0@);
        } else {
            assert(all[q].0@ != all[p].0@);
        }
        lemma_str_lt_order(sorted[i].0@, sorted[j].0@, sorted[i].0@);
    }
}

/// Counting one more record.
proof fn lemma_ip_counts_push(recs: Seq<LogRecord>, r: LogRecord)
    ensures
        ip_counts(recs.push(r)) == ip_counts(recs).insert(
            r.ip,
            if ip_counts(recs).contains_key(r.ip) {
                ip_counts(recs)[r.ip] + 1
            } else {
                1
            },
        ),
{
    let n = recs.push(r);
    assert(n.drop_last() == recs);
    assert(ip_counts(n) =~= ip_counts(recs).insert(
        r.ip,
        if ip_counts(recs).contains_key(r.ip) {
            ip_counts(recs)[r.ip] + 1
        } else {
            1
        },
    ));
}

/// The addresses of the lines of `input` that parse, ranked by request count.
pub fn compute(input: &str, re: &LogPattern) -> (r: IpCounts)
    requires
        re.wf(),
    ensures
        r.total_parsed == records(lines_of(input@)).len(),
        ranks(ip_counts(records(lines_of(input@))), entries_view(r.unique_ip@)),
{
    let v = crate::text::chars_of(input);
    let ghost s = v@;
    let mut counter = TopCounter::new();
    let mut start: usize = 0;
    let ghost mut done: Seq<Seq<char>> = seq![];
    proof {
        assert(ip_counts(records(done)) =~= Map::<Seq<char>, nat>::empty());
    }
    while start < v.len()
        invariant
            re.wf(),
            s == v@,
            s == input@,
            start <= v.len(),
            lines_of(s) == done + lines_from(s, start as int),
            done.len() <= start,
            counter.wf(),
            counter.counts() == ip_counts(records(done)),
            counter.total() == records(done).len(),
        decreases v.len() - start,
    {
        let end = line_end_exec(&v, start);
        let line = sub_vec(&v, start, end);
        let ghost nd = done.push(line@);
        proof {
            lemma_line_end(s, start as int);
            lemma_records_push(done, line@);
            lemma_records_len(done);
            assert(lines_from(s, start as int) == seq![line@] + lines_from(s, end as int));
            assert(done + lines_from(s, start as int) == nd + lines_from(s, end as int));
        }
        match parse_chars(&line, re) {
            Some(l) => {
                counter.record(l.ip.as_str());
                proof {
                    lemma_ip_counts_push(records(done), l@);
                }
            },
            None => {},
        }
        proof {
            done = nd;
        }
        start = end;
    }
    proof {
        assert(lines_from(s, start as int) == Seq::<Seq<char>>::empty());
        assert(done + Seq::<Seq<char>>::empty() == done);
    }
    counter.finish()
}

/// The header line of the top table.
pub open spec fn table_header_spec() -> Seq<char> {
    pad_right("RANK"@, 5) + pad_right("IP"@, 15) + pad_right("REQUESTS"@, 10) + pad_right(
        "% OF TOTAL"@,
        12,
    )
}

pub fn table_header() -> (h: String)
    ensures
        h@ == table_header_spec(),
{
    let mut h = padded_right("RANK", 5);
    append(&mut h, padded_right("IP", 15).as_str());
    append(&mut h, padded_right("REQUESTS", 10).as_str());
    append(&mut h, padded_right("% OF TOTAL", 12).as_str());
    h
}

/// The start of a row of the top table, up to where the percentage goes
/// (`{:<5}{:<15}{:>8}`): the rank and the address under their headers, and
/// the count right-aligned to end under `REQUESTS`.
pub open spec fn row_start_spec(rank: nat, ip: Seq<char>, count: nat) -> Seq<char> {
    pad_right(decimal(rank), 5) + pad_right(ip, 15) + pad_left(decimal(count), 8)
}

pub fn row_start(rank: usize, ip: &str, count: usize) -> (s: String)
    ensures
        s@ == row_start_spec(rank as nat, ip@, count as nat),
{
    let mut s = padded_right(decimal_string(rank as u64).as_str(), 5);
    append(&mut s, padded_right(ip, 15).as_str());
    append(&mut s, padded_left(decimal_string(count as u64).as_str(), 8).as_str());
    s
}

/// The first `number` ranked addresses (all of them when there are fewer),
/// each with its 1-based rank.
pub fn leading(stats: &IpCounts, number: usize) -> (rows: Vec<(usize, String, usize)>)
    ensures
        rows.len() == if number < stats.unique_ip.len() {
            number as int
        } else {
            stats.unique_ip.len() as int
        },
        forall|i: int|
            0 <= i < rows.len() ==> #[trigger] rows[i].0 == i + 1 && rows[i].1@
                == stats.unique_ip[i].0@ && rows[i].2 == stats.unique_ip[i].1,
{
    let mut rows: Vec<(usize, String, usize)> = Vec::new();
    let mut i: usize = 0;
    while i < number && i < stats.unique_ip.len()
        invariant
            i <= stats.unique_ip.len(),
            i <= number,
            rows.len() == i,
            forall|j: int|
                0 <= j < i ==> #[trigger] rows[j].0 == j + 1 && rows[j].1@ == stats.unique_ip[j].0@
                    && rows[j].2 == stats.unique_ip[j].1,
        decreases stats.unique_ip.len() - i,
    {
        let (ip, c) = &stats.unique_ip[i];
        rows.push((i + 1, ip.clone(), *c));
        i += 1;
    }
    rows
}

} // verus!
