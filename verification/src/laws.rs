//! Properties that tie the reports together.
use crate::commands::filter::{filter_spec, matching};
use crate::commands::status::{status_count, status_tally};
use crate::commands::summary::{class_count, class_of, ip_set, Stats, StatusClass};
use crate::commands::top::{count_ip, ip_counts, ranks};
use crate::commands::{records, LogRecord};
use crate::ipkey::{lemma_str_lt_irreflexive, str_lt};
use vstd::prelude::*;

verus! {

proof fn lemma_matching_len(recs: Seq<LogRecord>, st: u16)
    ensures
        matching(recs, st).len() == status_count(recs, st),
    decreases recs.len(),
{
    if recs.len() > 0 {
        lemma_matching_len(recs.drop_last(), st);
    }
}

/// Filtering a log by a status code selects as many requests as the status
/// report counts for that code.
pub proof fn lemma_filter_agrees_with_status(lines: Seq<Seq<char>>, st: u16)
    ensures
        filter_spec(lines, st).len() == if status_tally(lines).contains_key(st) {
            status_tally(lines)[st]
        } else {
            0
        },
{
    lemma_matching_len(records(lines), st);
}

proof fn lemma_ip_set_is_counted(recs: Seq<LogRecord>)
    ensures
        ip_set(recs) == ip_counts(recs).dom(),
    decreases recs.len(),
{
    if recs.len() > 0 {
        lemma_ip_set_is_counted(recs.drop_last());
        assert(ip_set(recs) =~= ip_counts(recs).dom());
    } else {
        assert(ip_set(recs) =~= ip_counts(recs).dom());
    }
}

/// A ranking lists as many rows as the map has keys.
pub proof fn lemma_ranks_len(m: Map<Seq<char>, nat>, out: Seq<(Seq<char>, nat)>)
    requires
        m.dom().finite(),
        ranks(m, out),
    ensures
        out.len() == m.dom().len(),
{
    let ips = out.map_values(|e: (Seq<char>, nat)| e.0);
    assert forall|i: int, j: int| 0 <= i < ips.len() && 0 <= j < ips.len() && i != j implies ips[i]
        != ips[j] by {
        if ips[i] == ips[j] {
            let (p, q) = if i < j {
                (i, j)
            } else {
                (j, i)
            };
            assert(out[p].1 == m[out[p].0]);
            assert(out[q].1 == m[out[q].0]);
            lemma_str_lt_irreflexive(out[p].0);
            assert(out[p].1 > out[q].1 || (out[p].1 == out[q].1 && str_lt(out[p].0, out[q].0)));
        }
    }
    assert(ips.no_duplicates());
    assert(ips.to_set() =~= m.dom()) by {
        assert forall|ip: Seq<char>| m.dom().contains(ip) implies ips.to_set().contains(ip) by {
            assert(m.contains_key(ip));
            let i = choose|i: int| 0 <= i < out.len() && out[i].0 == ip;
            assert(ips[i] == ip);
        }
        assert forall|ip: Seq<char>| ips.to_set().contains(ip) implies m.dom().contains(ip) by {
            let i = choose|i: int| 0 <= i < ips.len() && ips[i] == ip;
            assert(m.contains_key(out[i].0));
        }
    }
    ips.unique_seq_to_set();
}

/// The top report ranks every distinct client address that the summary
/// counts, once each, and the total it takes percentages of is the summary's
/// request total.
pub proof fn lemma_top_agrees_with_summary(
    lines: Seq<Seq<char>>,
    s: Stats,
    total_parsed: nat,
    out: Seq<(Seq<char>, nat)>,
)
    requires
        s.describes(lines),
        total_parsed == records(lines).len(),
        ranks(ip_counts(records(lines)), out),
    ensures
        out.len() == s.unique_ips().len(),
        total_parsed == s.requests(),
{
    let recs = records(lines);
    lemma_ip_set_is_counted(recs);
    lemma_ip_set_finite(recs);
    lemma_ranks_len(ip_counts(recs), out);
    crate::commands::summary::lemma_every_line_counted(s, lines);
}

proof fn lemma_ip_set_finite(recs: Seq<LogRecord>)
    ensures
        ip_set(recs).finite(),
    decreases recs.len(),
{
    if recs.len() > 0 {
        lemma_ip_set_finite(recs.drop_last());
    }
}

/// The requests counted in a list of rows.
pub open spec fn rows_sum(out: Seq<(Seq<char>, nat)>) -> nat
    decreases out.len(),
{
    if out.len() == 0 {
        0
    } else {
        rows_sum(out.drop_last()) + out.last().1
    }
}

spec fn sum_counts(recs: Seq<LogRecord>, ips: Seq<Seq<char>>) -> nat
    decreases ips.len(),
{
    if ips.len() == 0 {
        0
    } else {
        sum_counts(recs, ips.drop_last()) + count_ip(recs, ips.last())
    }
}

spec fn occurrences(ips: Seq<Seq<char>>, x: Seq<char>) -> nat
    decreases ips.len(),
{
    if ips.len() == 0 {
        0
    } else {
        occurrences(ips.drop_last(), x) + if ips.last() == x {
            1nat
        } else {
            0nat
        }
    }
}

proof fn lemma_sum_counts_push(recs: Seq<LogRecord>, r: LogRecord, ips: Seq<Seq<char>>)
    ensures
        sum_counts(recs.push(r), ips) == sum_counts(recs, ips) + occurrences(ips, r.ip),
    decreases ips.len(),
{
    assert(recs.push(r).drop_last() == recs);
    if ips.len() > 0 {
        lemma_sum_counts_push(recs, r, ips.drop_last());
    }
}

proof fn lemma_occurrences_once(ips: Seq<Seq<char>>, x: Seq<char>)
    requires
        ips.no_duplicates(),
        ips.contains(x),
    ensures
        occurrences(ips, x) == 1,
    decreases ips.len(),
{
    let init = ips.drop_last();
    if ips.last() == x {
        assert(!init.contains(x)) by {
            if init.contains(x) {
                let i = choose|i: int| 0 <= i < init.len() && init[i] == x;
                assert(ips[i] == ips[ips.len() - 1]);
            }
        }
        lemma_occurrences_none(init, x);
    } else {
        let i = choose|i: int| 0 <= i < ips.len() && ips[i] == x;
        assert(init[i] == x);
        lemma_occurrences_once(init, x);
    }
}

proof fn lemma_occurrences_none(ips: Seq<Seq<char>>, x: Seq<char>)
    requires
        !ips.contains(x),
    ensures
        occurrences(ips, x) == 0,
    decreases ips.len(),
{
    if ips.len() > 0 {
        assert(!ips.drop_last().contains(x)) by {
            if ips.drop_last().contains(x) {
                let i = choose|i: int| 0 <= i < ips.drop_last().len() && ips.drop_last()[i] == x;
                assert(ips[i] == x);
            }
        }
        lemma_occurrences_none(ips.drop_last(), x);
    }
}

proof fn lemma_sum_counts_total(recs: Seq<LogRecord>, ips: Seq<Seq<char>>)
    requires
        ips.no_duplicates(),
        forall|x: Seq<char>| #[trigger] ip_set(recs).contains(x) ==> ips.contains(x),
    ensures
        sum_counts(recs, ips) == recs.len(),
    decreases recs.len(),
{
    if recs.len() == 0 {
        lemma_sum_counts_zero(recs, ips);
    } else {
        let prev = recs.drop_last();
        let r = recs.last();
        assert(prev.push(r) == recs);
        assert forall|x: Seq<char>| #[trigger] ip_set(prev).contains(x) implies ips.contains(x) by {
            assert(ip_set(recs).contains(x));
        }
        lemma_sum_counts_total(prev, ips);
        lemma_sum_counts_push(prev, r, ips);
        assert(ip_set(recs).contains(r.ip));
        lemma_occurrences_once(ips, r.ip);
    }
}

proof fn lemma_sum_counts_zero(recs: Seq<LogRecord>, ips: Seq<Seq<char>>)
    requires
        recs.len() == 0,
    ensures
        sum_counts(recs, ips) == 0,
    decreases ips.len(),
{
    if ips.len() > 0 {
        lemma_sum_counts_zero(recs, ips.drop_last());
    }
}

proof fn lemma_rows_sum(recs: Seq<LogRecord>, out: Seq<(Seq<char>, nat)>)
    requires
        forall|i: int| 0 <= i < out.len() ==> #[trigger] out[i].1 == count_ip(recs, out[i].0),
    ensures
        rows_sum(out) == sum_counts(recs, out.map_values(|e: (Seq<char>, nat)| e.0)),
    decreases out.len(),
{
    if out.len() > 0 {
        let init = out.drop_last();
        assert(out.map_values(|e: (Seq<char>, nat)| e.0).drop_last() == init.map_values(
            |e: (Seq<char>, nat)| e.0,
        ));
        lemma_rows_sum(recs, init);
    }
}

/// The request counts of the top report add up to the number of parsed
/// lines, so its percentages add up to one hundred.
pub proof fn lemma_top_counts_sum(lines: Seq<Seq<char>>, out: Seq<(Seq<char>, nat)>)
    requires
        ranks(ip_counts(records(lines)), out),
    ensures
        rows_sum(out) == records(lines).len(),
{
    let recs = records(lines);
    let m = ip_counts(recs);
    let ips = out.map_values(|e: (Seq<char>, nat)| e.0);
    assert forall|i: int, j: int| 0 <= i < ips.len() && 0 <= j < ips.len() && i != j implies ips[i]
        != ips[j] by {
        if ips[i] == ips[j] {
            let (p, q) = if i < j {
                (i, j)
            } else {
                (j, i)
            };
            assert(out[p].1 == m[out[p].0]);
            assert(out[q].1 == m[out[q].0]);
            lemma_str_lt_irreflexive(out[p].0);
            assert(out[p].1 > out[q].1 || (out[p].1 == out[q].1 && str_lt(out[p].0, out[q].0)));
        }
    }
    lemma_ip_set_is_counted(recs);
    assert forall|x: Seq<char>| #[trigger] ip_set(recs).contains(x) implies ips.contains(x) by {
        assert(m.contains_key(x));
        let i = choose|i: int| 0 <= i < out.len() && out[i].0 == x;
        assert(ips[i] == x);
    }
    assert forall|i: int| 0 <= i < out.len() implies #[trigger] out[i].1 == count_ip(recs, out[i].0) by {
        assert(m.contains_key(out[i].0));
    }
    lemma_rows_sum(recs, out);
    lemma_sum_counts_total(recs, ips);
}


/// The sum of the counts in `m` of the codes below `k` that fall in class
/// `c`.
pub open spec fn class_tally(m: Map<u16, nat>, c: StatusClass, k: nat) -> nat
    decreases k,
{
    if k == 0 {
        0
    } else {
        let st = (k - 1) as u16;
        class_tally(m, c, (k - 1) as nat) + if m.contains_key(st) && class_of(st) == c {
            m[st]
        } else {
            0nat
        }
    }
}

spec fn tally_map(recs: Seq<LogRecord>) -> Map<u16, nat> {
    Map::new(|st: u16| status_count(recs, st) > 0, |st: u16| status_count(recs, st))
}

proof fn lemma_tally_empty(c: StatusClass, k: nat)
    requires
        k <= 65536,
    ensures
        class_tally(tally_map(Seq::empty()), c, k) == 0,
    decreases k,
{
    if k > 0 {
        lemma_tally_empty(c, (k - 1) as nat);
    }
}

proof fn lemma_tally_push(recs: Seq<LogRecord>, r: LogRecord, c: StatusClass, k: nat)
    requires
        k <= 65536,
    ensures
        class_tally(tally_map(recs.push(r)), c, k) == class_tally(tally_map(recs), c, k) + if class_of(
            r.status,
        ) == c && r.status < k {
            1nat
        } else {
            0nat
        },
    decreases k,
{
    if k > 0 {
        lemma_tally_push(recs, r, c, (k - 1) as nat);
        let st = (k - 1) as u16;
        assert(recs.push(r).drop_last() == recs);
        assert(status_count(recs.push(r), st) == status_count(recs, st) + if r.status == st {
            1nat
        } else {
            0nat
        });
    }
}

proof fn lemma_tally_total(recs: Seq<LogRecord>, c: StatusClass)
    ensures
        class_tally(tally_map(recs), c, 65536) == class_count(recs, c),
    decreases recs.len(),
{
    if recs.len() == 0 {
        lemma_tally_empty(c, 65536);
        assert(recs == Seq::<LogRecord>::empty());
    } else {
        let prev = recs.drop_last();
        lemma_tally_total(prev, c);
        lemma_tally_push(prev, recs.last(), c, 65536);
        assert(prev.push(recs.last()) == recs);
    }
}

/// For each status class, the status report's counts of the codes in that
/// class add up to the summary's count for the class.
pub proof fn lemma_status_agrees_with_summary(lines: Seq<Seq<char>>, s: Stats, c: StatusClass)
    requires
        s.describes(lines),
    ensures
        class_tally(status_tally(lines), c, 65536) == s.requests_of(c),
{
    lemma_tally_total(records(lines), c);
    assert(status_tally(lines) == tally_map(records(lines)));
}

} // verus!
