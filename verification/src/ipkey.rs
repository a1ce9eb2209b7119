//! A `u64` key for a client address written in ASCII digits, so that such
//! addresses can be counted in hash tables, and the string order in which
//! addresses are ranked.
//!
//! An address in ASCII digits, as the parser accepts it, is at most 15
//! characters, each a digit or a dot. The key reads those characters as the digits of a base-12
//! number of 15 places (a dot is 1, a digit `d` is `d + 2`, and a missing
//! character is 0), so that distinct addresses get distinct keys and keys
//! compare as the addresses do as strings.
use crate::text::{digit_value, is_digit, chars_of};
use vstd::prelude::*;

verus! {

/// At most 15 characters, each a digit or a dot.
pub open spec fn ip_shaped(s: Seq<char>) -> bool {
    &&& s.len() <= 15
    &&& forall|i: int| 0 <= i < s.len() ==> is_digit(#[trigger] s[i]) || s[i] == '.'
}

/// Lexicographic order of strings, character by character (the order of
/// `String`'s `Ord`).
pub open spec fn str_lt(a: Seq<char>, b: Seq<char>) -> bool
    decreases a.len(),
{
    if a.len() == 0 {
        b.len() > 0
    } else if b.len() == 0 {
        false
    } else if a[0] != b[0] {
        a[0] < b[0]
    } else {
        str_lt(a.drop_first(), b.drop_first())
    }
}

pub proof fn lemma_str_lt_irreflexive(a: Seq<char>)
    ensures
        !str_lt(a, a),
    decreases a.len(),
{
    if a.len() > 0 {
        lemma_str_lt_irreflexive(a.drop_first());
    }
}

proof fn lemma_str_lt_asym_total(a: Seq<char>, b: Seq<char>)
    ensures
        str_lt(a, b) ==> !str_lt(b, a),
        a != b ==> str_lt(a, b) || str_lt(b, a),
    decreases a.len(),
{
    if a.len() > 0 && b.len() > 0 {
        lemma_str_lt_asym_total(a.drop_first(), b.drop_first());
        if a[0] == b[0] && a.drop_first() == b.drop_first() {
            assert(a =~= seq![a[0]] + a.drop_first());
            assert(b =~= seq![b[0]] + b.drop_first());
        }
    } else if a.len() == 0 && b.len() == 0 {
        assert(a =~= b);
    }
}

proof fn lemma_str_lt_trans(a: Seq<char>, b: Seq<char>, c: Seq<char>)
    ensures
        str_lt(a, b) && str_lt(b, c) ==> str_lt(a, c),
    decreases a.len(),
{
    if a.len() > 0 && b.len() > 0 && c.len() > 0 {
        lemma_str_lt_trans(a.drop_first(), b.drop_first(), c.drop_first());
    }
}

/// The string order is a strict total order.
pub proof fn lemma_str_lt_order(a: Seq<char>, b: Seq<char>, c: Seq<char>)
    ensures
        str_lt(a, b) ==> !str_lt(b, a),
        a != b ==> str_lt(a, b) || str_lt(b, a),
        str_lt(a, b) && str_lt(b, c) ==> str_lt(a, c),
{
    lemma_str_lt_asym_total(a, b);
    lemma_str_lt_trans(a, b, c);
}

/// Comparing two strings whose first `i` characters agree comes down to
/// comparing what follows.
proof fn lemma_str_lt_skip(a: Seq<char>, b: Seq<char>, i: int)
    requires
        0 <= i <= a.len(),
        i <= b.len(),
        a.subrange(0, i) == b.subrange(0, i),
    ensures
        str_lt(a, b) == str_lt(a.skip(i), b.skip(i)),
    decreases i,
{
    if i > 0 {
        assert(a[0] == a.subrange(0, i)[0]);
        assert(b[0] == b.subrange(0, i)[0]);
        assert(a.drop_first().subrange(0, i - 1) =~= b.drop_first().subrange(0, i - 1)) by {
            assert forall|k: int| 0 <= k < i - 1 implies #[trigger] a.drop_first().subrange(0, i - 1)[k]
                == b.drop_first().subrange(0, i - 1)[k] by {
                assert(a.subrange(0, i)[k + 1] == b.subrange(0, i)[k + 1]);
                assert(a.subrange(0, i)[k + 1] == a[k + 1]);
                assert(b.subrange(0, i)[k + 1] == b[k + 1]);
                assert(a.drop_first().subrange(0, i - 1)[k] == a[k + 1]);
                assert(b.drop_first().subrange(0, i - 1)[k] == b[k + 1]);
            }
        }
        lemma_str_lt_skip(a.drop_first(), b.drop_first(), i - 1);
        assert(a.drop_first().skip(i - 1) =~= a.skip(i));
        assert(b.drop_first().skip(i - 1) =~= b.skip(i));
    } else {
        assert(a.skip(0) =~= a);
        assert(b.skip(0) =~= b);
    }
}

/// Whether `a` comes before `b` in the string order.
pub fn text_less(a: &str, b: &str) -> (r: bool)
    ensures
        r == str_lt(a@, b@),
{
    let x = chars_of(a);
    let y = chars_of(b);
    let mut i: usize = 0;
    while i < x.len() && i < y.len() && x[i] == y[i]
        invariant
            i <= x@.len(),
            i <= y@.len(),
            x@ == a@,
            y@ == b@,
            x@.subrange(0, i as int) == y@.subrange(0, i as int),
        decreases x.len() - i,
    {
        assert(x@.subrange(0, i + 1) =~= x@.subrange(0, i as int).push(x@[i as int]));
        assert(y@.subrange(0, i + 1) =~= y@.subrange(0, i as int).push(y@[i as int]));
        i += 1;
    }
    proof {
        lemma_str_lt_skip(x@, y@, i as int);
        if i < x@.len() {
            assert(x@.skip(i as int)[0] == x@[i as int]);
            assert(x@.skip(i as int).len() > 0);
        }
        if i < y@.len() {
            assert(y@.skip(i as int)[0] == y@[i as int]);
        }
    }
    if i == x.len() {
        i < y.len()
    } else if i == y.len() {
        false
    } else {
        x[i] < y[i]
    }
}

spec fn code(c: char) -> nat {
    if c == '.' {
        1
    } else {
        digit_value(c) + 2
    }
}

spec fn code_at(s: Seq<char>, i: int) -> nat {
    if 0 <= i < s.len() {
        code(s[i])
    } else {
        0
    }
}

spec fn pow12(n: nat) -> nat
    decreases n,
{
    if n == 0 {
        1
    } else {
        12 * pow12((n - 1) as nat)
    }
}

spec fn horner(s: Seq<char>, n: nat) -> nat
    decreases n,
{
    if n == 0 {
        0
    } else {
        horner(s, (n - 1) as nat) * 12 + code_at(s, n - 1)
    }
}

/// The key of an address.
pub closed spec fn ip_key(s: Seq<char>) -> nat {
    horner(s, 15)
}

proof fn lemma_code(c: char)
    requires
        is_digit(c) || c == '.',
    ensures
        1 <= code(c) <= 11,
{
}

proof fn lemma_code_order(c: char, d: char)
    requires
        is_digit(c) || c == '.',
        is_digit(d) || d == '.',
    ensures
        c < d <==> code(c) < code(d),
        c == d <==> code(c) == code(d),
{
}

proof fn lemma_horner_bound(s: Seq<char>, n: nat)
    requires
        ip_shaped(s),
    ensures
        horner(s, n) < pow12(n),
        pow12(n) >= 1,
    decreases n,
{
    if n > 0 {
        lemma_horner_bound(s, (n - 1) as nat);
        if 0 <= n - 1 < s.len() {
            lemma_code(s[n - 1]);
        }
    }
}

proof fn lemma_horner_empty(s: Seq<char>, n: nat)
    requires
        s.len() == 0,
    ensures
        horner(s, n) == 0,
    decreases n,
{
    if n > 0 {
        lemma_horner_empty(s, (n - 1) as nat);
    }
}

proof fn lemma_mul_assoc12(c: nat, p: nat)
    ensures
        (c * p) * 12 == c * (12 * p),
{
    assert((c * p) * 12 == c * (12 * p)) by (nonlinear_arith);
}

/// The first character weighs `pow12(n - 1)`.
proof fn lemma_horner_split(s: Seq<char>, n: nat)
    requires
        n >= 1,
        s.len() >= 1,
    ensures
        horner(s, n) == code_at(s, 0) * pow12((n - 1) as nat) + horner(s.drop_first(), (n - 1) as nat),
    decreases n,
{
    let t = s.drop_first();
    let c = code_at(s, 0);
    if n > 1 {
        lemma_horner_split(s, (n - 1) as nat);
        assert(code_at(s, n - 1) == code_at(t, n - 2));
        lemma_mul_assoc12(c, pow12((n - 2) as nat));
        let p = pow12((n - 2) as nat);
        let h = horner(t, (n - 2) as nat);
        assert(horner(s, (n - 1) as nat) == c * p + h);
        assert(horner(s, n) == (c * p + h) * 12 + code_at(t, n - 2));
        assert((c * p + h) * 12 == (c * p) * 12 + h * 12);
        assert(pow12((n - 1) as nat) == 12 * p);
        assert(horner(t, (n - 1) as nat) == h * 12 + code_at(t, n - 2));
    } else {
        assert(pow12(0) == 1);
        assert(c * 1 == c);
        assert(horner(t, 0) == 0);
        assert(horner(s, 0) == 0);
    }
}

proof fn lemma_place_order(c1: nat, x: nat, c2: nat, y: nat, p: nat)
    requires
        c1 < c2,
        x < p,
        y < p,
    ensures
        c1 * p + x < c2 * p + y,
{
    assert(c1 * p + x < c2 * p + y) by (nonlinear_arith)
        requires
            c1 < c2,
            x < p,
            y < p,
    ;
}

proof fn lemma_horner_order(a: Seq<char>, b: Seq<char>, n: nat)
    requires
        ip_shaped(a),
        ip_shaped(b),
        a.len() <= n,
        b.len() <= n,
    ensures
        horner(a, n) < horner(b, n) <==> str_lt(a, b),
        horner(a, n) == horner(b, n) <==> a == b,
    decreases n,
{
    if a.len() == 0 && b.len() == 0 {
        lemma_horner_empty(a, n);
        lemma_horner_empty(b, n);
        assert(a == b);
    } else if a.len() == 0 {
        lemma_horner_empty(a, n);
        lemma_horner_split(b, n);
        lemma_code(b[0]);
        lemma_horner_bound(b, (n - 1) as nat);
        assert(code_at(b, 0) * pow12((n - 1) as nat) >= pow12((n - 1) as nat)) by (nonlinear_arith)
            requires
                code_at(b, 0) >= 1,
        ;
    } else if b.len() == 0 {
        lemma_horner_empty(b, n);
        lemma_horner_split(a, n);
        lemma_code(a[0]);
        lemma_horner_bound(a, (n - 1) as nat);
        assert(code_at(a, 0) * pow12((n - 1) as nat) >= pow12((n - 1) as nat)) by (nonlinear_arith)
            requires
                code_at(a, 0) >= 1,
        ;
    } else {
        let ta = a.drop_first();
        let tb = b.drop_first();
        let p = pow12((n - 1) as nat);
        lemma_horner_split(a, n);
        lemma_horner_split(b, n);
        assert(ip_shaped(ta));
        assert(ip_shaped(tb));
        lemma_horner_bound(ta, (n - 1) as nat);
        lemma_horner_bound(tb, (n - 1) as nat);
        lemma_code_order(a[0], b[0]);
        let ca = code_at(a, 0);
        let cb = code_at(b, 0);
        let ha = horner(ta, (n - 1) as nat);
        let hb = horner(tb, (n - 1) as nat);
        if a[0] < b[0] {
            lemma_place_order(ca, ha, cb, hb, p);
        } else if b[0] < a[0] {
            lemma_place_order(cb, hb, ca, ha, p);
        } else {
            lemma_horner_order(ta, tb, (n - 1) as nat);
            assert(a == b <==> ta == tb) by {
                if ta == tb {
                    assert(a =~= seq![a[0]] + ta);
                    assert(b =~= seq![b[0]] + tb);
                }
            }
        }
    }
}

/// Distinct addresses have distinct keys, and keys compare as the addresses
/// do as strings.
pub proof fn lemma_ip_key_order(a: Seq<char>, b: Seq<char>)
    requires
        ip_shaped(a),
        ip_shaped(b),
    ensures
        ip_key(a) < ip_key(b) <==> str_lt(a, b),
        ip_key(a) == ip_key(b) <==> a == b,
{
    lemma_horner_order(a, b, 15);
}

/// Every key fits in 54 bits.
pub proof fn lemma_ip_key_bound(a: Seq<char>)
    requires
        ip_shaped(a),
    ensures
        ip_key(a) < 15407021574586368,
{
    lemma_horner_bound(a, 15);
    lemma_pow12_15();
}

/// The key as a `u64`.
pub open spec fn key_u64(s: Seq<char>) -> u64 {
    ip_key(s) as u64
}

/// For an address the key fits, so `key_u64` loses nothing.
pub proof fn lemma_key_u64(a: Seq<char>)
    requires
        ip_shaped(a),
    ensures
        key_u64(a) as nat == ip_key(a),
{
    lemma_ip_key_bound(a);
}

/// Computes the key of an address.
pub fn ip_key_of(ip: &str) -> (k: u64)
    requires
        ip_shaped(ip@),
    ensures
        k as nat == ip_key(ip@),
        k == key_u64(ip@),
{
    let v = chars_of(ip);
    let ghost s = v@;
    let mut acc: u64 = 0;
    let mut i: usize = 0;
    proof {
        lemma_pow12_15();
    }
    while i < 15
        invariant
            i <= 15,
            s == v@,
            ip_shaped(s),
            acc as nat == horner(s, i as nat),
            acc < pow12(i as nat),
            pow12(15) == 15407021574586368,
        decreases 15 - i,
    {
        let c: u64 = if i < v.len() {
            proof {
                lemma_code(v@[i as int]);
            }
            if v[i] == '.' {
                1
            } else {
                ((v[i] as u32) - ('0' as u32) + 2) as u64
            }
        } else {
            0
        };
        proof {
            lemma_horner_bound(s, (i + 1) as nat);
            lemma_pow12_mono(i as nat + 1, 15);
        }
        acc = acc * 12 + c;
        i += 1;
    }
    acc
}

proof fn lemma_pow12_15()
    ensures
        pow12(15) == 15407021574586368,
{
    reveal_with_fuel(pow12, 16);
}

proof fn lemma_pow12_mono(m: nat, n: nat)
    requires
        m <= n,
    ensures
        pow12(m) <= pow12(n),
    decreases n - m,
{
    if m < n {
        lemma_pow12_mono(m, (n - 1) as nat);
    }
}

/// Whether a string has the shape of an address in ASCII digits: at most 15
/// characters, each an ASCII digit or a dot.
pub fn is_ip_shaped(ip: &str) -> (r: bool)
    ensures
        r == ip_shaped(ip@),
{
    let v = chars_of(ip);
    if v.len() > 15 {
        return false;
    }
    let mut i: usize = 0;
    while i < v.len()
        invariant
            i <= v.len(),
            v@ == ip@,
            forall|k: int| 0 <= k < i ==> is_digit(#[trigger] v@[k]) || v@[k] == '.',
        decreases v.len() - i,
    {
        let c = v[i];
        if !(('0' <= c && c <= '9') || c == '.') {
            return false;
        }
        i += 1;
    }
    true
}

} // verus!
