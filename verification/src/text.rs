//! Characters, character classes and small string builders shared by the
//! parser and the table renderers.
use vstd::prelude::*;

verus! {

/// ASCII decimal digit `0`..`9`.
pub open spec fn is_digit(c: char) -> bool {
    '0' <= c && c <= '9'
}

/// The numeric value of an ASCII digit.
pub open spec fn digit_value(c: char) -> nat {
    ((c as u32) - ('0' as u32)) as nat
}

/// The ASCII digit for a value below ten.
pub open spec fn digit_char(d: nat) -> char {
    ((d + ('0' as u32)) as u32) as char
}

/// Unicode `White_Space`: the characters that a `\s` class matches.
pub open spec fn is_white_space(c: char) -> bool {
    let u = c as u32;
    ||| 0x09 <= u <= 0x0d
    ||| u == 0x20
    ||| u == 0x85
    ||| u == 0xa0
    ||| u == 0x1680
    ||| 0x2000 <= u <= 0x200a
    ||| u == 0x2028
    ||| u == 0x2029
    ||| u == 0x202f
    ||| u == 0x205f
    ||| u == 0x3000
}

/// ASCII letters, digits and the underscore.
pub open spec fn is_ascii_word(c: char) -> bool {
    ||| is_digit(c)
    ||| ('a' <= c && c <= 'z')
    ||| ('A' <= c && c <= 'Z')
    ||| c == '_'
}

/// Whether a character is a Unicode word character (the class `\w`), as
/// decided by `regex_syntax::is_word_character`.
pub uninterp spec fn unicode_word_char(c: char) -> bool;

/// Calls `regex_syntax::is_word_character`, which looks `c` up in the Unicode
/// `\w` table (`Alphabetic`, `Mark`, `Decimal_Number`,
/// `Connector_Punctuation`, `Join_Control`). The contract names the result and
/// states only what the source shows for ASCII characters, which it checks
/// before the table: they are word characters exactly when they are in
/// `[_0-9a-zA-Z]`.
#[verifier::external_body]
pub(crate) fn is_word_char(c: char) -> (r: bool)
    ensures
        r == unicode_word_char(c),
        (c as u32) < 128 ==> (r <==> is_ascii_word(c)),
{
    regex_syntax::is_word_character(c)
}

/// The ranges of the Unicode class that `regex_syntax::parse` makes of
/// `pattern`, when it makes one.
pub uninterp spec fn pattern_class(pattern: Seq<char>) -> Option<Seq<(char, char)>>;

/// Calls `regex_syntax::parse` on `pattern` and, when the expression is a
/// Unicode class, hands back its ranges as pairs of their first and last
/// characters. The contract names the result. For the pattern `\d` it also
/// states what the source shows: the expression is the Unicode class of the
/// `Decimal_Number` table, kept in canonical order (ascending, each range's
/// start at most its end), whose first range is `'0'..='9'` and whose other
/// ranges all start beyond ASCII. The rest of the table is left unsaid.
#[verifier::external_body]
pub(crate) fn class_ranges(pattern: &str) -> (r: Option<Vec<(char, char)>>)
    ensures
        match r {
            Some(v) => pattern_class(pattern@) == Some(v@),
            None => pattern_class(pattern@) is None,
        },
        pattern@ == seq!['\\', 'd'] ==> r is Some,
        pattern@ == seq!['\\', 'd'] ==> r->0@.len() > 0 && r->0@[0] == ('0', '9'),
        pattern@ == seq!['\\', 'd'] ==> forall|i: int|
            0 <= i < r->0@.len() ==> #[trigger] r->0@[i].0 <= r->0@[i].1,
        pattern@ == seq!['\\', 'd'] ==> forall|i: int|
            1 <= i < r->0@.len() ==> #[trigger] r->0@[i].0 > '\u{7f}',
{
    match regex_syntax::parse(pattern) {
        Ok(hir) => match hir.kind() {
            regex_syntax::hir::HirKind::Class(regex_syntax::hir::Class::Unicode(cls)) => Some(
                cls.ranges().iter().map(|x| (x.start(), x.end())).collect(),
            ),
            _ => None,
        },
        Err(_) => None,
    }
}

/// The ranges of the Unicode decimal digits (the class `\d`).
pub open spec fn decimal_table() -> Seq<(char, char)> {
    match pattern_class(seq!['\\', 'd']) {
        Some(v) => v,
        None => Seq::empty(),
    }
}

/// A Unicode decimal digit (general category `Nd`): what `\d` matches.
pub open spec fn is_decimal(c: char) -> bool {
    exists|i: int| 0 <= i < decimal_table().len() && #[trigger] decimal_table()[i].0 <= c <= decimal_table()[i].1
}

/// Among ASCII characters, the decimal digits are exactly `0`..`9`.
pub open spec fn ascii_decimals_exact() -> bool {
    forall|c: char| c <= '\u{7f}' ==> (#[trigger] is_decimal(c) <==> is_digit(c))
}

/// The decimal-digit class, read once from `regex_syntax`.
pub struct DecimalClass {
    ranges: Vec<(char, char)>,
}

impl DecimalClass {
    pub closed spec fn wf(&self) -> bool {
        self.ranges@ == decimal_table()
    }

    /// Reads the class of `\d`.
    pub fn new() -> (d: Self)
        ensures
            d.wf(),
            ascii_decimals_exact(),
    {
        let pattern = "\\d";
        proof {
            reveal_strlit("\\d");
        }
        let r = class_ranges(pattern);
        match r {
            Some(v) => {
                let d = DecimalClass { ranges: v };
                proof {
                    assert(pattern@ =~= seq!['\\', 'd']);
                    assert(decimal_table() == v@);
                    assert forall|c: char| c <= '\u{7f}' implies (#[trigger] is_decimal(c) <==> is_digit(c)) by {
                        if is_digit(c) {
                            assert(decimal_table()[0].0 <= c <= decimal_table()[0].1);
                        }
                        if is_decimal(c) {
                            let i = choose|i: int| 0 <= i < decimal_table().len() && #[trigger] decimal_table()[i].0 <= c <= decimal_table()[i].1;
                            if i >= 1 {
                                assert(v@[i].0 > '\u{7f}');
                            }
                        }
                    }
                }
                d
            },
            None => {
                proof {
                    assert(pattern@ =~= seq!['\\', 'd']);
                }
                DecimalClass { ranges: Vec::new() }
            },
        }
    }

    /// Whether `c` is a Unicode decimal digit.
    pub fn contains(&self, c: char) -> (r: bool)
        requires
            self.wf(),
        ensures
            r == is_decimal(c),
    {
        let mut i: usize = 0;
        while i < self.ranges.len()
            invariant
                i <= self.ranges@.len(),
                self.wf(),
                forall|k: int| 0 <= k < i ==> !(#[trigger] decimal_table()[k].0 <= c && c <= decimal_table()[k].1),
            decreases self.ranges.len() - i,
        {
            let (lo, hi) = self.ranges[i];
            if lo <= c && c <= hi {
                return true;
            }
            i += 1;
        }
        false
    }
}

pub fn is_digit_char(c: char) -> (r: bool)
    ensures
        r == is_digit(c),
{
    '0' <= c && c <= '9'
}

pub fn is_white_space_char(c: char) -> (r: bool)
    ensures
        r == is_white_space(c),
{
    let u = c as u32;
    (0x09 <= u && u <= 0x0d) || u == 0x20 || u == 0x85 || u == 0xa0 || u == 0x1680 || (0x2000
        <= u && u <= 0x200a) || u == 0x2028 || u == 0x2029 || u == 0x202f || u == 0x205f || u
        == 0x3000
}

/// The characters of a string slice, in order.
pub fn chars_of(s: &str) -> (v: Vec<char>)
    ensures
        v@ == s@,
{
    let mut v: Vec<char> = Vec::new();
    for c in it: s.chars()
        invariant
            v@ == it.seq().take(it.index() as int),
            it.seq() == s@,
    {
        v.push(c);
    }
    v
}

/// Calls `String::push`, which std documents as appending the character to
/// the end of the string; the contract claims exactly that of the string's
/// characters after the call.
#[verifier::external_body]
pub(crate) fn push_char(s: &mut String, c: char)
    ensures
        final(s)@ == old(s)@.push(c),
{
    s.push(c);
}

/// The string made of `v[lo..hi]`.
pub fn string_of(v: &Vec<char>, lo: usize, hi: usize) -> (s: String)
    requires
        lo <= hi <= v.len(),
    ensures
        s@ == v@.subrange(lo as int, hi as int),
{
    let mut s = String::new();
    let mut i = lo;
    while i < hi
        invariant
            lo <= i <= hi <= v.len(),
            s@ == v@.subrange(lo as int, i as int),
        decreases hi - i,
    {
        push_char(&mut s, v[i]);
        assert(v@.subrange(lo as int, i + 1) == v@.subrange(lo as int, i as int).push(v@[i as int]));
        i += 1;
    }
    s
}

/// The decimal representation of a number, without leading zeros.
pub open spec fn decimal(n: nat) -> Seq<char>
    decreases n,
{
    if n < 10 {
        seq![digit_char(n)]
    } else {
        decimal(n / 10).push(digit_char(n % 10))
    }
}

/// `n` spaces.
pub open spec fn spaces(n: nat) -> Seq<char> {
    Seq::new(n, |_i: int| ' ')
}

/// `s` followed by spaces up to `width` characters (the `{:<width}` format).
pub open spec fn pad_right(s: Seq<char>, width: nat) -> Seq<char> {
    if s.len() >= width {
        s
    } else {
        s + spaces((width - s.len()) as nat)
    }
}

/// `s` preceded by spaces up to `width` characters (the `{:>width}` format).
pub open spec fn pad_left(s: Seq<char>, width: nat) -> Seq<char> {
    if s.len() >= width {
        s
    } else {
        spaces((width - s.len()) as nat) + s
    }
}

/// Renders a number in decimal.
pub fn decimal_string(n: u64) -> (s: String)
    ensures
        s@ == decimal(n as nat),
{
    // digits, least significant first
    let mut rev: Vec<char> = Vec::new();
    let mut m = n;
    let ghost mut low: Seq<char> = Seq::empty();
    loop
        invariant_except_break
            decimal(n as nat) == decimal(m as nat) + low,
        invariant
            rev@.len() == low.len(),
            forall|i: int| 0 <= i < low.len() ==> rev@[i] == low[low.len() - 1 - i],
        ensures
            decimal(n as nat) == low,
        decreases m,
    {
        let d = (m % 10) as u32;
        let c = char_of_digit(d);
        rev.push(c);
        let ghost old_low = low;
        proof {
            low = seq![c] + old_low;
        }
        if m < 10 {
            assert(decimal(m as nat) == seq![c]);
            assert(decimal(n as nat) == low);
            break;
        }
        assert(decimal(m as nat) == decimal((m / 10) as nat).push(c));
        assert(decimal((m / 10) as nat).push(c) + old_low == decimal((m / 10) as nat) + low);
        m = m / 10;
    }
    let mut s = String::new();
    let mut i = rev.len();
    while i > 0
        invariant
            i <= rev@.len(),
            rev@.len() == low.len(),
            forall|j: int| 0 <= j < low.len() ==> rev@[j] == low[low.len() - 1 - j],
            s@ == low.subrange(0, (low.len() - i) as int),
        decreases i,
    {
        i -= 1;
        push_char(&mut s, rev[i]);
        assert(low.subrange(0, (low.len() - i) as int) == low.subrange(
            0,
            (low.len() - i - 1) as int,
        ).push(low[low.len() - 1 - i]));
    }
    assert(low.subrange(0, low.len() as int) == low);
    s
}

/// The ASCII digit for a value below ten.
pub fn char_of_digit(d: u32) -> (c: char)
    requires
        d < 10,
    ensures
        c == digit_char(d as nat),
        is_digit(c),
        digit_value(c) == d,
{
    if d == 0 {
        '0'
    } else if d == 1 {
        '1'
    } else if d == 2 {
        '2'
    } else if d == 3 {
        '3'
    } else if d == 4 {
        '4'
    } else if d == 5 {
        '5'
    } else if d == 6 {
        '6'
    } else if d == 7 {
        '7'
    } else if d == 8 {
        '8'
    } else {
        '9'
    }
}

/// `s` padded with spaces on the right to `width` characters.
pub fn padded_right(s: &str, width: usize) -> (r: String)
    ensures
        r@ == pad_right(s@, width as nat),
{
    let v = chars_of(s);
    let mut r = string_of(&v, 0, v.len());
    assert(v@.subrange(0, v@.len() as int) == v@);
    let mut k = v.len();
    while k < width
        invariant
            v@.len() < width ==> k <= width,
            k >= width ==> k == v@.len() || k == width,
            r@ == v@ + spaces((k - v@.len()) as nat),
            v@.len() <= k,
        decreases width - k,
    {
        push_char(&mut r, ' ');
        assert(spaces((k - v@.len()) as nat).push(' ') == spaces((k + 1 - v@.len()) as nat));
        assert((v@ + spaces((k - v@.len()) as nat)).push(' ') == v@ + spaces((k + 1 - v@.len()) as nat));
        k += 1;
    }
    if v.len() >= width {
        assert(spaces(0) == Seq::<char>::empty());
        assert(v@ + spaces(0) == v@);
    }
    r
}

/// `s` padded with spaces on the left to `width` characters.
pub fn padded_left(s: &str, width: usize) -> (r: String)
    ensures
        r@ == pad_left(s@, width as nat),
{
    let v = chars_of(s);
    let mut r = String::new();
    let mut k = v.len();
    let ghost pad: nat = if v@.len() >= width { 0 } else { (width - v@.len()) as nat };
    while k < width
        invariant
            v@.len() <= k,
            v@.len() < width ==> k <= width,
            k >= width ==> k == v@.len() || k == width,
            r@ == spaces((k - v@.len()) as nat),
        decreases width - k,
    {
        push_char(&mut r, ' ');
        assert(spaces((k - v@.len()) as nat).push(' ') == spaces((k + 1 - v@.len()) as nat));
        k += 1;
    }
    assert(r@ == spaces(pad));
    let mut i: usize = 0;
    while i < v.len()
        invariant
            i <= v@.len(),
            r@ == spaces(pad) + v@.subrange(0, i as int),
        decreases v.len() - i,
    {
        push_char(&mut r, v[i]);
        assert(v@.subrange(0, i + 1) == v@.subrange(0, i as int).push(v@[i as int]));
        assert((spaces(pad) + v@.subrange(0, i as int)).push(v@[i as int]) == spaces(pad) + v@.subrange(0, i + 1));
        i += 1;
    }
    assert(v@.subrange(0, v@.len() as int) == v@);
    if v.len() >= width {
        assert(spaces(0) + v@ == v@);
    }
    r
}

/// Appends a string slice.
pub fn append(s: &mut String, t: &str)
    ensures
        final(s)@ == old(s)@ + t@,
{
    let v = chars_of(t);
    let mut i: usize = 0;
    while i < v.len()
        invariant
            i <= v@.len(),
            v@ == t@,
            s@ == old(s)@ + v@.subrange(0, i as int),
        decreases v.len() - i,
    {
        push_char(s, v[i]);
        assert(v@.subrange(0, i + 1) == v@.subrange(0, i as int).push(v@[i as int]));
        assert((old(s)@ + v@.subrange(0, i as int)).push(v@[i as int]) == old(s)@ + v@.subrange(
            0,
            i + 1,
        ));
        i += 1;
    }
    assert(v@.subrange(0, v@.len() as int) == v@);
}

} // verus!
