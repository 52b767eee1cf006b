//! Recognisers for the numeric texts of an observation header, on bytes.

use vstd::prelude::*;

verus! {

/// The byte `+`.
pub const PLUS: u8 = 0x2b;

/// The byte `-`.
pub const MINUS: u8 = 0x2d;

/// The byte `.`.
pub const DOT: u8 = 0x2e;

/// Whether `b` is an ASCII decimal digit.
pub open spec fn is_digit(b: u8) -> bool {
    0x30 <= b <= 0x39
}

/// Whether `b` is `+` or `-`.
pub open spec fn is_sign(b: u8) -> bool {
    b == PLUS || b == MINUS
}

/// Whether `b` is `e` or `E`.
pub open spec fn is_exponent_mark(b: u8) -> bool {
    b == 0x65 || b == 0x45
}

/// Whether every byte of `s` is a decimal digit.
pub open spec fn all_digits(s: Seq<u8>) -> bool {
    forall|i: int| 0 <= i < s.len() ==> is_digit(#[trigger] s[i])
}

/// The number that the decimal digits `s` denote, most significant first.
pub open spec fn decimal_value(s: Seq<u8>) -> nat
    decreases s.len(),
{
    if s.len() == 0 {
        0
    } else {
        decimal_value(s.drop_last()) * 10 + (s.last() - 0x30) as nat
    }
}

/// The digits of an unsigned decimal text: the text without one leading `+`.
pub open spec fn unsigned_digits(s: Seq<u8>) -> Seq<u8> {
    if s.len() > 0 && s[0] == PLUS {
        s.skip(1)
    } else {
        s
    }
}

/// The value of an unsigned decimal text that is at most `max`: an optional
/// `+`, then one or more decimal digits and nothing else. `None` for any other
/// text and for a value above `max`.
pub open spec fn unsigned_value(s: Seq<u8>, max: nat) -> Option<nat> {
    let d = unsigned_digits(s);
    if d.len() > 0 && all_digits(d) && decimal_value(d) <= max {
        Some(decimal_value(d))
    } else {
        None
    }
}

/// A run of digits denotes at least what any of its prefixes denotes.
pub proof fn lemma_decimal_value_prefix(s: Seq<u8>, k: int)
    requires
        0 <= k <= s.len(),
    ensures
        decimal_value(s.subrange(0, k)) <= decimal_value(s),
    decreases s.len(),
{
    if k == s.len() {
        assert(s.subrange(0, k) =~= s);
    } else {
        lemma_decimal_value_prefix(s.drop_last(), k);
        assert(s.drop_last().subrange(0, k) =~= s.subrange(0, k));
    }
}

/// Reads an unsigned decimal number that is at most `max`.
pub fn parse_unsigned(text: &[u8], max: u64) -> (r: Option<u64>)
    ensures
        match r {
            Some(v) => unsigned_value(text@, max as nat) == Some(v as nat),
            None => unsigned_value(text@, max as nat) is None,
        },
{
    let n: usize = text.len();
    let start: usize = if n > 0 && text[0] == PLUS {
        1
    } else {
        0
    };
    let ghost d = unsigned_digits(text@);
    assert(d =~= text@.subrange(start as int, n as int));
    if start == n {
        return None;
    }
    let mut acc: u64 = 0;
    let mut i: usize = start;
    while i < n
        invariant
            start <= i <= n,
            n == text@.len(),
            d == unsigned_digits(text@),
            d == text@.subrange(start as int, n as int),
            all_digits(d.subrange(0, i - start)),
            acc as nat == decimal_value(d.subrange(0, i - start)),
            acc <= max,
        decreases n - i,
    {
        let b: u8 = text[i];
        if b < 0x30 || b > 0x39 {
            assert(!is_digit(d[i - start]));
            return None;
        }
        let digit: u64 = (b - 0x30) as u64;
        let ghost next = d.subrange(0, i - start + 1);
        assert(next.drop_last() =~= d.subrange(0, i - start));
        assert(next.last() == b);
        assert(decimal_value(next) == acc as nat * 10 + digit as nat);
        if digit > max || acc > (max - digit) / 10 {
            proof {
                lemma_decimal_value_prefix(d, i - start + 1);
            }
            return None;
        }
        acc = acc * 10 + digit;
        i = i + 1;
    }
    assert(d.subrange(0, n - start) =~= d);
    Some(acc)
}

/// The end of the longest run of decimal digits of `s` that starts at `from`.
pub open spec fn digits_end(s: Seq<u8>, from: int) -> int
    decreases s.len() - from,
{
    if 0 <= from < s.len() && is_digit(s[from]) {
        digits_end(s, from + 1)
    } else {
        from
    }
}

/// Whether `s` from `at` on is empty or an exponent: `e` or `E`, an optional
/// sign, then one or more digits up to the end of `s`.
pub open spec fn is_exponent_at(s: Seq<u8>, at: int) -> bool {
    at == s.len() || (0 <= at < s.len() && is_exponent_mark(s[at]) && {
        let d = if at + 1 < s.len() && is_sign(s[at + 1]) {
            at + 2
        } else {
            at + 1
        };
        d < s.len() && digits_end(s, d) == s.len()
    })
}

/// Whether `s` from `at` on is a decimal number: digits with at most one `.`
/// among, before or after them, at least one digit in all, then an optional
/// exponent.
pub open spec fn is_number_at(s: Seq<u8>, at: int) -> bool {
    let a = digits_end(s, at);
    if a < s.len() && s[a] == DOT {
        let b = digits_end(s, a + 1);
        (a - at) + (b - (a + 1)) > 0 && is_exponent_at(s, b)
    } else {
        a > at && is_exponent_at(s, a)
    }
}

/// The lower-case form of an ASCII letter; any other byte unchanged.
pub open spec fn lower(b: u8) -> u8 {
    if 0x41 <= b <= 0x5a {
        (b + 0x20) as u8
    } else {
        b
    }
}

/// Whether `s` from `at` on is `word`, upper and lower case taken as one.
pub open spec fn is_word_at(s: Seq<u8>, at: int, word: Seq<u8>) -> bool {
    s.len() - at == word.len() && forall|i: int|
        0 <= i < word.len() ==> lower(#[trigger] s[at + i]) == word[i]
}

/// The bytes of `inf`.
pub open spec fn word_inf() -> Seq<u8> {
    seq![0x69u8, 0x6eu8, 0x66u8]
}

/// The bytes of `infinity`.
pub open spec fn word_infinity() -> Seq<u8> {
    seq![0x69u8, 0x6eu8, 0x66u8, 0x69u8, 0x6eu8, 0x69u8, 0x74u8, 0x79u8]
}

/// The bytes of `nan`.
pub open spec fn word_nan() -> Seq<u8> {
    seq![0x6eu8, 0x61u8, 0x6eu8]
}

/// Whether `s` is the text of a real number: an optional sign, then a decimal
/// number or one of the words `inf`, `infinity` and `nan` in any case. No
/// blank and no other byte may stand before, in or after it.
pub open spec fn is_real(s: Seq<u8>) -> bool {
    s.len() > 0 && {
        let at: int = if is_sign(s[0]) {
            1
        } else {
            0
        };
        is_number_at(s, at) || is_word_at(s, at, word_inf()) || is_word_at(
            s,
            at,
            word_infinity(),
        ) || is_word_at(s, at, word_nan())
    }
}

/// The end of the run of digits of `text` that starts at `from`.
fn scan_digits(text: &[u8], from: usize) -> (end: usize)
    requires
        from <= text@.len(),
    ensures
        end == digits_end(text@, from as int),
        from <= end <= text@.len(),
{
    let n: usize = text.len();
    let mut i: usize = from;
    while i < n && text[i] >= 0x30 && text[i] <= 0x39
        invariant
            from <= i <= n,
            n == text@.len(),
            digits_end(text@, from as int) == digits_end(text@, i as int),
        decreases n - i,
    {
        i = i + 1;
    }
    i
}

/// Whether `text` from `at` on is empty or an exponent.
fn exponent_follows(text: &[u8], at: usize) -> (r: bool)
    requires
        at <= text@.len(),
    ensures
        r == is_exponent_at(text@, at as int),
{
    let n: usize = text.len();
    if at == n {
        return true;
    }
    if text[at] != 0x65 && text[at] != 0x45 {
        return false;
    }
    let d: usize = if at + 1 < n && (text[at + 1] == PLUS || text[at + 1] == MINUS) {
        at + 2
    } else {
        at + 1
    };
    if d >= n {
        return false;
    }
    scan_digits(text, d) == n
}

/// Whether `text` from `at` on is a decimal number.
fn number_follows(text: &[u8], at: usize) -> (r: bool)
    requires
        at <= text@.len(),
    ensures
        r == is_number_at(text@, at as int),
{
    let n: usize = text.len();
    let a: usize = scan_digits(text, at);
    if a < n && text[a] == DOT {
        let b: usize = scan_digits(text, a + 1);
        (a - at) + (b - (a + 1)) > 0 && exponent_follows(text, b)
    } else {
        a > at && exponent_follows(text, a)
    }
}

/// Whether `text` from `at` on is `word`, which holds lower-case letters.
fn word_follows(text: &[u8], at: usize, word: &[u8]) -> (r: bool)
    requires
        at <= text@.len(),
    ensures
        r == is_word_at(text@, at as int, word@),
{
    let n: usize = text.len();
    let m: usize = word.len();
    if n - at != m {
        return false;
    }
    let mut i: usize = 0;
    while i < m
        invariant
            0 <= i <= m,
            m == word@.len(),
            n == text@.len(),
            n - at == m,
            forall|j: int| 0 <= j < i ==> lower(#[trigger] text@[at + j]) == word@[j],
        decreases m - i,
    {
        let b: u8 = text[at + i];
        let folded: u8 = if b >= 0x41 && b <= 0x5a {
            b + 0x20
        } else {
            b
        };
        if folded != word[i] {
            assert(lower(text@[at + i]) != word@[i as int]);
            return false;
        }
        i = i + 1;
    }
    true
}

/// Whether `text` is the text of a real number.
pub fn is_real_text(text: &[u8]) -> (r: bool)
    ensures
        r == is_real(text@),
{
    let n: usize = text.len();
    if n == 0 {
        return false;
    }
    let at: usize = if text[0] == PLUS || text[0] == MINUS {
        1
    } else {
        0
    };
    if number_follows(text, at) {
        return true;
    }
    let inf: [u8; 3] = [0x69, 0x6e, 0x66];
    let infinity: [u8; 8] = [0x69, 0x6e, 0x66, 0x69, 0x6e, 0x69, 0x74, 0x79];
    let nan: [u8; 3] = [0x6e, 0x61, 0x6e];
    assert(inf@ =~= word_inf());
    assert(infinity@ =~= word_infinity());
    assert(nan@ =~= word_nan());
    word_follows(text, at, inf.as_slice()) || word_follows(text, at, infinity.as_slice())
        || word_follows(text, at, nan.as_slice())
}

/// Whether the bytes of `s` from `from` up to `to` are decimal digits.
pub open spec fn digits_between(s: Seq<u8>, from: int, to: int) -> bool {
    0 <= from <= to <= s.len() && forall|i: int| from <= i < to ==> is_digit(#[trigger] s[i])
}

/// Whether `s` from `from` to its end is an exponent whose digits start at
/// `d`: `e` or `E`, then the digits at once or after one sign.
pub open spec fn exponent_spans(s: Seq<u8>, from: int, d: int) -> bool {
    &&& 0 <= from < s.len()
    &&& is_exponent_mark(s[from])
    &&& d == from + 1 || (d == from + 2 && d <= s.len() && is_sign(s[from + 1]))
    &&& d < s.len()
    &&& digits_between(s, d, s.len() as int)
}

/// Whether `s` from `at` to its end is a decimal number whose whole part
/// ends at `a` and whose mantissa ends at `b`: digits up to `a`; then either
/// nothing more of the mantissa, or a `.` and digits up to `b`; at least one
/// digit in the mantissa; then the end of `s`, or an exponent.
pub open spec fn number_spans(s: Seq<u8>, at: int, a: int, b: int) -> bool {
    &&& digits_between(s, at, a)
    &&& (b == a && a > at) || (a < s.len() && s[a] == DOT && digits_between(s, a + 1, b) && (a
        - at) + (b - (a + 1)) > 0)
    &&& b == s.len() || exists|d: int| exponent_spans(s, b, d)
}

/// The longest run of digits from `from` ends where the digits end.
pub proof fn lemma_digits_end(s: Seq<u8>, from: int)
    requires
        0 <= from <= s.len(),
    ensures
        digits_between(s, from, digits_end(s, from)),
        digits_end(s, from) == s.len() || !is_digit(s[digits_end(s, from)]),
    decreases s.len() - from,
{
    if from < s.len() && is_digit(s[from]) {
        lemma_digits_end(s, from + 1);
    }
}

/// A run of digits that cannot be made longer is the longest run.
pub proof fn lemma_digits_end_is(s: Seq<u8>, from: int, to: int)
    requires
        digits_between(s, from, to),
        to == s.len() || !is_digit(s[to]),
    ensures
        digits_end(s, from) == to,
    decreases to - from,
{
    if from < to {
        assert(is_digit(s[from]));
        lemma_digits_end_is(s, from + 1, to);
    }
}

/// The text of a decimal number follows the grammar
/// `(D+ | D+ '.' D* | D* '.' D+) (('e' | 'E') ('+' | '-')? D+)?`, where `D`
/// is a decimal digit: `is_number_at` holds exactly of the texts that can be
/// split that way.
pub proof fn lemma_number_grammar(s: Seq<u8>, at: int)
    requires
        0 <= at <= s.len(),
    ensures
        is_number_at(s, at) <==> exists|a: int, b: int| number_spans(s, at, a, b),
{
    let a0 = digits_end(s, at);
    lemma_digits_end(s, at);
    let dotted = a0 < s.len() && s[a0] == DOT;
    let b0 = if dotted {
        digits_end(s, a0 + 1)
    } else {
        a0
    };
    if dotted {
        lemma_digits_end(s, a0 + 1);
    }
    if is_number_at(s, at) {
        if b0 != s.len() {
            let d0 = if b0 + 1 < s.len() && is_sign(s[b0 + 1]) {
                b0 + 2
            } else {
                b0 + 1
            };
            lemma_digits_end(s, d0);
            assert(exponent_spans(s, b0, d0));
        }
        assert(number_spans(s, at, a0, b0));
    }
    if exists|a: int, b: int| number_spans(s, at, a, b) {
        let (a, b) = choose|a: int, b: int| number_spans(s, at, a, b);
        if b != s.len() {
            let d = choose|d: int| exponent_spans(s, b, d);
            lemma_digits_end_is(s, d, s.len() as int);
            assert(is_digit(s[d]));
            assert(is_exponent_at(s, b));
        }
        lemma_digits_end_is(s, at, a);
        if b != a {
            lemma_digits_end_is(s, a + 1, b);
        }
        assert(is_number_at(s, at));
    }
}

} // verus!
