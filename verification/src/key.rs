//! The key of a ring buffer, as it is written on the command line.

use crate::digits::{is_sign, MINUS, PLUS};
use vstd::prelude::*;

verus! {

/// The value of a hexadecimal digit, in either case.
pub open spec fn hex_digit(b: u8) -> Option<nat> {
    if 0x30 <= b <= 0x39 {
        Some((b - 0x30) as nat)
    } else if 0x61 <= b <= 0x66 {
        Some((b - 0x61 + 10) as nat)
    } else if 0x41 <= b <= 0x46 {
        Some((b - 0x41 + 10) as nat)
    } else {
        None
    }
}

/// Whether every byte of `s` is a hexadecimal digit.
pub open spec fn all_hex(s: Seq<u8>) -> bool {
    forall|i: int| 0 <= i < s.len() ==> hex_digit(#[trigger] s[i]) is Some
}

/// The number that the hexadecimal digits `s` denote, most significant first.
pub open spec fn hex_value(s: Seq<u8>) -> nat
    decreases s.len(),
{
    if s.len() == 0 {
        0
    } else {
        hex_value(s.drop_last()) * 16 + match hex_digit(s.last()) {
            Some(v) => v,
            None => 0nat,
        }
    }
}

/// The digits of a key text: the text without one leading sign.
pub open spec fn key_digits(s: Seq<u8>) -> Seq<u8> {
    if s.len() > 0 && is_sign(s[0]) {
        s.skip(1)
    } else {
        s
    }
}

/// The key that a text names: an optional sign, then one or more hexadecimal
/// digits and nothing else, denoting a number that an `i32` holds. `None`
/// for any other text.
pub open spec fn key_value(s: Seq<u8>) -> Option<int> {
    let d = key_digits(s);
    let v: int = if s.len() > 0 && s[0] == MINUS {
        -(hex_value(d) as int)
    } else {
        hex_value(d) as int
    };
    if d.len() > 0 && all_hex(d) && i32::MIN <= v <= i32::MAX {
        Some(v)
    } else {
        None
    }
}

/// A run of hexadecimal digits denotes at least what any of its prefixes
/// denotes.
pub proof fn lemma_hex_value_prefix(s: Seq<u8>, k: int)
    requires
        0 <= k <= s.len(),
    ensures
        hex_value(s.subrange(0, k)) <= hex_value(s),
    decreases s.len(),
{
    if k == s.len() {
        assert(s.subrange(0, k) =~= s);
    } else {
        lemma_hex_value_prefix(s.drop_last(), k);
        assert(s.drop_last().subrange(0, k) =~= s.subrange(0, k));
    }
}

/// The value of a hexadecimal digit, if `b` is one.
fn hex_digit_of(b: u8) -> (r: Option<u8>)
    ensures
        match r {
            Some(v) => hex_digit(b) == Some(v as nat) && v < 16,
            None => hex_digit(b) is None,
        },
{
    if 0x30 <= b && b <= 0x39 {
        Some(b - 0x30)
    } else if 0x61 <= b && b <= 0x66 {
        Some(b - 0x61 + 10)
    } else if 0x41 <= b && b <= 0x46 {
        Some(b - 0x41 + 10)
    } else {
        None
    }
}

/// Reads a ring-buffer key in hexadecimal.
pub fn parse_key(text: &[u8]) -> (r: Option<i32>)
    ensures
        match r {
            Some(key) => key_value(text@) == Some(key as int),
            None => key_value(text@) is None,
        },
{
    let n: usize = text.len();
    let negative: bool = n > 0 && text[0] == MINUS;
    let start: usize = if n > 0 && (text[0] == PLUS || text[0] == MINUS) {
        1
    } else {
        0
    };
    let ghost d = key_digits(text@);
    assert(d =~= text@.subrange(start as int, n as int));
    if start == n {
        return None;
    }
    let limit: u64 = if negative {
        0x8000_0000
    } else {
        0x7fff_ffff
    };
    let mut acc: u64 = 0;
    let mut i: usize = start;
    while i < n
        invariant
            start <= i <= n,
            n == text@.len(),
            d == key_digits(text@),
            d == text@.subrange(start as int, n as int),
            all_hex(d.subrange(0, i - start)),
            acc as nat == hex_value(d.subrange(0, i - start)),
            acc <= limit,
            negative == (n > 0 && text@[0] == MINUS),
            limit == (if negative {
                0x8000_0000u64
            } else {
                0x7fff_ffffu64
            }),
        decreases n - i,
    {
        let digit: u64 = match hex_digit_of(text[i]) {
            Some(v) => v as u64,
            None => {
                assert(hex_digit(d[i - start]) is None);
                return None;
            },
        };
        let ghost next = d.subrange(0, i - start + 1);
        assert(next.drop_last() =~= d.subrange(0, i - start));
        assert(next.last() == text@[i as int]);
        assert(hex_value(next) == acc as nat * 16 + digit as nat);
        if acc * 16 + digit > limit {
            proof {
                lemma_hex_value_prefix(d, i - start + 1);
            }
            return None;
        }
        acc = acc * 16 + digit;
        i = i + 1;
    }
    assert(d.subrange(0, n - start) =~= d);
    if negative {
        Some((-(acc as i64)) as i32)
    } else {
        Some(acc as i32)
    }
}

} // verus!
