//! The observation start: a timestamp text and the instant that it names.

use vstd::prelude::*;
use vstd::utf8::encode_utf8;

verus! {

/// An instant, as the time elapsed on the TAI scale since 1900-01-01 00:00:00
/// TAI: whole centuries of 36525 days, and nanoseconds beyond them.
#[derive(Clone, Copy, Debug, PartialEq, Eq, Structural)]
pub struct StartEpoch {
    pub centuries: i16,
    pub nanoseconds: u64,
}

/// The byte `:`.
pub const COLON: u8 = 0x3a;

/// The byte `-`.
pub const HYPHEN: u8 = 0x2d;

/// The length of a timestamp text.
pub const STAMP_LEN: usize = 19;

/// Whether `b` may stand at place `i` of a timestamp `YYYY-MM-DD-HH:MM:SS`.
pub open spec fn stamp_byte_fits(i: int, b: u8) -> bool {
    if i == 4 || i == 7 || i == 10 {
        b == HYPHEN
    } else if i == 13 || i == 16 {
        b == COLON
    } else {
        0x30 <= b <= 0x39
    }
}

/// Whether `s` has the shape `YYYY-MM-DD-HH:MM:SS`: decimal digits in the
/// places of the letters, the separators as written, and nothing else.
pub open spec fn is_stamp(s: Seq<u8>) -> bool {
    s.len() == STAMP_LEN && forall|i: int| 0 <= i < STAMP_LEN ==> stamp_byte_fits(i, #[trigger] s[i])
}

/// Whether `text` has the shape of a timestamp.
pub fn has_stamp_shape(text: &[u8]) -> (r: bool)
    ensures
        r == is_stamp(text@),
{
    if text.len() != STAMP_LEN {
        return false;
    }
    let mut i: usize = 0;
    while i < STAMP_LEN
        invariant
            0 <= i <= STAMP_LEN,
            text@.len() == STAMP_LEN,
            forall|j: int| 0 <= j < i ==> stamp_byte_fits(j, #[trigger] text@[j]),
        decreases STAMP_LEN - i,
    {
        let b: u8 = text[i];
        let fits: bool = if i == 4 || i == 7 || i == 10 {
            b == HYPHEN
        } else if i == 13 || i == 16 {
            b == COLON
        } else {
            0x30 <= b && b <= 0x39
        };
        if !fits {
            assert(!stamp_byte_fits(i as int, text@[i as int]));
            return false;
        }
        i = i + 1;
    }
    true
}

/// The pattern by which a timestamp is read: year, month, day, hour, minute
/// and second, each as a number.
pub open spec fn stamp_pattern() -> Seq<char> {
    "%Y-%m-%d-%H:%M:%S"@
}

/// What the time library makes of `text` read by `pattern`: the parts of the
/// TAI duration since 1900-01-01 of the instant, or `None` where it finds no
/// instant in the text.
pub uninterp spec fn epoch_parts(text: Seq<char>, pattern: Seq<char>) -> Option<(i16, u64)>;

/// Calls `hifitime::Epoch::from_format_str`, which reads `text` by `pattern`
/// as a date and time of day on the UTC scale, and gives the instant found as
/// the centuries and nanoseconds of `Epoch::to_tai_duration`. The contract
/// claims only that the outcome is settled by the two texts; it is asked for
/// nothing but texts of the timestamp shape, read by the timestamp pattern.
#[verifier::external_body]
fn read_epoch(text: &str, pattern: &str) -> (r: Option<(i16, u64)>)
    requires
        is_stamp(encode_utf8(text@)),
        pattern@ == stamp_pattern(),
    ensures
        r == epoch_parts(text@, pattern@),
{
    match hifitime::Epoch::from_format_str(text, pattern) {
        Ok(epoch) => Some(epoch.to_tai_duration().to_parts()),
        Err(_) => None,
    }
}

/// The instant that the parts of a duration stand for.
pub open spec fn epoch_from_parts(parts: Option<(i16, u64)>) -> Option<StartEpoch> {
    match parts {
        Some((centuries, nanoseconds)) => Some(StartEpoch { centuries, nanoseconds }),
        None => None,
    }
}

/// The instant that a timestamp text names: that of `epoch_parts` for a text
/// of the timestamp shape, none for any other text.
pub open spec fn start_epoch_of(text: Seq<char>) -> Option<StartEpoch> {
    if is_stamp(encode_utf8(text)) {
        epoch_from_parts(epoch_parts(text, stamp_pattern()))
    } else {
        None
    }
}

/// Makes an instant of the parts of a duration, where there are any.
pub fn start_epoch_from_parts(parts: Option<(i16, u64)>) -> (r: Option<StartEpoch>)
    ensures
        r == epoch_from_parts(parts),
{
    match parts {
        Some((centuries, nanoseconds)) => Some(StartEpoch { centuries, nanoseconds }),
        None => None,
    }
}

/// Reads a timestamp `YYYY-MM-DD-HH:MM:SS`, taken on the UTC scale.
pub fn parse_start_epoch(text: &str) -> (r: Option<StartEpoch>)
    ensures
        r == start_epoch_of(text@),
{
    if !has_stamp_shape(text.as_bytes()) {
        return None;
    }
    start_epoch_from_parts(read_epoch(text, "%Y-%m-%d-%H:%M:%S"))
}

} // verus!
