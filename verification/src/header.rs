//! The observation header: a set of named texts, and the typed fields that
//! the conversion needs out of it.

use crate::digits::{is_real, is_real_text, parse_unsigned, unsigned_value};
use crate::epoch::{parse_start_epoch, start_epoch_of, StartEpoch};
use crate::frame::{valid_channel_count, ChannelCount};
use vstd::prelude::*;
use vstd::utf8::encode_utf8;

verus! {

/// The one sample width that is supported, in bits: single precision.
pub const SAMPLE_BITS: u32 = 32;

/// A field that every observation header must hold.
#[derive(Clone, Copy, Debug, PartialEq, Eq, Structural)]
pub enum Field {
    /// Centre frequency in MHz, a real number.
    Freq,
    /// Bandwidth in MHz, a real number whose sign tells the sideband.
    Bw,
    /// Number of channels, a positive whole number.
    Nchan,
    /// Bits per sample, a whole number.
    Nbit,
    /// Sample interval in microseconds, a real number.
    Tsamp,
    /// Start of the observation, a timestamp.
    UtcStart,
}

impl Field {
    /// The name under which the header holds this field.
    pub open spec fn key(self) -> Seq<char> {
        match self {
            Field::Freq => "FREQ"@,
            Field::Bw => "BW"@,
            Field::Nchan => "NCHAN"@,
            Field::Nbit => "NBIT"@,
            Field::Tsamp => "TSAMP"@,
            Field::UtcStart => "UTC_START"@,
        }
    }

    /// The name under which the header holds this field.
    pub fn name(self) -> (r: &'static str)
        ensures
            r@ == self.key(),
    {
        match self {
            Field::Freq => "FREQ",
            Field::Bw => "BW",
            Field::Nchan => "NCHAN",
            Field::Nbit => "NBIT",
            Field::Tsamp => "TSAMP",
            Field::UtcStart => "UTC_START",
        }
    }
}

/// Why a header was turned down.
#[derive(Clone, Copy, Debug, PartialEq, Eq, Structural)]
pub enum HeaderError {
    /// The header holds nothing under the field's name.
    MissingField(Field),
    /// The field's text is not of its type, or its value is not supported.
    MalformedValue(Field),
}

impl HeaderError {
    /// The field that the error is about.
    pub fn field(&self) -> (f: Field)
        ensures
            f == match *self {
                HeaderError::MissingField(g) => g,
                HeaderError::MalformedValue(g) => g,
            },
    {
        match *self {
            HeaderError::MissingField(g) => g,
            HeaderError::MalformedValue(g) => g,
        }
    }
}

/// One named text of a header.
struct Entry {
    key: String,
    value: String,
}

/// Whether entry `i` of `entries` is the one named `key`.
spec fn names(entries: Seq<Entry>, key: Seq<char>, i: int) -> bool {
    0 <= i < entries.len() && entries[i].key@ == key
}

/// The header as the transport hands it over: texts by name, each name at
/// most once.
pub struct RawHeader {
    entries: Vec<Entry>,
}

impl View for RawHeader {
    type V = Map<Seq<char>, Seq<char>>;

    closed spec fn view(&self) -> Map<Seq<char>, Seq<char>> {
        Map::new(
            |k: Seq<char>| exists|i: int| names(self.entries@, k, i),
            |k: Seq<char>| self.entries@[choose|i: int| names(self.entries@, k, i)].value@,
        )
    }
}

impl RawHeader {
    #[verifier::type_invariant]
    spec fn distinct_names(&self) -> bool {
        forall|i: int, j: int|
            0 <= i < j < self.entries@.len() ==> self.entries@[i].key@ != self.entries@[j].key@
    }

    /// A header that holds nothing.
    pub fn new() -> (r: RawHeader)
        ensures
            r@ == Map::<Seq<char>, Seq<char>>::empty(),
    {
        let r = RawHeader { entries: Vec::new() };
        assert(r@ =~= Map::<Seq<char>, Seq<char>>::empty());
        r
    }

    /// The place of the entry named `key`, if there is one.
    fn find(&self, key: &String) -> (r: Option<usize>)
        ensures
            match r {
                Some(i) => names(self.entries@, key@, i as int),
                None => forall|i: int| !names(self.entries@, key@, i),
            },
    {
        let n: usize = self.entries.len();
        let mut i: usize = 0;
        while i < n
            invariant
                0 <= i <= n,
                n == self.entries@.len(),
                forall|j: int| 0 <= j < i ==> !names(self.entries@, key@, j),
            decreases n - i,
        {
            if self.entries[i].key == *key {
                return Some(i);
            }
            i = i + 1;
        }
        None
    }

    /// The text held under `key`, if there is one.
    pub fn get(&self, key: &str) -> (r: Option<&String>)
        ensures
            match r {
                Some(value) => self@.contains_key(key@) && self@[key@] == value@,
                None => !self@.contains_key(key@),
            },
    {
        proof {
            use_type_invariant(self);
        }
        let wanted: String = key.to_owned();
        match self.find(&wanted) {
            Some(i) => {
                let ghost chosen = choose|j: int| names(self.entries@, key@, j);
                assert(names(self.entries@, key@, i as int));
                assert(chosen == i);
                Some(&self.entries[i].value)
            },
            None => None,
        }
    }

    /// Puts `value` under `key`, in place of what was held there before.
    pub fn insert(&mut self, key: String, value: String)
        ensures
            final(self)@ == old(self)@.insert(key@, value@),
    {
        proof {
            use_type_invariant(&*self);
        }
        let ghost before = self.entries@;
        let ghost k = key@;
        let ghost v = value@;
        let found = self.find(&key);
        let mut taken = RawHeader { entries: Vec::new() };
        core::mem::swap(self, &mut taken);
        let mut entries = taken.entries;
        match found {
            Some(i) => {
                entries.set(i, Entry { key, value });
            },
            None => {
                entries.push(Entry { key, value });
            },
        }
        proof {
            assert(taken.entries@ == before);
            assert forall|i: int, j: int| 0 <= i < j < entries@.len() implies entries@[i].key@
                != entries@[j].key@ by {
                match found {
                    Some(at) => {
                        assert(names(before, k, at as int));
                        assert(entries@[i].key@ == before[i].key@);
                        assert(entries@[j].key@ == before[j].key@);
                    },
                    None => {
                        assert(!names(before, k, i));
                    },
                }
            }
        }
        *self = RawHeader { entries };
        proof {
            let after = self.entries@;
            let at: int = match found {
                Some(i) => i as int,
                None => before.len() as int,
            };
            assert(names(after, k, at));
            assert forall|name: Seq<char>, j: int| name != k implies (names(after, name, j)
                <==> names(before, name, j)) by {}
            assert forall|name: Seq<char>| #[trigger]
                self@.contains_key(name) == old(self)@.insert(k, v).contains_key(name) by {
                if name == k {
                } else if self@.contains_key(name) {
                    let j = choose|j: int| names(after, name, j);
                    assert(names(before, name, j));
                } else if old(self)@.contains_key(name) {
                    let j = choose|j: int| names(before, name, j);
                    assert(names(after, name, j));
                }
            }
            assert forall|name: Seq<char>| #[trigger] self@.contains_key(name) implies self@[name]
                == old(self)@.insert(k, v)[name] by {
                let j = choose|j: int| names(after, name, j);
                if name == k {
                    assert(j == at);
                } else {
                    let i = choose|i: int| names(before, name, i);
                    assert(names(before, name, j));
                    assert(i == j);
                }
            }
            assert(self@ =~= old(self)@.insert(k, v));
        }
    }
}

/// The text that header `h` holds for `field`.
pub open spec fn field_text(h: Map<Seq<char>, Seq<char>>, field: Field) -> Result<
    Seq<char>,
    HeaderError,
> {
    if h.contains_key(field.key()) {
        Ok(h[field.key()])
    } else {
        Err(HeaderError::MissingField(field))
    }
}

/// The text that `h` holds for `field`, where that is the text of a real
/// number.
pub open spec fn real_field(h: Map<Seq<char>, Seq<char>>, field: Field) -> Result<
    Seq<char>,
    HeaderError,
> {
    match field_text(h, field) {
        Ok(text) => if is_real(encode_utf8(text)) {
            Ok(text)
        } else {
            Err(HeaderError::MalformedValue(field))
        },
        Err(e) => Err(e),
    }
}

/// The whole number that `h` holds for `field`, where its text is an
/// unsigned decimal number of at most `max`.
pub open spec fn unsigned_field(h: Map<Seq<char>, Seq<char>>, field: Field, max: nat) -> Result<
    nat,
    HeaderError,
> {
    match field_text(h, field) {
        Ok(text) => match unsigned_value(encode_utf8(text), max) {
            Some(n) => Ok(n),
            None => Err(HeaderError::MalformedValue(field)),
        },
        Err(e) => Err(e),
    }
}

/// The number of channels that `h` gives: a whole number that fits a `usize`
/// and is a valid channel count.
pub open spec fn channel_count_of(h: Map<Seq<char>, Seq<char>>) -> Result<nat, HeaderError> {
    match unsigned_field(h, Field::Nchan, usize::MAX as nat) {
        Ok(n) => if valid_channel_count(n) {
            Ok(n)
        } else {
            Err(HeaderError::MalformedValue(Field::Nchan))
        },
        Err(e) => Err(e),
    }
}

/// The sample width in bits that `h` gives: a whole number that fits a `u32`.
pub open spec fn sample_bits_of(h: Map<Seq<char>, Seq<char>>) -> Result<nat, HeaderError> {
    unsigned_field(h, Field::Nbit, u32::MAX as nat)
}

/// The start of the observation that `h` gives.
pub open spec fn start_of(h: Map<Seq<char>, Seq<char>>) -> Result<StartEpoch, HeaderError> {
    match field_text(h, Field::UtcStart) {
        Ok(text) => match start_epoch_of(text) {
            Some(start) => Ok(start),
            None => Err(HeaderError::MalformedValue(Field::UtcStart)),
        },
        Err(e) => Err(e),
    }
}

/// What the typed fields of a header are, as mathematical values.
pub struct FieldValues {
    pub freq: Seq<char>,
    pub bw: Seq<char>,
    pub channels: nat,
    pub tsamp: Seq<char>,
    pub start: StartEpoch,
}

/// The typed fields of header `h`, or the first thing that is wrong with it.
/// The fields are looked at in the order centre frequency, bandwidth, channel
/// count, sample width, sample interval, start; each must be there and be of
/// its type, and the sample width must be `SAMPLE_BITS`.
pub open spec fn fields_of(h: Map<Seq<char>, Seq<char>>) -> Result<FieldValues, HeaderError> {
    match real_field(h, Field::Freq) {
        Err(e) => Err(e),
        Ok(freq) => match real_field(h, Field::Bw) {
            Err(e) => Err(e),
            Ok(bw) => match channel_count_of(h) {
                Err(e) => Err(e),
                Ok(channels) => match sample_bits_of(h) {
                    Err(e) => Err(e),
                    Ok(bits) => if bits != SAMPLE_BITS {
                        Err(HeaderError::MalformedValue(Field::Nbit))
                    } else {
                        match real_field(h, Field::Tsamp) {
                            Err(e) => Err(e),
                            Ok(tsamp) => match start_of(h) {
                                Err(e) => Err(e),
                                Ok(start) => Ok(FieldValues { freq, bw, channels, tsamp, start }),
                            },
                        }
                    },
                },
            },
        },
    }
}

impl RawHeader {
    /// The text of `field`.
    pub fn text(&self, field: Field) -> (r: Result<&String, HeaderError>)
        ensures
            match r {
                Ok(text) => field_text(self@, field) == Ok::<Seq<char>, HeaderError>(text@),
                Err(e) => field_text(self@, field) == Err::<Seq<char>, HeaderError>(e),
            },
    {
        match self.get(field.name()) {
            Some(text) => Ok(text),
            None => Err(HeaderError::MissingField(field)),
        }
    }

    /// The text of `field`, checked to be the text of a real number. Its
    /// value is for the caller to compute.
    pub fn real_text(&self, field: Field) -> (r: Result<&String, HeaderError>)
        ensures
            match r {
                Ok(text) => real_field(self@, field) == Ok::<Seq<char>, HeaderError>(text@),
                Err(e) => real_field(self@, field) == Err::<Seq<char>, HeaderError>(e),
            },
    {
        match self.text(field) {
            Ok(text) => {
                if is_real_text(text.as_str().as_bytes()) {
                    Ok(text)
                } else {
                    Err(HeaderError::MalformedValue(field))
                }
            },
            Err(e) => Err(e),
        }
    }

    /// The whole number of `field`, which must be at most `max`.
    pub fn unsigned_number(&self, field: Field, max: u64) -> (r: Result<u64, HeaderError>)
        ensures
            match r {
                Ok(n) => unsigned_field(self@, field, max as nat) == Ok::<nat, HeaderError>(
                    n as nat,
                ),
                Err(e) => unsigned_field(self@, field, max as nat) == Err::<nat, HeaderError>(e),
            },
    {
        match self.text(field) {
            Ok(text) => match parse_unsigned(text.as_str().as_bytes(), max) {
                Some(n) => Ok(n),
                None => Err(HeaderError::MalformedValue(field)),
            },
            Err(e) => Err(e),
        }
    }

    /// The number of channels.
    pub fn channel_count(&self) -> (r: Result<ChannelCount, HeaderError>)
        ensures
            match r {
                Ok(c) => channel_count_of(self@) == Ok::<nat, HeaderError>(c.value()),
                Err(e) => channel_count_of(self@) == Err::<nat, HeaderError>(e),
            },
    {
        match self.unsigned_number(Field::Nchan, usize::MAX as u64) {
            Ok(n) => match ChannelCount::new(n as usize) {
                Some(c) => Ok(c),
                None => Err(HeaderError::MalformedValue(Field::Nchan)),
            },
            Err(e) => Err(e),
        }
    }

    /// The sample width in bits, as the header gives it.
    pub fn sample_bits(&self) -> (r: Result<u32, HeaderError>)
        ensures
            match r {
                Ok(bits) => sample_bits_of(self@) == Ok::<nat, HeaderError>(bits as nat),
                Err(e) => sample_bits_of(self@) == Err::<nat, HeaderError>(e),
            },
    {
        match self.unsigned_number(Field::Nbit, u32::MAX as u64) {
            Ok(n) => Ok(n as u32),
            Err(e) => Err(e),
        }
    }

    /// The start of the observation.
    pub fn start(&self) -> (r: Result<StartEpoch, HeaderError>)
        ensures
            r == start_of(self@),
    {
        match self.text(Field::UtcStart) {
            Ok(text) => match parse_start_epoch(text.as_str()) {
                Some(start) => Ok(start),
                None => Err(HeaderError::MalformedValue(Field::UtcStart)),
            },
            Err(e) => Err(e),
        }
    }
}

/// The typed fields of a header that was accepted. The three real numbers
/// are kept as their texts, each checked to be the text of a real number.
#[derive(Clone, Debug)]
pub struct HeaderFields {
    /// Centre frequency in MHz.
    pub freq: String,
    /// Bandwidth in MHz; negative for a flipped frequency axis.
    pub bw: String,
    /// Number of channels.
    pub channels: ChannelCount,
    /// Sample interval in microseconds.
    pub tsamp: String,
    /// Start of the observation.
    pub start: StartEpoch,
}

impl View for HeaderFields {
    type V = FieldValues;

    open spec fn view(&self) -> FieldValues {
        FieldValues {
            freq: self.freq@,
            bw: self.bw@,
            channels: self.channels.value(),
            tsamp: self.tsamp@,
            start: self.start,
        }
    }
}

impl HeaderFields {
    /// Reads the typed fields out of a header. The header is accepted when
    /// every field is there and of its type and the sample width is
    /// `SAMPLE_BITS`; else the first fault in the order of `fields_of` is
    /// reported.
    pub fn read(header: &RawHeader) -> (r: Result<HeaderFields, HeaderError>)
        ensures
            match r {
                Ok(fields) => fields_of(header@) == Ok::<FieldValues, HeaderError>(fields@),
                Err(e) => fields_of(header@) == Err::<FieldValues, HeaderError>(e),
            },
    {
        let freq = match header.real_text(Field::Freq) {
            Ok(text) => text.clone(),
            Err(e) => {
                return Err(e);
            },
        };
        let bw = match header.real_text(Field::Bw) {
            Ok(text) => text.clone(),
            Err(e) => {
                return Err(e);
            },
        };
        let channels = match header.channel_count() {
            Ok(c) => c,
            Err(e) => {
                return Err(e);
            },
        };
        let bits: u32 = match header.sample_bits() {
            Ok(b) => b,
            Err(e) => {
                return Err(e);
            },
        };
        if bits != SAMPLE_BITS {
            return Err(HeaderError::MalformedValue(Field::Nbit));
        }
        let tsamp = match header.real_text(Field::Tsamp) {
            Ok(text) => text.clone(),
            Err(e) => {
                return Err(e);
            },
        };
        let start = match header.start() {
            Ok(s) => s,
            Err(e) => {
                return Err(e);
            },
        };
        Ok(HeaderFields { freq, bw, channels, tsamp, start })
    }
}

/// A header is accepted exactly when each of its six fields is there and of
/// its type and the sample width is the supported one. So a header with any
/// other sample width never yields typed fields, whatever else it holds.
pub proof fn lemma_accepted_header(h: Map<Seq<char>, Seq<char>>)
    ensures
        fields_of(h) is Ok <==> {
            &&& real_field(h, Field::Freq) is Ok
            &&& real_field(h, Field::Bw) is Ok
            &&& channel_count_of(h) is Ok
            &&& sample_bits_of(h) == Ok::<nat, HeaderError>(SAMPLE_BITS as nat)
            &&& real_field(h, Field::Tsamp) is Ok
            &&& start_of(h) is Ok
        },
        fields_of(h) matches Ok(values) ==> {
            &&& Ok::<Seq<char>, HeaderError>(values.freq) == field_text(h, Field::Freq)
            &&& Ok::<Seq<char>, HeaderError>(values.bw) == field_text(h, Field::Bw)
            &&& Ok::<Seq<char>, HeaderError>(values.tsamp) == field_text(h, Field::Tsamp)
            &&& Ok::<nat, HeaderError>(values.channels) == channel_count_of(h)
            &&& valid_channel_count(values.channels)
            &&& Ok::<StartEpoch, HeaderError>(values.start) == start_of(h)
        },
{
}

/// There is no partial success: a header that lacks any one of the six
/// fields is turned down, whatever the others hold.
pub proof fn lemma_missing_field(h: Map<Seq<char>, Seq<char>>, field: Field)
    requires
        !h.contains_key(field.key()),
    ensures
        fields_of(h) is Err,
{
}

/// Whether headers `a` and `b` hold the same under the name of `field`.
pub open spec fn same_field(
    a: Map<Seq<char>, Seq<char>>,
    b: Map<Seq<char>, Seq<char>>,
    field: Field,
) -> bool {
    field_text(a, field) == field_text(b, field)
}

/// The typed fields are settled by the texts of the six fields and by nothing
/// else: two headers that hold the same under those six names yield the same
/// fields or the same error, whatever else either of them holds.
pub proof fn lemma_fields_settled_by_texts(
    a: Map<Seq<char>, Seq<char>>,
    b: Map<Seq<char>, Seq<char>>,
)
    requires
        same_field(a, b, Field::Freq),
        same_field(a, b, Field::Bw),
        same_field(a, b, Field::Nchan),
        same_field(a, b, Field::Nbit),
        same_field(a, b, Field::Tsamp),
        same_field(a, b, Field::UtcStart),
    ensures
        fields_of(a) == fields_of(b),
{
}

} // verus!
