use dada_filterbank::epoch::StartEpoch;
use dada_filterbank::header::{Field, HeaderError, HeaderFields, RawHeader, SAMPLE_BITS};

fn header_of(pairs: &[(&str, &str)]) -> RawHeader {
    let mut header = RawHeader::new();
    for (key, value) in pairs {
        header.insert(key.to_string(), value.to_string());
    }
    header
}

fn complete() -> Vec<(&'static str, &'static str)> {
    vec![
        ("FREQ", "1400.0"),
        ("BW", "400.0"),
        ("NCHAN", "4"),
        ("NBIT", "32"),
        ("TSAMP", "1000.0"),
        ("UTC_START", "2023-01-01-00:00:00"),
    ]
}

fn without(pairs: &[(&'static str, &'static str)], key: &str) -> Vec<(&'static str, &'static str)> {
    pairs.iter().copied().filter(|(k, _)| *k != key).collect()
}

fn with(
    pairs: &[(&'static str, &'static str)],
    key: &'static str,
    value: &'static str,
) -> Vec<(&'static str, &'static str)> {
    let mut changed = without(pairs, key);
    changed.push((key, value));
    changed
}

#[test]
fn field_names_are_those_of_the_header() {
    assert_eq!(Field::Freq.name(), "FREQ");
    assert_eq!(Field::Bw.name(), "BW");
    assert_eq!(Field::Nchan.name(), "NCHAN");
    assert_eq!(Field::Nbit.name(), "NBIT");
    assert_eq!(Field::Tsamp.name(), "TSAMP");
    assert_eq!(Field::UtcStart.name(), "UTC_START");
}

#[test]
fn error_names_its_field() {
    assert_eq!(HeaderError::MissingField(Field::Bw).field(), Field::Bw);
    assert_eq!(HeaderError::MalformedValue(Field::Nbit).field(), Field::Nbit);
}

#[test]
fn empty_header_holds_nothing() {
    let header = RawHeader::new();
    assert_eq!(header.get("FREQ"), None);
    assert_eq!(header.get(""), None);
    assert_eq!(
        header.text(Field::Freq),
        Err(HeaderError::MissingField(Field::Freq))
    );
}

#[test]
fn insert_then_get() {
    let mut header = RawHeader::new();
    header.insert("FREQ".to_string(), "1400.0".to_string());
    header.insert("BW".to_string(), "400.0".to_string());
    assert_eq!(header.get("FREQ").map(String::as_str), Some("1400.0"));
    assert_eq!(header.get("BW").map(String::as_str), Some("400.0"));
    assert_eq!(header.get("freq"), None);
    assert_eq!(header.get("FRE"), None);
    assert_eq!(header.get("FREQ "), None);
}

#[test]
fn insert_replaces_what_was_held() {
    let mut header = RawHeader::new();
    header.insert("NCHAN".to_string(), "4".to_string());
    header.insert("NBIT".to_string(), "32".to_string());
    header.insert("NCHAN".to_string(), "8".to_string());
    assert_eq!(header.get("NCHAN").map(String::as_str), Some("8"));
    assert_eq!(header.get("NBIT").map(String::as_str), Some("32"));
    assert_eq!(header.channel_count().unwrap().get(), 8);
}

#[test]
fn order_of_insertion_does_not_matter() {
    let mut reversed = complete();
    reversed.reverse();
    let a = HeaderFields::read(&header_of(&complete())).unwrap();
    let b = HeaderFields::read(&header_of(&reversed)).unwrap();
    assert_eq!(a.freq, b.freq);
    assert_eq!(a.bw, b.bw);
    assert_eq!(a.channels.get(), b.channels.get());
    assert_eq!(a.tsamp, b.tsamp);
    assert_eq!(a.start, b.start);
}

#[test]
fn complete_header_yields_its_typed_fields() {
    let fields = HeaderFields::read(&header_of(&complete())).unwrap();
    assert_eq!(fields.freq, "1400.0");
    assert_eq!(fields.bw, "400.0");
    assert_eq!(fields.channels.get(), 4);
    assert_eq!(fields.channels.frame_len(), 16);
    assert_eq!(fields.tsamp, "1000.0");
    assert_eq!(
        fields.start,
        StartEpoch {
            centuries: 1,
            nanoseconds: 725_760_037_000_000_000,
        }
    );
}

#[test]
fn complete_header_yields_width_and_interval() {
    let fields = HeaderFields::read(&header_of(&complete())).unwrap();
    let freq: f64 = fields.freq.parse().unwrap();
    let bw: f64 = fields.bw.parse().unwrap();
    let tsamp: f64 = fields.tsamp.parse().unwrap();
    let channels = fields.channels.get() as f64;
    let channel_width = bw / channels;
    let first_channel = (freq - bw / 2.0) + channel_width / 2.0;
    assert_eq!(channel_width, 100.0);
    assert_eq!(tsamp / 1e6, 0.001);
    assert_eq!(first_channel, 1250.0);
    assert_eq!(channel_width * channels, bw);
}

#[test]
fn reading_twice_gives_the_same_fields() {
    let header = header_of(&complete());
    let a = HeaderFields::read(&header).unwrap();
    let b = HeaderFields::read(&header).unwrap();
    assert_eq!(a.freq, b.freq);
    assert_eq!(a.bw, b.bw);
    assert_eq!(a.channels.get(), b.channels.get());
    assert_eq!(a.tsamp, b.tsamp);
    assert_eq!(a.start, b.start);
}

#[test]
fn negative_bandwidth_is_accepted() {
    let fields = HeaderFields::read(&header_of(&with(&complete(), "BW", "-400.0"))).unwrap();
    assert_eq!(fields.bw, "-400.0");
    let bw: f64 = fields.bw.parse().unwrap();
    assert_eq!(bw / fields.channels.get() as f64, -100.0);
}

#[test]
fn each_missing_field_is_reported() {
    let fields = [
        Field::Freq,
        Field::Bw,
        Field::Nchan,
        Field::Nbit,
        Field::Tsamp,
        Field::UtcStart,
    ];
    for field in fields {
        let header = header_of(&without(&complete(), field.name()));
        assert_eq!(
            HeaderFields::read(&header).err(),
            Some(HeaderError::MissingField(field))
        );
    }
}

#[test]
fn each_malformed_field_is_reported() {
    let cases = [
        (Field::Freq, "FREQ", "fourteen hundred"),
        (Field::Bw, "BW", "400.0MHz"),
        (Field::Nchan, "NCHAN", "4.0"),
        (Field::Nbit, "NBIT", "thirty-two"),
        (Field::Tsamp, "TSAMP", ""),
        (Field::UtcStart, "UTC_START", "2023-01-01T00:00:00"),
    ];
    for (field, key, value) in cases {
        let header = header_of(&with(&complete(), key, value));
        assert_eq!(
            HeaderFields::read(&header).err(),
            Some(HeaderError::MalformedValue(field))
        );
    }
}

#[test]
fn unsupported_sample_width_is_rejected() {
    let header = header_of(&with(&complete(), "NBIT", "8"));
    assert_eq!(header.sample_bits(), Ok(8));
    assert_eq!(
        HeaderFields::read(&header).err(),
        Some(HeaderError::MalformedValue(Field::Nbit))
    );
    for width in ["0", "1", "16", "31", "33", "64", "4294967295"] {
        let header = header_of(&with(&complete(), "NBIT", width));
        assert_eq!(
            HeaderFields::read(&header).err(),
            Some(HeaderError::MalformedValue(Field::Nbit))
        );
    }
    assert_eq!(SAMPLE_BITS, 32);
}

#[test]
fn sample_width_must_fit_its_type() {
    let header = header_of(&with(&complete(), "NBIT", "4294967296"));
    assert_eq!(
        header.sample_bits(),
        Err(HeaderError::MalformedValue(Field::Nbit))
    );
    let header = header_of(&with(&complete(), "NBIT", "-32"));
    assert_eq!(
        header.sample_bits(),
        Err(HeaderError::MalformedValue(Field::Nbit))
    );
    let header = header_of(&with(&complete(), "NBIT", "+32"));
    assert_eq!(header.sample_bits(), Ok(32));
    assert!(HeaderFields::read(&header).is_ok());
}

#[test]
fn channel_count_must_be_positive_and_fit() {
    let header = header_of(&with(&complete(), "NCHAN", "0"));
    assert_eq!(
        header.channel_count().err(),
        Some(HeaderError::MalformedValue(Field::Nchan))
    );
    let header = header_of(&with(&complete(), "NCHAN", "-4"));
    assert_eq!(
        header.channel_count().err(),
        Some(HeaderError::MalformedValue(Field::Nchan))
    );
    let header = header_of(&with(&complete(), "NCHAN", "18446744073709551615"));
    assert_eq!(
        header.channel_count().err(),
        Some(HeaderError::MalformedValue(Field::Nchan))
    );
    let header = header_of(&with(&complete(), "NCHAN", "99999999999999999999"));
    assert_eq!(
        header.channel_count().err(),
        Some(HeaderError::MalformedValue(Field::Nchan))
    );
    let header = header_of(&with(&complete(), "NCHAN", "2048"));
    assert_eq!(header.channel_count().unwrap().get(), 2048);
}

#[test]
fn first_fault_in_field_order_is_reported() {
    let mut pairs = without(&complete(), "UTC_START");
    pairs = with(&pairs, "NBIT", "8");
    pairs = with(&pairs, "BW", "wide");
    assert_eq!(
        HeaderFields::read(&header_of(&pairs)).err(),
        Some(HeaderError::MalformedValue(Field::Bw))
    );
    pairs = with(&pairs, "BW", "400.0");
    assert_eq!(
        HeaderFields::read(&header_of(&pairs)).err(),
        Some(HeaderError::MalformedValue(Field::Nbit))
    );
    pairs = with(&pairs, "NBIT", "32");
    assert_eq!(
        HeaderFields::read(&header_of(&pairs)).err(),
        Some(HeaderError::MissingField(Field::UtcStart))
    );
    pairs = without(&pairs, "FREQ");
    assert_eq!(
        HeaderFields::read(&header_of(&pairs)).err(),
        Some(HeaderError::MissingField(Field::Freq))
    );
}

#[test]
fn real_text_is_handed_out_unchanged() {
    let header = header_of(&with(&complete(), "FREQ", "+1.4E3"));
    assert_eq!(
        header.real_text(Field::Freq).map(String::as_str),
        Ok("+1.4E3")
    );
    let value: f64 = header.real_text(Field::Freq).unwrap().parse().unwrap();
    assert_eq!(value, 1400.0);
    assert_eq!(
        header_of(&with(&complete(), "FREQ", "1400,0")).real_text(Field::Freq),
        Err(HeaderError::MalformedValue(Field::Freq))
    );
}

#[test]
fn unsigned_number_keeps_to_its_limit() {
    let header = header_of(&complete());
    assert_eq!(header.unsigned_number(Field::Nchan, 4), Ok(4));
    assert_eq!(
        header.unsigned_number(Field::Nchan, 3),
        Err(HeaderError::MalformedValue(Field::Nchan))
    );
    assert_eq!(
        header.unsigned_number(Field::Freq, u64::MAX),
        Err(HeaderError::MalformedValue(Field::Freq))
    );
}

#[test]
fn start_is_read_from_the_header() {
    let header = header_of(&complete());
    assert_eq!(
        header.start(),
        Ok(StartEpoch {
            centuries: 1,
            nanoseconds: 725_760_037_000_000_000,
        })
    );
    let header = header_of(&with(&complete(), "UTC_START", "2023-02-30-00:00:00"));
    assert_eq!(
        header.start(),
        Err(HeaderError::MalformedValue(Field::UtcStart))
    );
}
