use plist::{
    BinaryReader, Builder, BuilderError, Date, Dictionary, ErrorClass, EventStream, Integer,
    ParserError, Plist, PlistEvent, Real, StreamingParser,
};

// A small writer of binary property lists, to make the sources that the tests read.

fn header_byte(kind: u8, size: u8) -> u8 {
    kind * 16 + size
}

fn with_length(kind: u8, len: usize) -> Vec<u8> {
    if len < 15 {
        vec![header_byte(kind, len as u8)]
    } else if len < 256 {
        vec![header_byte(kind, 15), 0x10, len as u8]
    } else {
        vec![header_byte(kind, 15), 0x11, (len >> 8) as u8, len as u8]
    }
}

fn boolean(b: bool) -> Vec<u8> {
    vec![if b { 0x09 } else { 0x08 }]
}

fn integer(size: u8, bytes: &[u8]) -> Vec<u8> {
    let mut v = vec![header_byte(1, size)];
    v.extend_from_slice(bytes);
    v
}

fn real64(x: f64) -> Vec<u8> {
    let mut v = vec![header_byte(2, 3)];
    v.extend_from_slice(&x.to_bits().to_be_bytes());
    v
}

fn real32(x: f32) -> Vec<u8> {
    let mut v = vec![header_byte(2, 2)];
    v.extend_from_slice(&x.to_bits().to_be_bytes());
    v
}

fn date(seconds: f64) -> Vec<u8> {
    let mut v = vec![header_byte(3, 3)];
    v.extend_from_slice(&seconds.to_bits().to_be_bytes());
    v
}

fn data(bytes: &[u8]) -> Vec<u8> {
    let mut v = with_length(4, bytes.len());
    v.extend_from_slice(bytes);
    v
}

fn ascii(text: &str) -> Vec<u8> {
    let mut v = with_length(5, text.len());
    v.extend_from_slice(text.as_bytes());
    v
}

fn utf16_units(units: &[u16]) -> Vec<u8> {
    let mut v = with_length(6, units.len());
    for u in units {
        v.extend_from_slice(&u.to_be_bytes());
    }
    v
}

fn utf16(text: &str) -> Vec<u8> {
    let units: Vec<u16> = text.encode_utf16().collect();
    utf16_units(&units)
}

fn array(refs: &[u8]) -> Vec<u8> {
    let mut v = with_length(0xa, refs.len());
    v.extend_from_slice(refs);
    v
}

fn dict(keys: &[u8], values: &[u8]) -> Vec<u8> {
    let mut v = with_length(0xd, keys.len());
    v.extend_from_slice(keys);
    v.extend_from_slice(values);
    v
}

/// The source that holds `objects`, with references and offsets one byte wide.
fn source(objects: &[Vec<u8>], root: u64) -> Vec<u8> {
    let mut bytes = b"bplist00".to_vec();
    let mut offsets = Vec::new();
    for object in objects {
        offsets.push(bytes.len());
        bytes.extend_from_slice(object);
    }
    let wide = bytes.len() > 255;
    let table = bytes.len() as u64;
    for offset in &offsets {
        if wide {
            bytes.extend_from_slice(&(*offset as u16).to_be_bytes());
        } else {
            bytes.push(*offset as u8);
        }
    }
    bytes.extend_from_slice(&[0; 6]);
    bytes.push(if wide { 2 } else { 1 });
    bytes.push(1);
    bytes.extend_from_slice(&(objects.len() as u64).to_be_bytes());
    bytes.extend_from_slice(&root.to_be_bytes());
    bytes.extend_from_slice(&table.to_be_bytes());
    bytes
}

fn pull_all(bytes: Vec<u8>) -> Vec<Result<PlistEvent, ParserError>> {
    let mut reader = BinaryReader::new(bytes);
    let mut out = Vec::new();
    while let Some(item) = reader.next() {
        out.push(item);
        assert!(out.len() < 10_000);
    }
    // nothing comes after the end
    assert!(reader.next().is_none());
    assert!(reader.next().is_none());
    out
}

fn events(bytes: Vec<u8>) -> Vec<PlistEvent> {
    pull_all(bytes).into_iter().map(|e| e.unwrap()).collect()
}

fn failure(bytes: Vec<u8>) -> ErrorClass {
    let mut all = pull_all(bytes);
    let last = all.pop().expect("nothing was handed out");
    for item in &all {
        assert!(item.is_ok());
    }
    last.expect_err("no failure").class()
}

fn string(text: &str) -> PlistEvent {
    PlistEvent::StringValue(text.to_owned())
}

fn whole(value: i64) -> PlistEvent {
    PlistEvent::IntegerValue(Integer::from(value))
}

fn fixture() -> Vec<u8> {
    let objects = vec![
        dict(&[1, 3, 5, 7, 9, 11, 13, 17, 19], &[2, 4, 6, 8, 10, 12, 14, 18, 20]),
        ascii("Author"),
        ascii("William Shakespeare"),
        ascii("Height"),
        real64(1.6),
        ascii("Data"),
        data(&[0, 0, 0, 190, 0, 0, 0, 3, 0, 0, 0, 30, 0, 0, 0]),
        ascii("Birthdate"),
        date(-619446474.0),
        ascii("BiggestNumber"),
        integer(4, &[0, 0, 0, 0, 0, 0, 0, 0, 255, 255, 255, 255, 255, 255, 255, 255]),
        ascii("SmallestNumber"),
        integer(3, &[0x80, 0, 0, 0, 0, 0, 0, 0]),
        ascii("Lines"),
        array(&[15, 16]),
        ascii("It is a tale told by an idiot,"),
        ascii("Full of sound and fury, signifying nothing."),
        ascii("Death"),
        integer(1, &[0x06, 0x1c]),
        ascii("Blank"),
        ascii(""),
    ];
    source(&objects, 0)
}

#[test]
fn streaming_parser() {
    let streaming_parser_events = events(fixture());

    let comparison = vec![
        PlistEvent::StartDictionary(Some(9)),
        PlistEvent::StringValue("Author".into()),
        PlistEvent::StringValue("William Shakespeare".into()),
        PlistEvent::StringValue("Height".into()),
        PlistEvent::RealValue(Real::from_bits(1.6f64.to_bits())),
        PlistEvent::StringValue("Data".into()),
        PlistEvent::DataValue(vec![0, 0, 0, 190, 0, 0, 0, 3, 0, 0, 0, 30, 0, 0, 0]),
        PlistEvent::StringValue("Birthdate".into()),
        // 1981-05-16 11:32:06
        PlistEvent::DateValue(Date::from_unix(358860726, 0).unwrap()),
        PlistEvent::StringValue("BiggestNumber".into()),
        PlistEvent::IntegerValue(18446744073709551615u64.into()),
        PlistEvent::StringValue("SmallestNumber".into()),
        PlistEvent::IntegerValue((-9223372036854775808i64).into()),
        PlistEvent::StringValue("Lines".into()),
        PlistEvent::StartArray(Some(2)),
        PlistEvent::StringValue("It is a tale told by an idiot,".into()),
        PlistEvent::StringValue("Full of sound and fury, signifying nothing.".into()),
        PlistEvent::EndCollection,
        PlistEvent::StringValue("Death".into()),
        PlistEvent::IntegerValue(1564i64.into()),
        PlistEvent::StringValue("Blank".into()),
        PlistEvent::StringValue("".into()),
        PlistEvent::EndCollection,
    ];

    assert_eq!(streaming_parser_events, comparison);
}

#[test]
fn utf16_plist() {
    let mut poem = "a".repeat(640);
    poem.push('\u{2605}');
    let objects = vec![
        array(&[1, 2, 3]),
        utf16("\u{2605} or better"),
        utf16(&poem),
        utf16("\u{1F600}"),
    ];
    let mut all = events(source(&objects, 0));
    assert_eq!(all[1], string("\u{2605} or better"));
    assert_eq!(all[3], string("\u{1F600}"));
    let text = if let PlistEvent::StringValue(ref mut text) = all[2] {
        text
    } else {
        panic!("not a string")
    };
    assert_eq!(text.len(), 643);
    assert_eq!(text.pop().unwrap(), '\u{2605}');
}

#[test]
fn decoding_then_building_gives_the_values() {
    // {"Author": "Shakespeare", "Lines": ["a", "b"], "Birthdate": 1564, "Height": 1.60}
    let objects = vec![
        dict(&[1, 3, 7, 9], &[2, 4, 8, 10]),
        ascii("Author"),
        ascii("Shakespeare"),
        ascii("Lines"),
        array(&[5, 6]),
        ascii("a"),
        ascii("b"),
        ascii("Birthdate"),
        integer(1, &[0x06, 0x1c]),
        ascii("Height"),
        real64(1.60),
    ];
    let plist = Builder::new(source(&objects, 0)).build().unwrap();

    let mut expected = Dictionary::new();
    expected.insert("Author".to_owned(), Plist::String("Shakespeare".to_owned()));
    expected.insert(
        "Lines".to_owned(),
        Plist::Array(vec![Plist::String("a".to_owned()), Plist::String("b".to_owned())]),
    );
    expected.insert("Birthdate".to_owned(), Plist::Integer(Integer::from(1564i64)));
    expected.insert("Height".to_owned(), Plist::Real(Real::from_bits(1.60f64.to_bits())));
    assert_eq!(plist, Plist::Dictionary(expected));

    match plist {
        Plist::Dictionary(d) => {
            assert_eq!(d.len(), 4);
            assert!(matches!(d.get(&"Author".to_owned()), Some(Plist::String(_))));
            match d.get(&"Lines".to_owned()) {
                Some(Plist::Array(lines)) => {
                    assert_eq!(lines.len(), 2);
                    assert!(matches!(lines[0], Plist::String(_)));
                    assert!(matches!(lines[1], Plist::String(_)));
                }
                _ => panic!("not an array"),
            }
            match d.get(&"Birthdate".to_owned()) {
                Some(Plist::Integer(i)) => assert_eq!(i.as_signed(), Some(1564)),
                _ => panic!("not an integer"),
            }
            match d.get(&"Height".to_owned()) {
                Some(Plist::Real(r)) => assert_eq!(f64::from_bits(r.to_bits()), 1.60),
                _ => panic!("not a real"),
            }
        }
        _ => panic!("not a dictionary"),
    }
}

#[test]
fn shared_object_is_described_at_each_reference() {
    let objects = vec![array(&[1, 1, 2]), array(&[2]), ascii("x")];
    let all = events(source(&objects, 0));
    assert_eq!(
        all,
        vec![
            PlistEvent::StartArray(Some(3)),
            PlistEvent::StartArray(Some(1)),
            string("x"),
            PlistEvent::EndCollection,
            PlistEvent::StartArray(Some(1)),
            string("x"),
            PlistEvent::EndCollection,
            string("x"),
            PlistEvent::EndCollection,
        ]
    );
}

#[test]
fn sixteen_byte_integer_holds_the_greatest_u64() {
    let objects =
        vec![integer(4, &[0, 0, 0, 0, 0, 0, 0, 0, 255, 255, 255, 255, 255, 255, 255, 255])];
    let all = events(source(&objects, 0));
    assert_eq!(all, vec![PlistEvent::IntegerValue(Integer::from(u64::MAX))]);
    match &all[0] {
        PlistEvent::IntegerValue(i) => {
            assert_eq!(i.as_unsigned(), Some(u64::MAX));
            assert_eq!(i.as_signed(), None);
        }
        _ => panic!("not an integer"),
    }
}

#[test]
fn sixteen_byte_integer_out_of_range_fails() {
    // -1
    let objects = vec![integer(4, &[255; 16])];
    assert_eq!(failure(source(&objects, 0)), ErrorClass::InvalidData);
    // 2^64
    let objects = vec![integer(4, &[0, 0, 0, 0, 0, 0, 0, 1, 0, 0, 0, 0, 0, 0, 0, 0])];
    assert_eq!(failure(source(&objects, 0)), ErrorClass::InvalidData);
}

#[test]
fn integers_of_each_width() {
    let objects = vec![
        array(&[1, 2, 3, 4, 5]),
        integer(0, &[0xff]),
        integer(1, &[0xff, 0xfe]),
        integer(2, &[0xff, 0xff, 0xff, 0xfd]),
        integer(3, &[0xff; 8]),
        integer(3, &[0x7f, 0xff, 0xff, 0xff, 0xff, 0xff, 0xff, 0xff]),
    ];
    let all = events(source(&objects, 0));
    assert_eq!(
        all,
        vec![
            PlistEvent::StartArray(Some(5)),
            whole(255),
            whole(65534),
            whole(4294967293),
            whole(-1),
            whole(i64::MAX),
            PlistEvent::EndCollection,
        ]
    );
    let objects = vec![integer(5, &[0; 32])];
    assert_eq!(failure(source(&objects, 0)), ErrorClass::InvalidData);
}

#[test]
fn booleans_and_unsupported_singletons() {
    assert_eq!(events(source(&[boolean(true)], 0)), vec![PlistEvent::BooleanValue(true)]);
    assert_eq!(events(source(&[boolean(false)], 0)), vec![PlistEvent::BooleanValue(false)]);
    // null, fill, and what else the first kind has
    for size in [0u8, 1, 7, 10, 15] {
        assert_eq!(failure(source(&[vec![size]], 0)), ErrorClass::InvalidData);
    }
}

#[test]
fn reals_of_both_widths() {
    let objects = vec![array(&[1, 2, 3]), real32(1.5), real64(-2.25), real32(f32::MIN_POSITIVE / 4.0)];
    let all = events(source(&objects, 0));
    assert_eq!(
        all,
        vec![
            PlistEvent::StartArray(Some(3)),
            PlistEvent::RealValue(Real::from_bits(1.5f64.to_bits())),
            PlistEvent::RealValue(Real::from_bits((-2.25f64).to_bits())),
            PlistEvent::RealValue(Real::from_bits(((f32::MIN_POSITIVE / 4.0) as f64).to_bits())),
            PlistEvent::EndCollection,
        ]
    );
    let odd = vec![header_byte(2, 1), 0, 0];
    assert_eq!(failure(source(&[odd], 0)), ErrorClass::InvalidData);
}

#[test]
fn dates() {
    let all = events(source(&[date(0.0)], 0));
    assert_eq!(all, vec![PlistEvent::DateValue(Date::from_unix(978_307_200, 0).unwrap())]);
    let all = events(source(&[date(-0.25)], 0));
    assert_eq!(all, vec![PlistEvent::DateValue(Date::from_unix(978_307_199, 750_000_000).unwrap())]);
    assert_eq!(failure(source(&[date(f64::NAN)], 0)), ErrorClass::InvalidData);
    assert_eq!(failure(source(&[date(f64::INFINITY)], 0)), ErrorClass::InvalidData);
    assert_eq!(failure(source(&[date(1.0e300)], 0)), ErrorClass::InvalidData);
    let odd = vec![header_byte(3, 2), 0, 0, 0, 0];
    assert_eq!(failure(source(&[odd], 0)), ErrorClass::InvalidData);
}

#[test]
fn unpaired_surrogate_is_an_encoding_failure() {
    let objects = vec![utf16_units(&[0x0041, 0xD800, 0x0042])];
    assert_eq!(failure(source(&objects, 0)), ErrorClass::InvalidData);
    let objects = vec![utf16_units(&[0xDC00])];
    assert_eq!(failure(source(&objects, 0)), ErrorClass::InvalidData);
    let objects = vec![utf16_units(&[0xD83D])];
    assert_eq!(failure(source(&objects, 0)), ErrorClass::InvalidData);
}

#[test]
fn ascii_string_must_be_utf8() {
    let mut bad = with_length(5, 2);
    bad.extend_from_slice(&[0xff, 0xfe]);
    assert_eq!(failure(source(&[bad], 0)), ErrorClass::InvalidData);
    let mut good = with_length(5, 2);
    good.extend_from_slice(&[0xc3, 0xa9]);
    assert_eq!(events(source(&[good], 0)), vec![string("\u{e9}")]);
}

#[test]
fn long_data_has_its_length_after_the_first_byte() {
    let bytes: Vec<u8> = (0..300).map(|i| (i % 251) as u8).collect();
    let objects = vec![array(&[1, 2]), data(&bytes), data(&bytes[..20])];
    let all = events(source(&objects, 0));
    assert_eq!(
        all,
        vec![
            PlistEvent::StartArray(Some(2)),
            PlistEvent::DataValue(bytes.clone()),
            PlistEvent::DataValue(bytes[..20].to_vec()),
            PlistEvent::EndCollection,
        ]
    );
}

#[test]
fn length_beyond_the_ceiling_is_rejected() {
    // data that declares 2^64 - 1 bytes
    let mut huge = vec![header_byte(4, 15), 0x13];
    huge.extend_from_slice(&[0xff; 8]);
    assert_eq!(failure(source(&[huge], 0)), ErrorClass::InvalidData);
    // an array that declares 2^63 references
    let mut huge = vec![header_byte(0xa, 15), 0x13, 0x80];
    huge.extend_from_slice(&[0; 7]);
    assert_eq!(failure(source(&[huge], 0)), ErrorClass::InvalidData);
    // a dictionary that declares 2^63 entries
    let mut huge = vec![header_byte(0xd, 15), 0x13, 0x80];
    huge.extend_from_slice(&[0; 7]);
    assert_eq!(failure(source(&[huge], 0)), ErrorClass::InvalidData);
    // a string of 2^63 code units
    let mut huge = vec![header_byte(6, 15), 0x13, 0x80];
    huge.extend_from_slice(&[0; 7]);
    assert_eq!(failure(source(&[huge], 0)), ErrorClass::InvalidData);
    // between the tag and the trailer lie four bytes of the object, one of
    // the table and six of padding: data may be that long, and no longer
    let most = vec![header_byte(4, 11), 1, 2, 3];
    assert_eq!(
        events(source(&[most], 0)),
        vec![PlistEvent::DataValue(vec![1, 2, 3, 8, 0, 0, 0, 0, 0, 0, 1])]
    );
    let more = vec![header_byte(4, 12), 1, 2, 3];
    assert_eq!(failure(source(&[more], 0)), ErrorClass::InvalidData);
    // a table of offsets that declares more objects than fit
    let mut bytes = source(&[boolean(true)], 0);
    let at = bytes.len() - 24;
    bytes[at..at + 8].copy_from_slice(&u64::MAX.to_be_bytes());
    assert_eq!(failure(bytes), ErrorClass::InvalidData);
}

#[test]
fn object_that_holds_itself_is_rejected() {
    let objects = vec![array(&[0])];
    let all = pull_all(source(&objects, 0));
    assert_eq!(all.len(), 2);
    assert_eq!(all[0].as_ref().unwrap(), &PlistEvent::StartArray(Some(1)));
    assert_eq!(all[1].as_ref().unwrap_err().class(), ErrorClass::InvalidData);

    let objects = vec![array(&[1]), dict(&[2], &[3]), ascii("k"), array(&[0])];
    let all = pull_all(source(&objects, 0));
    assert_eq!(all.len(), 5);
    assert_eq!(all[4].as_ref().unwrap_err().class(), ErrorClass::InvalidData);

    let r = Builder::new(source(&objects, 0)).build();
    assert!(matches!(r, Err(BuilderError::ParserError(ParserError::InvalidData))));
}

#[test]
fn reference_outside_the_table_is_rejected() {
    let objects = vec![array(&[7])];
    assert_eq!(failure(source(&objects, 0)), ErrorClass::InvalidData);
    assert_eq!(failure(source(&[boolean(true)], 1)), ErrorClass::InvalidData);
    assert_eq!(failure(source(&[], 0)), ErrorClass::InvalidData);
}

#[test]
fn unknown_kind_is_rejected() {
    for kind in [7u8, 8, 9, 0xb, 0xc, 0xe, 0xf] {
        assert_eq!(failure(source(&[vec![header_byte(kind, 0)]], 0)), ErrorClass::InvalidData);
    }
}

#[test]
fn bad_tag_is_reported_once() {
    let mut bytes = fixture();
    bytes[0] = b'x';
    let all = pull_all(bytes);
    assert_eq!(all.len(), 1);
    assert_eq!(all[0].as_ref().unwrap_err().class(), ErrorClass::InvalidData);
}

#[test]
fn short_sources() {
    assert_eq!(failure(vec![]), ErrorClass::UnexpectedEof);
    assert_eq!(failure(b"bplist0".to_vec()), ErrorClass::UnexpectedEof);
    // the tag is there, the trailer is not
    let all = pull_all(b"bplist00".to_vec());
    assert_eq!(all.len(), 1);
    assert!(matches!(all[0], Err(ParserError::Io(_))));
    assert_eq!(failure(b"bplist00 too short".to_vec()), ErrorClass::Io);
}

#[test]
fn bad_widths_in_the_trailer() {
    let good = source(&[boolean(true)], 0);
    for width in [0u8, 3, 5, 9, 255] {
        let mut bytes = good.clone();
        let at = bytes.len() - 26;
        bytes[at] = width;
        assert_eq!(failure(bytes), ErrorClass::InvalidData);
        let mut bytes = good.clone();
        let at = bytes.len() - 25;
        bytes[at] = width;
        assert_eq!(failure(bytes), ErrorClass::InvalidData);
    }
}

#[test]
fn offset_past_the_end_is_an_unexpected_end() {
    let mut bytes = source(&[boolean(true)], 0);
    // the table has one entry, one byte wide, right before the trailer
    let at = bytes.len() - 33;
    bytes[at] = 200;
    assert_eq!(failure(bytes), ErrorClass::UnexpectedEof);
    // the table itself lies past the end
    let mut bytes = source(&[boolean(true)], 0);
    let at = bytes.len() - 8;
    bytes[at..].copy_from_slice(&1000u64.to_be_bytes());
    assert_eq!(failure(bytes), ErrorClass::UnexpectedEof);
}

#[test]
fn truncated_source_always_fails() {
    let whole = fixture();
    assert!(events(whole.clone()).len() == 23);
    for cut in 0..whole.len() - 32 {
        let bytes = whole[..cut].to_vec();
        let all = pull_all(bytes.clone());
        let last = all.last().expect("nothing was handed out");
        match last {
            Err(e) => assert!(matches!(
                e.class(),
                ErrorClass::InvalidData | ErrorClass::UnexpectedEof | ErrorClass::Io
            )),
            Ok(_) => panic!("a truncated source was decoded to its end"),
        }
        assert!(Builder::new(bytes).build().is_err());
    }
}

#[test]
fn exhausted_decoder_stays_exhausted() {
    let mut reader = BinaryReader::new(source(&[boolean(true)], 0));
    assert_eq!(reader.next().unwrap().unwrap(), PlistEvent::BooleanValue(true));
    for _ in 0..5 {
        assert!(reader.next().is_none());
    }
    let mut reader = BinaryReader::new(b"not a property list at all, but long enough".to_vec());
    assert!(matches!(reader.next(), Some(Err(ParserError::InvalidData))));
    for _ in 0..5 {
        assert!(reader.next().is_none());
    }
    let mut reader = BinaryReader::new(source(&[array(&[1]), vec![0x00]], 0));
    assert_eq!(reader.next().unwrap().unwrap(), PlistEvent::StartArray(Some(1)));
    assert!(matches!(reader.next(), Some(Err(ParserError::InvalidData))));
    for _ in 0..5 {
        assert!(reader.next().is_none());
    }
}

#[test]
fn decoder_is_chosen_by_the_tag() {
    let mut parser = StreamingParser::new(source(&[boolean(true)], 0));
    assert!(matches!(parser, StreamingParser::Binary(_)));
    assert_eq!(parser.next().unwrap().unwrap(), PlistEvent::BooleanValue(true));
    assert!(parser.next().is_none());

    let text = b"<?xml version=\"1.0\"?><plist><true/></plist>".to_vec();
    let mut parser = StreamingParser::new(text.clone());
    assert!(matches!(parser, StreamingParser::Xml(_)));
    assert!(matches!(parser.next(), Some(Err(ParserError::UnsupportedType))));
    assert!(parser.next().is_none());
    match StreamingParser::new(text.clone()) {
        StreamingParser::Xml(source) => assert_eq!(source.into_bytes(), text),
        _ => panic!("not textual"),
    }
    assert!(matches!(StreamingParser::new(b"bplist0".to_vec()), StreamingParser::Xml(_)));

    let r = Builder::new(text).build();
    assert!(matches!(r, Err(BuilderError::ParserError(ParserError::UnsupportedType))));
}

#[test]
fn damaged_sources_end_in_a_value_or_a_failure() {
    let whole = fixture();
    let mut state: u32 = 0x9e37_79b9;
    let mut failures = 0;
    for round in 0..20_000usize {
        let mut bytes = whole.clone();
        let changes = 1 + round % 4;
        for _ in 0..changes {
            state = state.wrapping_mul(1_664_525).wrapping_add(1_013_904_223);
            let at = (state >> 8) as usize % bytes.len();
            state = state.wrapping_mul(1_664_525).wrapping_add(1_013_904_223);
            bytes[at] = (state >> 24) as u8;
        }
        let mut reader = BinaryReader::new(bytes.clone());
        let mut handed_out = 0;
        let mut failed = false;
        while let Some(item) = reader.next() {
            // nothing follows a failure
            assert!(!failed);
            failed = item.is_err();
            handed_out += 1;
            if handed_out == 100_000 {
                break;
            }
        }
        if handed_out < 100_000 {
            assert!(reader.next().is_none());
            let built = Builder::new(bytes).build();
            if failed {
                // the build ends at the failure, or before it for a reason of its own
                assert!(built.is_err());
                failures += 1;
            }
        }
    }
    assert!(failures > 1_000);
}

#[test]
fn cut_source_that_is_itself_a_property_list_is_decoded() {
    // a whole property list, then a second table of offsets and a second
    // trailer that refer to its one object
    let inner = source(&[boolean(true)], 0);
    let mut whole = inner.clone();
    let table = whole.len() as u64;
    whole.push(8);
    whole.extend_from_slice(&[0; 6]);
    whole.push(1);
    whole.push(1);
    whole.extend_from_slice(&1u64.to_be_bytes());
    whole.extend_from_slice(&0u64.to_be_bytes());
    whole.extend_from_slice(&table.to_be_bytes());
    assert_eq!(events(whole.clone()), vec![PlistEvent::BooleanValue(true)]);
    // cut before the trailer, what is left has a trailer of its own
    let cut = inner.len();
    assert!(cut < whole.len() - 32);
    assert_eq!(events(whole[..cut].to_vec()), vec![PlistEvent::BooleanValue(true)]);
    // any other cut before the trailer fails
    for other in 0..whole.len() - 32 {
        if other != cut {
            let class = failure(whole[..other].to_vec());
            assert!(matches!(
                class,
                ErrorClass::InvalidData | ErrorClass::UnexpectedEof | ErrorClass::Io
            ));
        }
    }
}
