use plist::bytes::Source;
use plist::text::{decode_ascii, decode_utf16};
use plist::{
    Date, Dictionary, ErrorClass, EventStream, Integer, ParserError, Plist, PlistEvent, Real,
    VecStream,
};

fn widened(bits: u32) -> u64 {
    Real::from_single_bits(bits).to_bits()
}

#[test]
fn widening_agrees_with_the_machine_on_chosen_numbers() {
    let chosen: [u32; 18] = [
        0x0000_0000,
        0x8000_0000,
        0x0000_0001,
        0x0000_0002,
        0x0000_0003,
        0x0040_0000,
        0x007f_ffff,
        0x0080_0000,
        0x0080_0001,
        0x3f80_0000,
        0x3fcc_cccd,
        0x7f7f_ffff,
        0x7f80_0000,
        0xff80_0000,
        0x8000_0001,
        0x807f_ffff,
        0xc2f6_e979,
        0x4049_0fdb,
    ];
    for bits in chosen {
        assert_eq!(widened(bits), (f32::from_bits(bits) as f64).to_bits(), "{:#x}", bits);
    }
    assert_eq!(widened(0x3fc0_0000), 1.5f64.to_bits());
    assert_eq!(widened(0x0000_0001), 0x36a0_0000_0000_0000);
    assert_eq!(widened(0x7f80_0000), f64::INFINITY.to_bits());
}

#[test]
fn widening_agrees_with_the_machine_on_many_numbers() {
    let mut state: u32 = 0x1234_5678;
    let mut seen = 0;
    for round in 0..200_000u32 {
        state = state.wrapping_mul(1_664_525).wrapping_add(1_013_904_223);
        // every fourth number is one with the least exponent
        let bits = if round % 4 == 0 { state & 0x807f_ffff } else { state };
        let number = f32::from_bits(bits);
        if number.is_nan() {
            continue;
        }
        assert_eq!(widened(bits), (number as f64).to_bits(), "{:#x}", bits);
        seen += 1;
    }
    assert!(seen > 190_000);
}

#[test]
fn widening_keeps_what_is_not_a_number() {
    for bits in [0x7fc0_0000u32, 0xffc0_0000, 0x7f80_0001, 0xff80_0001, 0x7fff_ffff, 0x7fa5_a5a5] {
        let wide = widened(bits);
        assert!(f64::from_bits(wide).is_nan());
        // the sign stays, the fraction moves up, and its highest bit is set
        assert_eq!(wide >> 63, (bits >> 31) as u64);
        assert_eq!(wide & (1 << 51), 1 << 51);
        assert_eq!((wide >> 29) & 0x3f_ffff, (bits & 0x3f_ffff) as u64);
    }
}

#[test]
fn real_keeps_its_bits() {
    assert_eq!(Real::from_bits(1.6f64.to_bits()).to_bits(), 1.6f64.to_bits());
    assert_eq!(Real::from_bits(7), Real::from_bits(7));
    assert_ne!(Real::from_bits(0), Real::from_bits(1 << 63));
}

fn date_at(offset: f64) -> Option<(i64, u32)> {
    Date::from_seconds_since_plist_epoch(offset.to_bits()).map(|d| (d.unix_seconds(), d.subsec_nanos()))
}

#[test]
fn dates_count_from_2001() {
    assert_eq!(date_at(0.0), Some((978_307_200, 0)));
    assert_eq!(date_at(-0.0), Some((978_307_200, 0)));
    assert_eq!(date_at(1.0), Some((978_307_201, 0)));
    assert_eq!(date_at(1.5), Some((978_307_201, 500_000_000)));
    assert_eq!(date_at(-1.5), Some((978_307_198, 500_000_000)));
    assert_eq!(date_at(-1.0), Some((978_307_199, 0)));
    assert_eq!(date_at(-978_307_200.0), Some((0, 0)));
    assert_eq!(date_at(-978_307_200.25), Some((-1, 750_000_000)));
    assert_eq!(date_at(-619_446_474.0), Some((358_860_726, 0)));
    assert_eq!(date_at(0.000_000_001_5), Some((978_307_200, 1)));
    assert_eq!(date_at(1.0e-10), Some((978_307_200, 0)));
    assert_eq!(date_at(f64::MIN_POSITIVE), Some((978_307_200, 0)));
    assert_eq!(date_at(5.0e-324), Some((978_307_200, 0)));
    assert_eq!(date_at(123_456_789.125), Some((1_101_763_989, 125_000_000)));
    // two to the power 52 and a half cannot be told from its neighbours
    assert_eq!(date_at(4_503_599_627_370_496.0), Some((4_503_599_627_370_496 + 978_307_200, 0)));
    assert_eq!(date_at(4_503_599_627_370_495.5), Some((4_503_599_627_370_495 + 978_307_200, 500_000_000)));
}

#[test]
fn dates_out_of_range_are_refused() {
    assert_eq!(date_at(f64::NAN), None);
    assert_eq!(date_at(f64::INFINITY), None);
    assert_eq!(date_at(f64::NEG_INFINITY), None);
    assert_eq!(date_at(f64::MAX), None);
    assert_eq!(date_at(f64::MIN), None);
    assert_eq!(date_at(1.0e19), None);
    assert_eq!(date_at(-1.0e19), None);
    // the greatest number below two to the power 63
    let below = 9_223_372_036_854_774_784.0f64;
    assert_eq!(date_at(below), None);
    assert_eq!(date_at(9.0e18), Some((9_000_000_000_000_000_000 + 978_307_200, 0)));
    // the least instant lies two to the power 63 seconds before 1970
    assert_eq!(date_at(-9_223_372_036_854_775_808.0), Some((i64::MIN + 978_307_200, 0)));
    assert_eq!(date_at(-9_223_372_036_854_777_856.0), Some((i64::MIN + 978_307_200 - 2048, 0)));
    // numbers of this size are multiples of 2048
    let least = -(9_223_372_036_854_775_808.0f64 + 978_307_072.0);
    assert_eq!(date_at(least), Some((i64::MIN + 128, 0)));
    let too_early = -(9_223_372_036_854_775_808.0f64 + 978_309_120.0);
    assert_eq!(date_at(too_early), None);
    assert_eq!(date_at(-18_446_744_073_709_551_616.0), None);
}

#[test]
fn date_from_its_parts() {
    let d = Date::from_unix(-5, 999_999_999).unwrap();
    assert_eq!(d.unix_seconds(), -5);
    assert_eq!(d.subsec_nanos(), 999_999_999);
    assert!(Date::from_unix(0, 1_000_000_000).is_none());
    assert_eq!(Date::from_unix(7, 8), Date::from_unix(7, 8));
}

#[test]
fn integers_hold_both_ranges() {
    assert_eq!(Integer::from(-1i64).as_signed(), Some(-1));
    assert_eq!(Integer::from(-1i64).as_unsigned(), None);
    assert_eq!(Integer::from(i64::MIN).as_signed(), Some(i64::MIN));
    assert_eq!(Integer::from(u64::MAX).as_unsigned(), Some(u64::MAX));
    assert_eq!(Integer::from(u64::MAX).as_signed(), None);
    assert_eq!(Integer::from(5u64), Integer::from(5i64));
    assert_eq!(Integer::from_signed(5), Integer::from_unsigned(5));
    assert_ne!(Integer::from(-1i64), Integer::from(u64::MAX));
    assert_eq!(Integer::from(i64::MAX).as_unsigned(), Some(i64::MAX as u64));
}

#[test]
fn dictionary_keeps_one_value_for_a_key() {
    let mut d = Dictionary::new();
    assert_eq!(d.len(), 0);
    assert_eq!(d.insert("a".to_owned(), Plist::Boolean(true)), None);
    assert_eq!(d.insert("b".to_owned(), Plist::Boolean(false)), None);
    assert_eq!(d.insert("a".to_owned(), Plist::String("x".to_owned())), Some(Plist::Boolean(true)));
    assert_eq!(d.len(), 2);
    assert!(d.contains_key(&"a".to_owned()));
    assert!(!d.contains_key(&"c".to_owned()));
    assert_eq!(d.get(&"a".to_owned()), Some(&Plist::String("x".to_owned())));
    assert_eq!(d.get(&"b".to_owned()), Some(&Plist::Boolean(false)));
    assert_eq!(d.get(&"c".to_owned()), None);
    let copy = d.clone();
    assert_eq!(copy, d);
    let entries = d.into_entries();
    assert_eq!(
        entries,
        vec![
            ("a".to_owned(), Plist::String("x".to_owned())),
            ("b".to_owned(), Plist::Boolean(false)),
        ]
    );
}

#[test]
fn dictionaries_are_equal_whatever_the_order_of_their_keys() {
    let mut a = Dictionary::new();
    a.insert("x".to_owned(), Plist::Boolean(true));
    a.insert("y".to_owned(), Plist::Integer(Integer::from(2i64)));
    let mut b = Dictionary::new();
    b.insert("y".to_owned(), Plist::Integer(Integer::from(2u64)));
    b.insert("x".to_owned(), Plist::Boolean(true));
    assert_eq!(a, b);
    assert!(a.same(&b));
    assert_eq!(Plist::Dictionary(a.clone()), Plist::Dictionary(b.clone()));
    b.insert("x".to_owned(), Plist::Boolean(false));
    assert_ne!(a, b);
    b.insert("x".to_owned(), Plist::Boolean(true));
    assert_eq!(a, b);
    b.insert("z".to_owned(), Plist::Boolean(true));
    assert_ne!(a, b);
    assert_ne!(b, a);
    let mut c = Dictionary::new();
    c.insert("x".to_owned(), Plist::Boolean(true));
    c.insert("w".to_owned(), Plist::Integer(Integer::from(2i64)));
    assert_ne!(a, c);
    assert_eq!(Dictionary::new(), Dictionary::new());
}

#[test]
fn property_lists_are_compared_by_value() {
    let leaves = vec![
        Plist::Array(vec![]),
        Plist::Array(vec![Plist::Boolean(true)]),
        Plist::Array(vec![Plist::Boolean(false)]),
        Plist::Array(vec![Plist::Boolean(true), Plist::Boolean(true)]),
        Plist::Dictionary(Dictionary::new()),
        Plist::Boolean(true),
        Plist::Boolean(false),
        Plist::Data(vec![]),
        Plist::Data(vec![1]),
        Plist::Data(vec![2]),
        Plist::Data(vec![1, 2]),
        Plist::Date(Date::from_unix(1, 0).unwrap()),
        Plist::Date(Date::from_unix(0, 1).unwrap()),
        Plist::Real(Real::from_bits(1)),
        Plist::Real(Real::from_bits(2)),
        Plist::Integer(Integer::from(1i64)),
        Plist::Integer(Integer::from(2i64)),
        Plist::String("1".to_owned()),
        Plist::String("".to_owned()),
    ];
    for (i, a) in leaves.iter().enumerate() {
        for (j, b) in leaves.iter().enumerate() {
            assert_eq!(a == b, i == j);
            assert_eq!(a.same_value(b), i == j);
        }
    }
}

#[test]
fn plist_copies_are_equal() {
    let mut d = Dictionary::new();
    d.insert("k".to_owned(), Plist::Array(vec![Plist::Data(vec![1, 2]), Plist::Integer(Integer::from(3i64))]));
    let p = Plist::Array(vec![
        Plist::Dictionary(d),
        Plist::Date(Date::from_unix(1, 2).unwrap()),
        Plist::Real(Real::from_bits(9)),
        Plist::String("s".to_owned()),
    ]);
    assert_eq!(p.clone(), p);
    assert_eq!(p.duplicate(), p);
    assert_ne!(p, Plist::Boolean(true));
}

#[test]
fn event_copies_are_equal() {
    let all = vec![
        PlistEvent::StartPlist,
        PlistEvent::EndPlist,
        PlistEvent::StartArray(Some(3)),
        PlistEvent::StartDictionary(None),
        PlistEvent::EndCollection,
        PlistEvent::BooleanValue(true),
        PlistEvent::DataValue(vec![1]),
        PlistEvent::DateValue(Date::from_unix(1, 2).unwrap()),
        PlistEvent::IntegerValue(Integer::from(1i64)),
        PlistEvent::RealValue(Real::from_bits(1)),
        PlistEvent::StringValue("s".to_owned()),
    ];
    for e in &all {
        assert_eq!(&e.clone(), e);
    }
}

#[test]
fn text_in_utf8() {
    assert_eq!(decode_ascii(b"plain".to_vec()).unwrap(), "plain");
    assert_eq!(decode_ascii(vec![0xe2, 0x98, 0x85]).unwrap(), "\u{2605}");
    assert_eq!(decode_ascii(vec![]).unwrap(), "");
    assert!(matches!(decode_ascii(vec![0x80]), Err(ParserError::InvalidData)));
    assert!(matches!(decode_ascii(vec![0xc0, 0x80]), Err(ParserError::InvalidData)));
    assert!(matches!(decode_ascii(vec![0xed, 0xa0, 0x80]), Err(ParserError::InvalidData)));
    assert!(matches!(decode_ascii(vec![0xe2, 0x98]), Err(ParserError::InvalidData)));
}

#[test]
fn text_in_utf16() {
    assert_eq!(decode_utf16(&vec![0x0068, 0x0069]).unwrap(), "hi");
    assert_eq!(decode_utf16(&vec![0x2605]).unwrap(), "\u{2605}");
    assert_eq!(decode_utf16(&vec![0xD83D, 0xDE00]).unwrap(), "\u{1F600}");
    assert_eq!(decode_utf16(&vec![0xD800, 0xDC00, 0xDBFF, 0xDFFF]).unwrap(), "\u{10000}\u{10FFFF}");
    assert_eq!(decode_utf16(&vec![]).unwrap(), "");
    assert!(matches!(decode_utf16(&vec![0xD800]), Err(ParserError::InvalidData)));
    assert!(matches!(decode_utf16(&vec![0xDC00, 0xD800]), Err(ParserError::InvalidData)));
    assert!(matches!(decode_utf16(&vec![0xD800, 0x0041]), Err(ParserError::InvalidData)));
    assert!(matches!(decode_utf16(&vec![0x0041, 0xDFFF]), Err(ParserError::InvalidData)));
}

#[test]
fn stream_of_given_items_hands_them_out_in_order() {
    let mut s = VecStream::from_events(vec![PlistEvent::BooleanValue(true), PlistEvent::EndCollection]);
    assert_eq!(s.next().unwrap().unwrap(), PlistEvent::BooleanValue(true));
    assert_eq!(s.next().unwrap().unwrap(), PlistEvent::EndCollection);
    assert!(s.next().is_none());
    assert!(s.next().is_none());
    let mut s = VecStream::new(vec![
        Err(ParserError::UnexpectedEof),
        Ok(PlistEvent::StartPlist),
    ]);
    assert!(matches!(s.next(), Some(Err(ParserError::UnexpectedEof))));
    assert!(matches!(s.next(), Some(Ok(PlistEvent::StartPlist))));
    assert!(s.next().is_none());
}

#[test]
fn failure_of_a_read_through_byteorder() {
    let short = ParserError::from(byteorder::Error::UnexpectedEOF);
    assert!(matches!(short, ParserError::UnexpectedEof));
    let io = std::io::Error::new(std::io::ErrorKind::PermissionDenied, "no");
    match ParserError::from(byteorder::Error::Io(io)) {
        ParserError::Io(inner) => assert_eq!(inner.kind(), std::io::ErrorKind::PermissionDenied),
        _ => panic!("not a failure of reading"),
    }
}

#[test]
fn failure_of_reading() {
    let io = std::io::Error::new(std::io::ErrorKind::NotFound, "gone");
    match ParserError::from(io) {
        ParserError::Io(inner) => assert_eq!(inner.kind(), std::io::ErrorKind::NotFound),
        _ => panic!("not a failure of reading"),
    }
}

#[test]
fn failures_have_classes() {
    assert_eq!(ParserError::InvalidData.class(), ErrorClass::InvalidData);
    assert_eq!(ParserError::UnexpectedEof.class(), ErrorClass::UnexpectedEof);
    assert_eq!(ParserError::UnsupportedType.class(), ErrorClass::UnsupportedType);
    let io = std::io::Error::new(std::io::ErrorKind::Other, "x");
    assert_eq!(ParserError::Io(io).class(), ErrorClass::Io);
}

#[test]
fn source_reads_big_endian() {
    let mut s = Source::new(vec![
        0x01, 0x02, 0x03, 0x04, 0x05, 0x06, 0x07, 0x08, 0x09, 0x0a, 0x0b, 0x0c, 0x0d, 0x0e, 0x0f,
        0x10, 0xff,
    ]);
    assert_eq!(s.len(), 17);
    assert_eq!(s.read_u8().unwrap(), 1);
    assert_eq!(s.position(), 1);
    assert_eq!(s.read_be_u16().unwrap(), 0x0203);
    assert_eq!(s.read_be_u32().unwrap(), 0x0405_0607);
    assert_eq!(s.read_be_u64().unwrap(), 0x0809_0a0b_0c0d_0e0f);
    assert!(matches!(s.read_be_u32(), Err(ParserError::UnexpectedEof)));
    assert_eq!(s.position(), 15);
    assert_eq!(s.seek(0), 0);
    assert_eq!(s.read_be_i128().unwrap(), 0x0102_0304_0506_0708_090a_0b0c_0d0e_0f10);
    assert_eq!(s.read_u8().unwrap(), 0xff);
    assert!(matches!(s.read_u8(), Err(ParserError::UnexpectedEof)));
    s.seek(6);
    assert_eq!(s.read_exact(2).unwrap(), vec![7, 8]);
    assert_eq!(s.seek_from_end(1).unwrap(), 16);
    assert_eq!(s.read_exact(1).unwrap(), vec![0xff]);
    assert!(matches!(s.seek_from_end(18), Err(ParserError::Io(_))));
    assert_eq!(s.position(), 17);
    s.seek(1000);
    assert_eq!(s.read_exact(0).unwrap(), Vec::<u8>::new());
    assert!(matches!(s.read_exact(1), Err(ParserError::UnexpectedEof)));
    assert!(matches!(s.read_be_i128(), Err(ParserError::UnexpectedEof)));
    assert_eq!(s.position(), 1000);
    assert_eq!(s.into_bytes().len(), 17);
}

#[test]
fn source_reads_two_s_complement() {
    let mut s = Source::new(vec![0xff; 24]);
    assert_eq!(s.read_be_i64().unwrap(), -1);
    assert_eq!(s.read_be_i128().unwrap(), -1);
    let mut s = Source::new(vec![0x80, 0, 0, 0, 0, 0, 0, 0]);
    assert_eq!(s.read_be_i64().unwrap(), i64::MIN);
    let mut bytes = vec![0x80];
    bytes.extend_from_slice(&[0; 15]);
    let mut s = Source::new(bytes);
    assert_eq!(s.read_be_i128().unwrap(), i128::MIN);
    let mut bytes = vec![0x7f];
    bytes.extend_from_slice(&[0xff; 15]);
    let mut s = Source::new(bytes);
    assert_eq!(s.read_be_i128().unwrap(), i128::MAX);
    let mut s = Source::new(vec![0x7f, 0xff, 0xff, 0xff, 0xff, 0xff, 0xff, 0xfe]);
    assert_eq!(s.read_be_i64().unwrap(), i64::MAX - 1);
}
