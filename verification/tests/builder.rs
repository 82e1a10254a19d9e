use plist::{
    Builder, BuilderError, Dictionary, Integer, ParserError, Plist, PlistEvent, Real, VecStream,
};

fn build(events: Vec<PlistEvent>) -> Result<Plist, BuilderError> {
    Builder::from_event_stream(VecStream::from_events(events)).build()
}

fn string(text: &str) -> PlistEvent {
    PlistEvent::StringValue(text.to_owned())
}

#[test]
fn builder() {
    // Input

    let events = vec![
        PlistEvent::StartPlist,
        PlistEvent::StartDictionary(None),
        PlistEvent::StringValue("Author".to_owned()),
        PlistEvent::StringValue("William Shakespeare".to_owned()),
        PlistEvent::StringValue("Lines".to_owned()),
        PlistEvent::StartArray(None),
        PlistEvent::StringValue("It is a tale told by an idiot,".to_owned()),
        PlistEvent::StringValue("Full of sound and fury, signifying nothing.".to_owned()),
        PlistEvent::EndCollection,
        PlistEvent::StringValue("Birthdate".to_owned()),
        PlistEvent::IntegerValue(Integer::from(1564i64)),
        PlistEvent::StringValue("Height".to_owned()),
        PlistEvent::RealValue(Real::from_bits(1.60f64.to_bits())),
        PlistEvent::EndCollection,
        PlistEvent::EndPlist,
    ];

    let builder = Builder::from_event_stream(VecStream::from_events(events));
    let plist = builder.build();

    // Expected output

    let mut lines = Vec::new();
    lines.push(Plist::String("It is a tale told by an idiot,".to_owned()));
    lines.push(Plist::String("Full of sound and fury, signifying nothing.".to_owned()));

    let mut dict = Dictionary::new();
    dict.insert("Author".to_owned(), Plist::String("William Shakespeare".to_owned()));
    dict.insert("Lines".to_owned(), Plist::Array(lines));
    dict.insert("Birthdate".to_owned(), Plist::Integer(Integer::from(1564i64)));
    dict.insert("Height".to_owned(), Plist::Real(Real::from_bits(1.60f64.to_bits())));

    assert_eq!(plist.unwrap(), Plist::Dictionary(dict));
}

#[test]
fn scalar_events_become_leaves() {
    assert_eq!(build(vec![PlistEvent::BooleanValue(true)]).unwrap(), Plist::Boolean(true));
    assert_eq!(build(vec![PlistEvent::DataValue(vec![1, 2, 3])]).unwrap(), Plist::Data(vec![1, 2, 3]));
    assert_eq!(
        build(vec![PlistEvent::IntegerValue(Integer::from(u64::MAX))]).unwrap(),
        Plist::Integer(Integer::from(u64::MAX))
    );
    assert_eq!(build(vec![string("x")]).unwrap(), Plist::String("x".to_owned()));
}

#[test]
fn empty_stream_is_invalid() {
    assert!(matches!(build(vec![]), Err(BuilderError::InvalidEvent)));
    assert!(matches!(build(vec![PlistEvent::StartPlist]), Err(BuilderError::InvalidEvent)));
}

#[test]
fn closing_event_where_a_value_is_due_is_invalid() {
    assert!(matches!(build(vec![PlistEvent::EndCollection]), Err(BuilderError::InvalidEvent)));
    assert!(matches!(build(vec![PlistEvent::EndPlist]), Err(BuilderError::InvalidEvent)));
    assert!(matches!(
        build(vec![PlistEvent::StartPlist, PlistEvent::StartPlist]),
        Err(BuilderError::InvalidEvent)
    ));
}

#[test]
fn array_that_never_closes_is_invalid() {
    assert!(matches!(
        build(vec![PlistEvent::StartArray(Some(1)), string("a")]),
        Err(BuilderError::InvalidEvent)
    ));
}

#[test]
fn second_value_is_invalid() {
    assert!(matches!(build(vec![string("a"), string("b")]), Err(BuilderError::InvalidEvent)));
    assert!(matches!(
        build(vec![PlistEvent::StartArray(None), PlistEvent::EndCollection, PlistEvent::EndCollection]),
        Err(BuilderError::InvalidEvent)
    ));
}

#[test]
fn closing_frame_may_follow_the_value() {
    assert_eq!(build(vec![string("a"), PlistEvent::EndPlist]).unwrap(), Plist::String("a".to_owned()));
    assert_eq!(
        build(vec![PlistEvent::StartPlist, string("a"), PlistEvent::EndPlist]).unwrap(),
        Plist::String("a".to_owned())
    );
    let items = vec![
        Ok(string("a")),
        Ok(PlistEvent::EndPlist),
        Err(ParserError::UnexpectedEof),
    ];
    let r = Builder::from_event_stream(VecStream::new(items)).build();
    assert!(matches!(r, Err(BuilderError::ParserError(ParserError::UnexpectedEof))));
}

#[test]
fn nothing_may_follow_the_closing_frame() {
    assert!(matches!(
        build(vec![string("a"), PlistEvent::EndPlist, string("b")]),
        Err(BuilderError::InvalidEvent)
    ));
    assert!(matches!(
        build(vec![PlistEvent::BooleanValue(true), PlistEvent::EndPlist, PlistEvent::EndPlist]),
        Err(BuilderError::InvalidEvent)
    ));
    assert!(matches!(
        build(vec![
            PlistEvent::StartPlist,
            PlistEvent::StartArray(None),
            PlistEvent::EndCollection,
            PlistEvent::EndPlist,
            PlistEvent::StartPlist,
        ]),
        Err(BuilderError::InvalidEvent)
    ));
    assert!(matches!(
        build(vec![string("a"), PlistEvent::EndPlist, PlistEvent::EndCollection]),
        Err(BuilderError::InvalidEvent)
    ));
}

#[test]
fn non_string_key_is_unsupported() {
    let r = build(vec![
        PlistEvent::StartDictionary(None),
        PlistEvent::IntegerValue(Integer::from(1i64)),
        string("a"),
        PlistEvent::EndCollection,
    ]);
    assert!(matches!(r, Err(BuilderError::UnsupportedDictionaryKey)));
    let r = build(vec![
        PlistEvent::StartDictionary(None),
        string("k"),
        string("v"),
        PlistEvent::StartArray(None),
    ]);
    assert!(matches!(r, Err(BuilderError::UnsupportedDictionaryKey)));
    // the events end where a key is due
    let r = build(vec![PlistEvent::StartDictionary(None), string("k"), string("v")]);
    assert!(matches!(r, Err(BuilderError::UnsupportedDictionaryKey)));
    // the events end where a value is due
    let r = build(vec![PlistEvent::StartDictionary(None), string("k")]);
    assert!(matches!(r, Err(BuilderError::InvalidEvent)));
}

#[test]
fn later_key_replaces_earlier() {
    let r = build(vec![
        PlistEvent::StartDictionary(Some(2)),
        string("k"),
        string("first"),
        string("k"),
        string("second"),
        PlistEvent::EndCollection,
    ])
    .unwrap();
    match r {
        Plist::Dictionary(d) => {
            assert_eq!(d.len(), 1);
            assert_eq!(d.get(&"k".to_owned()), Some(&Plist::String("second".to_owned())));
        }
        _ => panic!("not a dictionary"),
    }
}

#[test]
fn failure_of_the_producer_is_passed_on() {
    let items = vec![
        Ok(PlistEvent::StartArray(None)),
        Ok(string("a")),
        Err(ParserError::InvalidData),
        Ok(PlistEvent::EndCollection),
    ];
    let r = Builder::from_event_stream(VecStream::new(items)).build();
    assert!(matches!(r, Err(BuilderError::ParserError(ParserError::InvalidData))));
    let items = vec![Err(ParserError::UnsupportedType)];
    let r = Builder::from_event_stream(VecStream::new(items)).build();
    assert!(matches!(r, Err(BuilderError::ParserError(ParserError::UnsupportedType))));
}

#[test]
fn declared_length_is_only_a_hint() {
    let r = build(vec![
        PlistEvent::StartArray(Some(u64::MAX)),
        string("a"),
        PlistEvent::EndCollection,
    ])
    .unwrap();
    assert_eq!(r, Plist::Array(vec![Plist::String("a".to_owned())]));
    let r = build(vec![PlistEvent::StartArray(Some(0)), string("a"), string("b"), PlistEvent::EndCollection])
        .unwrap();
    assert_eq!(r, Plist::Array(vec![Plist::String("a".to_owned()), Plist::String("b".to_owned())]));
}

#[test]
fn nested_containers() {
    let r = build(vec![
        PlistEvent::StartArray(None),
        PlistEvent::StartArray(None),
        PlistEvent::EndCollection,
        PlistEvent::StartDictionary(None),
        string("k"),
        PlistEvent::StartArray(None),
        PlistEvent::BooleanValue(false),
        PlistEvent::EndCollection,
        PlistEvent::EndCollection,
        PlistEvent::EndCollection,
    ])
    .unwrap();
    let mut d = Dictionary::new();
    d.insert("k".to_owned(), Plist::Array(vec![Plist::Boolean(false)]));
    assert_eq!(r, Plist::Array(vec![Plist::Array(vec![]), Plist::Dictionary(d)]));
}

#[test]
fn builder_error_from_parser_error() {
    let e = BuilderError::from(ParserError::UnexpectedEof);
    assert!(matches!(e, BuilderError::ParserError(ParserError::UnexpectedEof)));
}
