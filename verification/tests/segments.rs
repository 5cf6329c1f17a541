use lookup::{LookupBuf, SegmentBuf};
use std::collections::VecDeque;

const SUFFICIENTLY_COMPLEX: &str =
    r#"regular."quoted"."quoted but spaces"."quoted.but.periods".lookup[0].nested_lookup[0][0]"#;

fn sufficiently_decomposed() -> [SegmentBuf; 9] {
    [
        SegmentBuf::from(r#"regular"#.to_string()),
        SegmentBuf::from(r#""quoted""#.to_string()),
        SegmentBuf::from(r#""quoted but spaces""#.to_string()),
        SegmentBuf::from(r#""quoted.but.periods""#.to_string()),
        SegmentBuf::from(r#"lookup"#.to_string()),
        SegmentBuf::from(0),
        SegmentBuf::from(r#"nested_lookup"#.to_string()),
        SegmentBuf::from(0),
        SegmentBuf::from(0),
    ]
}

fn group(alternatives: Vec<Vec<SegmentBuf>>) -> SegmentBuf {
    SegmentBuf::coalesce(alternatives.into_iter().map(VecDeque::from).collect()).unwrap()
}

#[test]
fn test_indexed_coalesce_from_string() {
    let parsed = LookupBuf::from_str("(a | b)[2]").unwrap();
    assert_eq!("(a | b)[2]", parsed.to_string());
}

#[test]
fn zero_len_not_allowed() {
    let input = "";
    let maybe_lookup = LookupBuf::from_str(input);
    assert!(maybe_lookup.is_err());
}

#[test]
fn we_dont_parse_plain_strings_in_from() {
    let input = "some_key.still_the_same_key.this.is.going.in.via.from.and.should.not.get.parsed";
    let lookup = LookupBuf::from(input);
    assert_eq!(lookup[0], SegmentBuf::from(String::from(input)));
    assert_eq!(lookup.to_string(), input);
}

#[test]
fn simple() {
    let input = "some_key";
    let lookup = LookupBuf::from_str(input).unwrap();
    assert_eq!(lookup[0], SegmentBuf::from(String::from("some_key")));
    assert_eq!(lookup.to_string(), input);
}

#[test]
fn quoted() {
    let input = "\"start\".\"after\"";
    let lookup = LookupBuf::from_str(input).unwrap();
    assert_eq!(lookup[0], SegmentBuf::from(String::from("\"start\"")));
    assert_eq!(lookup[1], SegmentBuf::from(String::from("\"after\"")));
    assert_eq!(lookup.to_string(), input);
}

#[test]
fn coalesced() {
    let input = "plain.(option_one | option_two)";
    let lookup = LookupBuf::from_str(input).unwrap();
    assert_eq!(lookup[0], SegmentBuf::from("plain".to_string()));
    assert_eq!(
        lookup[1],
        group(vec![
            vec![SegmentBuf::from("option_one".to_string())],
            vec![SegmentBuf::from("option_two".to_string())],
        ])
    );
}

#[test]
fn coalesced_nesting() {
    let input = "plain.(option_one.inner | option_two.other_inner)";
    let lookup = LookupBuf::from_str(input).unwrap();
    assert_eq!(lookup[0], SegmentBuf::from("plain".to_string()));
    assert_eq!(
        lookup[1],
        group(vec![
            vec![
                SegmentBuf::from("option_one".to_string()),
                SegmentBuf::from("inner".to_string())
            ],
            vec![
                SegmentBuf::from("option_two".to_string()),
                SegmentBuf::from("other_inner".to_string())
            ],
        ]),
    );
}

#[test]
fn push() {
    let input = "some_key";
    let mut lookup = LookupBuf::from_str(input).unwrap();
    lookup.push_back(SegmentBuf::from(String::from(input)));
    assert_eq!(lookup[0], SegmentBuf::from(String::from("some_key")));
    assert_eq!(lookup[1], SegmentBuf::from(String::from("some_key")));
}

#[test]
fn pop() {
    let input = "some_key";
    let mut lookup = LookupBuf::from_str(input).unwrap();
    let out = lookup.pop_back();
    assert_eq!(out, Some(SegmentBuf::from(String::from("some_key"))));
}

#[test]
fn array() {
    let input = "foo[0]";
    let lookup = LookupBuf::from_str(input).unwrap();
    assert_eq!(lookup[0], SegmentBuf::from(String::from("foo")));
    assert_eq!(lookup[1], SegmentBuf::from(0));
    assert_eq!(lookup.to_string(), input);
}

#[test]
fn via_parse() {
    let input = "foo[0]";
    let lookup = input.parse::<LookupBuf>().unwrap();
    assert_eq!(lookup[0], SegmentBuf::from(String::from("foo")));
    assert_eq!(lookup[1], SegmentBuf::from(0));
    assert_eq!(lookup.to_string(), input);
}

#[test]
fn to_string() {
    let input = SUFFICIENTLY_COMPLEX;
    let lookup = LookupBuf::from_str(input).unwrap();
    assert_eq!(lookup.to_string(), input);
}

#[test]
fn impl_index_usize() {
    let lookup = LookupBuf::from_str(SUFFICIENTLY_COMPLEX).unwrap();
    let decomposed = sufficiently_decomposed();

    for i in 0..decomposed.len() {
        assert_eq!(lookup[i], decomposed[i])
    }
}

#[test]
fn iter() {
    let lookup = LookupBuf::from_str(SUFFICIENTLY_COMPLEX).unwrap();
    let decomposed = sufficiently_decomposed();

    let mut iter = lookup.iter();
    for (index, expected) in decomposed.iter().enumerate() {
        let parsed = iter
            .next()
            .unwrap_or_else(|| panic!("Expected at index {}: {:?}, got None.", index, expected));
        assert_eq!(expected, parsed, "Failed at {}", index);
    }
}

#[test]
fn impl_index_mut_index_mut() {
    let mut lookup = LookupBuf::from_str(SUFFICIENTLY_COMPLEX).unwrap();
    let decomposed = sufficiently_decomposed();

    for i in 0..decomposed.len() {
        let x = &mut lookup.segments[i]; // Make sure we force a mutable borrow!
        assert_eq!(*x, decomposed[i])
    }
}

#[test]
fn into_iter() {
    let lookup = LookupBuf::from_str(SUFFICIENTLY_COMPLEX).unwrap();
    let mut iter = lookup.into_segments().into_iter();
    for (index, expected) in sufficiently_decomposed().iter().cloned().enumerate() {
        let parsed = iter
            .next()
            .unwrap_or_else(|| panic!("Expected at index {}: {:?}, got None.", index, expected));
        assert_eq!(expected, parsed, "Failed at {}", index);
    }
}

// Every text below is parsed, written out again and held against itself, also
// after a trip through JSON.
#[test]
fn lookup_to_string_and_serialize() {
    let fixtures = [
        "simple",
        "nested.path.of.fields",
        "array[0]",
        "array[0][1][22]",
        r#""quoted""#,
        r#""quoted with spaces".then.plain"#,
        r#"plain."quoted.with.periods"[3]"#,
        "(a | b)",
        "start.(first | second.deeper | \"third one\").end[0]",
        SUFFICIENTLY_COMPLEX,
    ];
    for buf in fixtures.iter() {
        let buf = buf.to_string();
        let buf_serialized = serde_json::to_string(&serde_json::to_value(&buf).unwrap()).unwrap();
        let lookup = LookupBuf::from_str(&buf).unwrap();
        assert_eq!(lookup.to_string(), buf);
        // Ensure serialization doesn't clobber.
        let serialized = serde_json::to_string(&lookup.to_string()).unwrap();
        assert_eq!(serialized, buf_serialized);
        // Ensure deserializing doesn't clobber.
        let text: String = serde_json::from_str(&serialized).unwrap();
        let deserialized = LookupBuf::from_str(&text).unwrap();
        assert_eq!(lookup, deserialized);
    }
}
