use lookup::{Expected, LookupBuf, LookupError, Segment, SegmentBuf};
use std::collections::VecDeque;

fn field(name: &str) -> SegmentBuf {
    SegmentBuf::field(name.to_string(), false)
}

fn quoted_field(name: &str) -> SegmentBuf {
    SegmentBuf::field(name.to_string(), true)
}

fn group(alternatives: Vec<Vec<SegmentBuf>>) -> SegmentBuf {
    SegmentBuf::coalesce(alternatives.into_iter().map(VecDeque::from).collect()).unwrap()
}

fn segments(lookup: &LookupBuf) -> Vec<SegmentBuf> {
    lookup.iter().cloned().collect()
}

fn malformed(position: usize, expected: Expected) -> LookupError {
    LookupError::MalformedSegment { position, expected }
}

#[test]
fn empty_text_is_an_empty_path_error() {
    assert_eq!(LookupBuf::from_str(""), Err(LookupError::EmptyPath));
}

#[test]
fn empty_segment_list_is_refused() {
    assert_eq!(LookupBuf::try_from(VecDeque::new()), Err(LookupError::EmptyPath));
}

#[test]
fn constructors_give_one_segment() {
    assert_eq!(LookupBuf::from("a").len(), 1);
    assert_eq!(LookupBuf::from(String::from("a")).len(), 1);
    assert_eq!(LookupBuf::from(7usize).len(), 1);
    assert_eq!(LookupBuf::from(field("a")).len(), 1);
    assert_eq!(LookupBuf::from_name("a.b").len(), 1);
    assert_eq!(LookupBuf::from_segment(SegmentBuf::index(3)).len(), 1);
}

#[test]
fn from_does_not_split() {
    let literal = LookupBuf::from("a.b.c");
    assert_eq!(segments(&literal), vec![field("a.b.c")]);
    let parsed = LookupBuf::from_str("a.b.c").unwrap();
    assert_eq!(segments(&parsed), vec![field("a"), field("b"), field("c")]);
}

#[test]
fn quoted_names_keep_their_quotes() {
    let input = "\"start\".\"after\"";
    let lookup = LookupBuf::from_str(input).unwrap();
    assert_eq!(segments(&lookup), vec![quoted_field("start"), quoted_field("after")]);
    assert_eq!(lookup.to_string(), input);
}

#[test]
fn quoted_name_may_hold_delimiters() {
    let lookup = LookupBuf::from_str(r#"a."b.c [0] (d | e)".f"#).unwrap();
    assert_eq!(
        segments(&lookup),
        vec![field("a"), quoted_field("b.c [0] (d | e)"), field("f")]
    );
}

#[test]
fn quoted_name_may_be_empty() {
    let lookup = LookupBuf::from_str(r#""""#).unwrap();
    assert_eq!(segments(&lookup), vec![quoted_field("")]);
    assert_eq!(lookup.to_string(), r#""""#);
}

#[test]
fn index_follows_without_a_dot() {
    let lookup = LookupBuf::from_str("foo[0]").unwrap();
    assert_eq!(segments(&lookup), vec![field("foo"), SegmentBuf::index(0)]);
    assert_eq!(lookup.to_string(), "foo[0]");
}

#[test]
fn field_after_index_takes_a_dot() {
    let lookup = LookupBuf::from_str("foo[0].bar").unwrap();
    assert_eq!(
        segments(&lookup),
        vec![field("foo"), SegmentBuf::index(0), field("bar")]
    );
    assert_eq!(lookup.to_string(), "foo[0].bar");
}

#[test]
fn path_may_begin_with_an_index() {
    let lookup = LookupBuf::from_str("[3][4].x").unwrap();
    assert_eq!(
        segments(&lookup),
        vec![SegmentBuf::index(3), SegmentBuf::index(4), field("x")]
    );
    assert_eq!(lookup.to_string(), "[3][4].x");
}

#[test]
fn coalesce_is_parsed() {
    let lookup = LookupBuf::from_str("plain.(option_one | option_two)").unwrap();
    assert_eq!(
        segments(&lookup),
        vec![
            field("plain"),
            group(vec![vec![field("option_one")], vec![field("option_two")]])
        ]
    );
}

#[test]
fn coalesce_with_index_after_it() {
    let lookup = LookupBuf::from_str("(a | b)[2]").unwrap();
    assert_eq!(
        segments(&lookup),
        vec![group(vec![vec![field("a")], vec![field("b")]]), SegmentBuf::index(2)]
    );
    assert_eq!(lookup.to_string(), "(a | b)[2]");
}

#[test]
fn coalesce_branch_holds_quoted_and_index() {
    let input = r#"(a."b c".[7] | d | [0])"#;
    let lookup = LookupBuf::from_str(input).unwrap();
    assert_eq!(
        segments(&lookup),
        vec![group(vec![
            vec![field("a"), quoted_field("b c"), SegmentBuf::index(7)],
            vec![field("d")],
            vec![SegmentBuf::index(0)],
        ])]
    );
    assert_eq!(lookup.to_string(), input);
}

#[test]
fn starts_with_prefix() {
    let p = LookupBuf::from_str("pies.banana.slices[0]").unwrap();
    let q = LookupBuf::from_str("pies.banana").unwrap();
    assert!(p.starts_with(&q));
    assert!(!q.starts_with(&p));
    assert!(p.starts_with(&p));
    let other = LookupBuf::from_str("pies.apple").unwrap();
    assert!(!p.starts_with(&other));
}

#[test]
fn starts_with_empty_needle() {
    let p = LookupBuf::from_str("pies").unwrap();
    let mut needle = LookupBuf::from_str("x").unwrap();
    needle.pop_back();
    assert!(p.starts_with(&needle));
}

#[test]
fn push_back_takes_names_indices_and_segments() {
    let mut lookup = LookupBuf::from_str("some_key").unwrap();
    lookup.push_back(1);
    lookup.push_back("bar");
    assert_eq!(
        segments(&lookup),
        vec![field("some_key"), SegmentBuf::index(1), field("bar")]
    );
    lookup.push_back(String::from("\"q r\""));
    lookup.push_back(quoted_field("s"));
    lookup.push_back(Segment::index(9));
    assert_eq!(lookup.to_string(), r#"some_key[1].bar."q r"."s"[9]"#);
}

#[test]
fn push_front_and_pops() {
    let mut lookup = LookupBuf::from_str("b").unwrap();
    lookup.push_front("a");
    lookup.push_back("c");
    assert_eq!(lookup.to_string(), "a.b.c");
    assert_eq!(lookup.pop_front(), Some(field("a")));
    assert_eq!(lookup.pop_back(), Some(field("c")));
    assert_eq!(lookup.pop_back(), Some(field("b")));
    assert_eq!(lookup.len(), 0);
    assert_eq!(lookup.pop_back(), None);
    assert_eq!(lookup.pop_front(), None);
    assert_eq!(lookup.is_valid(), Err(LookupError::EmptyPath));
    assert_eq!(lookup.to_string(), "");
}

#[test]
fn get_in_and_out_of_range() {
    let lookup = LookupBuf::from_str("a[5]").unwrap();
    assert_eq!(lookup.get(0), Some(&field("a")));
    assert_eq!(lookup.get(1), Some(&SegmentBuf::index(5)));
    assert_eq!(lookup.get(2), None);
}

#[test]
fn extend_appends_in_order() {
    let mut lookup = LookupBuf::from_str("parent").unwrap();
    lookup.extend(LookupBuf::from_str("child[1].leaf").unwrap());
    assert_eq!(lookup.to_string(), "parent.child[1].leaf");
    assert_eq!(lookup.len(), 4);
}

#[test]
fn clone_is_deep_and_equal() {
    let lookup = LookupBuf::from_str("a.(b | c.d)[1]").unwrap();
    let mut copy = lookup.clone();
    assert_eq!(copy, lookup);
    copy.push_back("more");
    assert_ne!(copy, lookup);
    assert_eq!(lookup.to_string(), "a.(b | c.d)[1]");
}

#[test]
fn borrowed_and_owned_say_the_same() {
    let lookup = LookupBuf::from_str(r#"a."b c".(d | e.[1])[2]"#).unwrap();
    let view = lookup.clone_lookup();
    assert_eq!(view.len(), lookup.len());
    assert!(view.get(0).unwrap().is_field());
    assert!(view.get(2).unwrap().is_coalesce());
    assert!(view.get(3).unwrap().is_index());
    assert!(view.get(4).is_none());
    assert_eq!(view.to_string(), lookup.to_string());
    assert_eq!(view.get(2).unwrap().to_string(), "(d | e.[1])");
    let back = view.into_buf();
    assert_eq!(back, lookup);
    let seg = lookup.get(2).unwrap();
    assert_eq!(&seg.as_segment().as_segment_buf(), seg);
    assert_eq!(SegmentBuf::from(seg.as_segment()), *seg);
    assert_eq!(LookupBuf::from(lookup.clone_lookup()), lookup);
}

#[test]
fn borrowed_constructors() {
    assert_eq!(Segment::field("x", true).as_segment_buf(), quoted_field("x"));
    assert_eq!(Segment::index(4).as_segment_buf(), SegmentBuf::index(4));
    let alternatives = vec![
        VecDeque::from(vec![Segment::field("a", false)]),
        VecDeque::from(vec![Segment::index(1)]),
    ];
    let built = Segment::coalesce(alternatives).unwrap();
    assert_eq!(
        built.as_segment_buf(),
        group(vec![vec![field("a")], vec![SegmentBuf::index(1)]])
    );
    assert!(matches!(
        Segment::coalesce(vec![VecDeque::from(vec![Segment::index(1)])]),
        Err(LookupError::InvalidStructure)
    ));
}

#[test]
fn segment_kinds() {
    assert!(field("a").is_field());
    assert!(!field("a").is_index());
    assert!(!field("a").is_coalesce());
    assert!(SegmentBuf::index(0).is_index());
    assert!(!SegmentBuf::index(0).is_field());
    let g = group(vec![vec![field("a")], vec![field("b")]]);
    assert!(g.is_coalesce());
    assert!(!g.is_field());
}

#[test]
fn segments_compare_by_what_they_hold() {
    assert_eq!(field("a"), field("a"));
    assert_ne!(field("a"), field("b"));
    assert_ne!(field("a"), quoted_field("a"));
    assert_ne!(field("0"), SegmentBuf::index(0));
    assert_ne!(SegmentBuf::index(0), SegmentBuf::index(1));
    assert_ne!(
        group(vec![vec![field("a")], vec![field("b")]]),
        group(vec![vec![field("b")], vec![field("a")]])
    );
    assert_ne!(
        group(vec![vec![field("a")], vec![field("b")]]),
        group(vec![vec![field("a")], vec![field("b")], vec![field("c")]])
    );
    assert_ne!(
        group(vec![vec![field("a")], vec![field("b")]]),
        group(vec![vec![field("a")], vec![field("b"), field("c")]])
    );
}

#[test]
fn coalesce_needs_two_alternatives() {
    assert_eq!(SegmentBuf::coalesce(vec![]), Err(LookupError::InvalidStructure));
    assert_eq!(
        SegmentBuf::coalesce(vec![VecDeque::from(vec![field("a")])]),
        Err(LookupError::InvalidStructure)
    );
    assert_eq!(
        SegmentBuf::coalesce(vec![VecDeque::from(vec![field("a")]), VecDeque::new()]),
        Err(LookupError::InvalidStructure)
    );
    assert!(SegmentBuf::coalesce(vec![
        VecDeque::from(vec![field("a")]),
        VecDeque::from(vec![field("b")])
    ])
    .is_ok());
    assert_eq!(
        SegmentBuf::try_from(vec![VecDeque::from(vec![field("a")]), VecDeque::from(vec![field("b")])]),
        Ok(group(vec![vec![field("a")], vec![field("b")]]))
    );
    assert_eq!(
        SegmentBuf::try_from(vec![VecDeque::from(vec![field("a")])]),
        Err(LookupError::InvalidStructure)
    );
}

#[test]
fn is_valid_looks_into_groups() {
    let good = LookupBuf::from_str("a.(b | c)").unwrap();
    assert_eq!(good.is_valid(), Ok(()));
    let lonely = SegmentBuf::Coalesce(vec![VecDeque::from(vec![field("a")])]);
    let bad = LookupBuf::from_segment(lonely.clone());
    assert_eq!(bad.is_valid(), Err(LookupError::InvalidStructure));
    let nested = SegmentBuf::Coalesce(vec![
        VecDeque::from(vec![field("a")]),
        VecDeque::from(vec![lonely]),
    ]);
    assert_eq!(
        LookupBuf::try_from(VecDeque::from(vec![field("x"), nested])),
        Err(LookupError::InvalidStructure)
    );
    let fine = VecDeque::from(vec![field("x"), SegmentBuf::index(1)]);
    assert_eq!(LookupBuf::try_from(fine).unwrap().to_string(), "x[1]");
}

#[test]
fn literal_names_with_quotes() {
    assert_eq!(SegmentBuf::from("plain"), field("plain"));
    assert_eq!(SegmentBuf::from("\"a b\""), quoted_field("a b"));
    assert_eq!(SegmentBuf::from_name("\""), quoted_field(""));
    assert_eq!(SegmentBuf::from_name("\"\""), quoted_field(""));
    assert_eq!(SegmentBuf::from_name("\"ab"), quoted_field("a"));
    assert_eq!(SegmentBuf::from_name(""), field(""));
    assert_eq!(SegmentBuf::from_name("\"h\u{e9}\u{e9}\""), quoted_field("h\u{e9}\u{e9}"));
}

#[test]
fn segment_texts() {
    assert_eq!(field("a").to_string(), "a");
    assert_eq!(quoted_field("a b").to_string(), "\"a b\"");
    assert_eq!(SegmentBuf::index(0).to_string(), "[0]");
    assert_eq!(SegmentBuf::index(1234567890).to_string(), "[1234567890]");
    assert_eq!(SegmentBuf::index(usize::MAX).to_string(), format!("[{}]", usize::MAX));
    assert_eq!(
        group(vec![vec![field("a"), field("b")], vec![quoted_field("c")]]).to_string(),
        "(a.b | \"c\")"
    );
    let nested = SegmentBuf::Coalesce(vec![
        VecDeque::from(vec![group(vec![vec![field("a")], vec![field("b")]]), SegmentBuf::index(1)]),
        VecDeque::from(vec![field("c")]),
    ]);
    assert_eq!(nested.to_string(), "((a | b).[1] | c)");
}

#[test]
fn largest_index_round_trips() {
    let text = format!("a[{}]", usize::MAX);
    let lookup = LookupBuf::from_str(&text).unwrap();
    assert_eq!(lookup.get(1), Some(&SegmentBuf::index(usize::MAX)));
    assert_eq!(lookup.to_string(), text);
}

#[test]
fn malformed_texts() {
    let cases: Vec<(&str, LookupError)> = vec![
        ("a.", malformed(2, Expected::Segment)),
        (".a", malformed(0, Expected::Segment)),
        ("a..b", malformed(2, Expected::Segment)),
        ("a b", malformed(1, Expected::Separator)),
        ("a]", malformed(1, Expected::Separator)),
        ("a)", malformed(1, Expected::Separator)),
        ("\"a\"b", malformed(3, Expected::Separator)),
        ("a[0]b", malformed(4, Expected::Separator)),
        ("a.[0]", malformed(2, Expected::Segment)),
        ("\"abc", malformed(4, Expected::ClosingQuote)),
        ("a.\"", malformed(3, Expected::ClosingQuote)),
        ("a[", malformed(2, Expected::Digit)),
        ("a[]", malformed(2, Expected::Digit)),
        ("a[x]", malformed(2, Expected::Digit)),
        ("a[-1]", malformed(2, Expected::Digit)),
        ("a[1", malformed(3, Expected::ClosingBracket)),
        ("a[1x]", malformed(3, Expected::ClosingBracket)),
        ("a[01]", malformed(3, Expected::ClosingBracket)),
        ("a[00]", malformed(3, Expected::ClosingBracket)),
        ("a[1 ]", malformed(3, Expected::ClosingBracket)),
        ("(", malformed(1, Expected::Segment)),
        ("()", malformed(1, Expected::Segment)),
        ("(a", malformed(2, Expected::ClosingParen)),
        ("(a | ", malformed(5, Expected::Segment)),
        ("(a | )", malformed(5, Expected::Segment)),
        ("( | a)", malformed(1, Expected::Segment)),
        ("(a\tb | c)", malformed(2, Expected::ClosingParen)),
        ("(a |b)", malformed(2, Expected::AlternativeSeparator)),
        ("(a  | b)", malformed(2, Expected::AlternativeSeparator)),
        ("(a | b", malformed(6, Expected::ClosingParen)),
        ("(a[0] | b)", malformed(2, Expected::ClosingParen)),
        ("(a | (b | c))", malformed(5, Expected::Segment)),
        ("(a. | b)", malformed(3, Expected::Segment)),
        ("a.(b | c)d", malformed(9, Expected::Separator)),
        ("h\u{e9}llo w", malformed(5, Expected::Separator)),
    ];
    for (text, expected) in cases {
        assert_eq!(LookupBuf::from_str(text), Err(expected), "text: {:?}", text);
    }
}

#[test]
fn index_too_large() {
    let text = format!("a[{}0]", usize::MAX);
    assert_eq!(
        LookupBuf::from_str(&text),
        Err(malformed(2, Expected::IndexInRange))
    );
    let text = "a[99999999999999999999999999999999999999]";
    assert_eq!(
        LookupBuf::from_str(text),
        Err(malformed(2, Expected::IndexInRange))
    );
}

#[test]
fn bare_names_stop_at_delimiters_only() {
    let lookup = LookupBuf::from_str("a|b.c\"d.@e-f").unwrap();
    assert_eq!(segments(&lookup), vec![field("a|b"), field("c\"d"), field("@e-f")]);
    assert_eq!(lookup.to_string(), "a|b.c\"d.@e-f");
    let lookup = LookupBuf::from_str("(a| | |b)").unwrap();
    assert_eq!(
        segments(&lookup),
        vec![group(vec![vec![field("a|")], vec![field("|b")]])]
    );
}

#[test]
fn group_with_one_alternative() {
    assert_eq!(LookupBuf::from_str("(a|b)"), Err(LookupError::InvalidStructure));
    assert_eq!(LookupBuf::from_str("(a)"), Err(LookupError::InvalidStructure));
    assert_eq!(LookupBuf::from_str("x.(a.b)"), Err(LookupError::InvalidStructure));
}

#[test]
fn error_messages() {
    assert_eq!(LookupError::EmptyPath.to_string(), "the path is empty");
    assert_eq!(
        LookupError::InvalidStructure.to_string(),
        "a group needs two or more alternatives, none of them empty"
    );
    assert_eq!(
        malformed(12, Expected::Digit).to_string(),
        "malformed path at character 12: expected a digit"
    );
    assert_eq!(
        malformed(0, Expected::Segment).to_string(),
        "malformed path at character 0: expected a field, an index or a group"
    );
    assert_eq!(Expected::Separator.describe(), "a dot, an index or the end of the path");
    assert_eq!(Expected::IndexInRange.describe(), "an index that fits the machine word");
    assert_eq!(Expected::ClosingBracket.describe(), "a closing square bracket");
    assert_eq!(Expected::ClosingQuote.describe(), "a closing double quote");
    assert_eq!(Expected::AlternativeSeparator.describe(), "a bar between two spaces");
    assert_eq!(Expected::ClosingParen.describe(), "a closing round bracket");
}

#[test]
fn unicode_names() {
    let input = "h\u{e9}llo.\"w\u{f6}rld \u{1f600}\"[3]";
    let lookup = LookupBuf::from_str(input).unwrap();
    assert_eq!(
        segments(&lookup),
        vec![field("h\u{e9}llo"), quoted_field("w\u{f6}rld \u{1f600}"), SegmentBuf::index(3)]
    );
    assert_eq!(lookup.to_string(), input);
}

// A small generator of numbers, the same on every run.
struct Numbers(u64);

impl Numbers {
    fn next(&mut self, below: u64) -> u64 {
        self.0 = self.0.wrapping_mul(6364136223846793005).wrapping_add(1442695040888963407);
        (self.0 >> 33) % below
    }
}

fn some_leaf(numbers: &mut Numbers) -> SegmentBuf {
    let bare: Vec<char> = ('A'..='Z').chain('a'..='z').chain("_-@#|0123456789".chars()).collect();
    let inside_quotes: Vec<char> = bare.iter().cloned().chain(". []()\t".chars()).collect();
    match numbers.next(10) {
        0..=4 => {
            let len = numbers.next(5) + 1;
            let name = (0..len).map(|_| bare[numbers.next(bare.len() as u64) as usize]).collect();
            SegmentBuf::field(name, false)
        }
        5..=7 => {
            let len = numbers.next(6);
            let name = (0..len)
                .map(|_| inside_quotes[numbers.next(inside_quotes.len() as u64) as usize])
                .collect();
            SegmentBuf::field(name, true)
        }
        _ => SegmentBuf::index(numbers.next(1200) as usize),
    }
}

fn some_segment(numbers: &mut Numbers) -> SegmentBuf {
    if numbers.next(8) == 0 {
        let alternatives = numbers.next(3) + 2;
        group(
            (0..alternatives)
                .map(|_| {
                    let len = numbers.next(3) + 1;
                    (0..len).map(|_| some_leaf(numbers)).collect()
                })
                .collect(),
        )
    } else {
        some_leaf(numbers)
    }
}

#[test]
fn written_paths_parse_back() {
    let mut numbers = Numbers(2024);
    for _ in 0..2000 {
        let len = numbers.next(6) + 1;
        let built: VecDeque<SegmentBuf> = (0..len).map(|_| some_segment(&mut numbers)).collect();
        let path = LookupBuf::try_from(built).unwrap();
        let orig = path.to_string();
        let parsed = LookupBuf::from_str(&orig).unwrap_or_else(|e| {
            panic!("{:?} did not parse: {}", orig, e.to_string());
        });
        assert_eq!(parsed, path, "text: {:?}", orig);
        assert_eq!(parsed.to_string(), orig);
    }
}

#[test]
fn borrowed_path_is_taken_apart_and_put_together() {
    let lookup = LookupBuf::from_str("a.b[1]").unwrap();
    let mut view = lookup.clone_lookup();
    assert_eq!(view.pop_back().map(|s| s.to_string()), Some("[1]".to_string()));
    view.push_back(Segment::field("c d", true));
    view.push_front(Segment::index(0));
    assert_eq!(view.to_string(), "[0].a.b.\"c d\"");
    assert_eq!(view.pop_front().map(|s| s.as_segment_buf()), Some(SegmentBuf::index(0)));
    let other = LookupBuf::from_str("x[2]").unwrap();
    view.extend(other.clone_lookup());
    assert_eq!(view.len(), 5);
    let names: Vec<String> = view.iter().map(|s| s.to_string()).collect();
    assert_eq!(names, vec!["a", "b", "\"c d\"", "x", "[2]"]);
    assert_eq!(view.into_buf().to_string(), "a.b.\"c d\".x[2]");
    assert_eq!(lookup.to_string(), "a.b[1]");
}
