use lookup::flatten::{flatten, ConfigTree, Discoveries};
use lookup::{Expected, LookupBuf, LookupError};

fn value(v: i64) -> ConfigTree<i64> {
    ConfigTree::Value(v)
}

fn said(discoveries: Discoveries<i64>) -> Vec<(String, i64)> {
    let (slots, values) = discoveries.into_parts();
    slots.iter().map(|(path, slot)| (path.to_string(), *values[*slot])).collect()
}

fn found(table: &Vec<(String, ConfigTree<i64>)>) -> Vec<(String, i64)> {
    said(flatten(table).unwrap())
}

fn pairs(expected: &[(&str, i64)]) -> Vec<(String, i64)> {
    expected.iter().map(|(k, v)| (k.to_string(), *v)).collect()
}

#[test]
fn flat_table_stays_flat() {
    let table = vec![("a".to_string(), value(1)), ("b".to_string(), value(2))];
    assert_eq!(found(&table), pairs(&[("a", 1), ("b", 2)]));
}

#[test]
fn empty_table_has_no_values() {
    let table: Vec<(String, ConfigTree<i64>)> = vec![];
    assert!(found(&table).is_empty());
    let table: Vec<(String, ConfigTree<i64>)> = vec![("a".to_string(), ConfigTree::Array(vec![]))];
    assert!(found(&table).is_empty());
}

#[test]
fn nested_tables_and_arrays() {
    let table = vec![
        (
            "server".to_string(),
            ConfigTree::Table(vec![
                ("size".to_string(), value(80)),
                (
                    "hosts".to_string(),
                    ConfigTree::Array(vec![
                        value(10),
                        ConfigTree::Table(vec![("inner".to_string(), value(11))]),
                        ConfigTree::Array(vec![value(12), value(13)]),
                    ]),
                ),
            ]),
        ),
        ("last".to_string(), value(99)),
    ];
    assert_eq!(
        found(&table),
        pairs(&[
            ("server.size", 80),
            ("server.hosts[0]", 10),
            ("server.hosts[1].inner", 11),
            ("server.hosts[2][0]", 12),
            ("server.hosts[2][1]", 13),
            ("last", 99),
        ])
    );
    let (slots, _) = flatten(&table).unwrap().into_parts();
    assert_eq!(slots.get_index(2).unwrap().0.len(), 4);
    assert_eq!(slots.get_index(5).unwrap().0.len(), 1);
    assert!(slots.contains_key(&LookupBuf::from_str("server.hosts[2][1]").unwrap()));
    assert!(!slots.contains_key(&LookupBuf::from_str("server.hosts").unwrap()));
}

#[test]
fn top_level_name_is_taken_as_it_is() {
    let table = vec![("a.b".to_string(), value(1))];
    let (slots, _) = flatten(&table).unwrap().into_parts();
    assert_eq!(slots.get_index(0).unwrap().0.len(), 1);
    let table = vec![(
        "a.b".to_string(),
        ConfigTree::Table(vec![("c".to_string(), value(1))]),
    )];
    let (slots, _) = flatten(&table).unwrap().into_parts();
    assert_eq!(slots.get_index(0).unwrap().0.len(), 3);
    assert_eq!(slots.get_index(0).unwrap().0.to_string(), "a.b.c");
}

#[test]
fn name_that_is_no_path_is_refused() {
    let table = vec![
        ("good".to_string(), value(1)),
        (
            "t".to_string(),
            ConfigTree::Table(vec![("two words".to_string(), value(2))]),
        ),
        ("never reached".to_string(), value(3)),
    ];
    assert_eq!(
        flatten(&table).err(),
        Some(LookupError::MalformedSegment { position: 5, expected: Expected::Separator })
    );
}

#[test]
fn later_value_takes_the_place_of_the_earlier() {
    let table = vec![
        (
            "a.b".to_string(),
            ConfigTree::Table(vec![("c".to_string(), value(1)), ("d".to_string(), value(2))]),
        ),
        ("z".to_string(), value(3)),
        (
            "a".to_string(),
            ConfigTree::Table(vec![(
                "b".to_string(),
                ConfigTree::Table(vec![("c".to_string(), value(4)), ("e".to_string(), value(5))]),
            )]),
        ),
    ];
    assert_eq!(
        found(&table),
        pairs(&[("a.b.c", 4), ("a.b.d", 2), ("z", 3), ("a.b.e", 5)])
    );
}

#[test]
fn insert_replaces_or_appends() {
    let (one, two, three) = (1i64, 2i64, 3i64);
    let mut discoveries: Discoveries<i64> = Discoveries::new();
    assert!(said(Discoveries::new()).is_empty());
    discoveries.insert(LookupBuf::from_str("a.b").unwrap(), &one);
    discoveries.insert(LookupBuf::from_str("c").unwrap(), &two);
    discoveries.insert(LookupBuf::from_str("a.b").unwrap(), &three);
    assert_eq!(said(discoveries), pairs(&[("a.b", 3), ("c", 2)]));
}

#[test]
fn equal_paths_are_one_key() {
    let (one, two) = (1i64, 2i64);
    let mut discoveries: Discoveries<i64> = Discoveries::new();
    let mut built = LookupBuf::from("a");
    built.push_back(0);
    built.push_back(String::from("\"b c\""));
    discoveries.insert(built, &one);
    discoveries.insert(LookupBuf::from_str("a[0].\"b c\"").unwrap(), &two);
    assert_eq!(said(discoveries), pairs(&[("a[0].\"b c\"", 2)]));
}
