use flatjson::flatten::flatten_value;
use flatjson::parse::parse_top_level_json;
use flatjson::rows::{ContainerType, FlatJson, OptionIndex, RowValue, NIL};
use flatjson::tree::JsonValue;

const OBJECT_1: &'static str = r#"{
    "a": 2,
    "b": [
        4,
        "5"
    ],
    "c": {
        "d": null,
        "e": true,
        "f": 9
    },
    "g": 11
}"#;

fn assert_prev_siblings(fj: &FlatJson, prev_siblings: Vec<usize>) {
    assert_eq!(
        fj.0.len(),
        prev_siblings.len(),
        "length of prev_siblings is incorrect"
    );

    for (i, (elem, expected_prev_sibling)) in fj.0.iter().zip(prev_siblings.iter()).enumerate() {
        assert_eq!(
            OptionIndex::from(*expected_prev_sibling),
            elem.prev_sibling,
            "incorrect prev_sibling at index {}",
            i
        );
    }
}

#[test]
fn test_flatten_json() {
    let fj = parse_top_level_json(OBJECT_1.to_owned()).unwrap();

    assert_prev_siblings(
        &fj,
        vec![NIL, NIL, 1, NIL, 3, NIL, 2, NIL, 7, 8, NIL, 6, NIL],
    )
}

#[test]
fn test_row_count() {
    // 10 nodes and 3 non-empty containers flatten to 13 rows.
    let fj = parse_top_level_json(OBJECT_1.to_owned()).unwrap();
    assert_eq!(fj.len(), 13);
}

#[test]
fn test_open_close_symmetry() {
    let fj = parse_top_level_json(OBJECT_1.to_owned()).unwrap();
    assert_eq!(fj.close_of(0), Some(12));
    assert!(fj.close_matches_open(0, 12));
    assert_eq!(fj.close_of(2), Some(5));
    assert!(fj.close_matches_open(2, 5));
    assert_eq!(fj.close_of(6), Some(10));
    assert!(fj.close_matches_open(6, 10));
    assert!(!fj.close_matches_open(2, 10));
    assert_eq!(fj.close_of(1), None);
    match fj.value(5) {
        RowValue::CloseContainer {
            container_type,
            last_child,
            open_index,
        } => {
            assert!(matches!(container_type, ContainerType::Array));
            assert_eq!(*last_child, 4);
            assert_eq!(*open_index, 2);
        }
        other => panic!("row 5 should be a close row, got {:?}", other),
    }
}

#[test]
fn test_first_last_child() {
    let fj = parse_top_level_json(OBJECT_1.to_owned()).unwrap();
    match fj.value(0) {
        RowValue::OpenContainer {
            container_type,
            first_child,
            close_index,
        } => {
            assert!(matches!(container_type, ContainerType::Object));
            assert_eq!(*first_child, 1);
            assert_eq!(*close_index, 12);
        }
        other => panic!("row 0 should be an open row, got {:?}", other),
    }
    match fj.value(12) {
        RowValue::CloseContainer { last_child, .. } => assert_eq!(*last_child, 11),
        other => panic!("row 12 should be a close row, got {:?}", other),
    }
}

#[test]
fn test_sibling_symmetry_and_idempotence() {
    let fj = parse_top_level_json(OBJECT_1.to_owned()).unwrap();
    for a in 0..fj.len() {
        for b in 0..fj.len() {
            let forward = fj.next_sibling(a) == OptionIndex::Index(b);
            let backward = fj.prev_sibling(b) == OptionIndex::Index(a);
            assert_eq!(forward, backward, "sibling links at {} and {}", a, b);
        }
    }
    // Repeated queries on the unmodified structure return identical results.
    for i in 0..fj.len() {
        assert_eq!(fj.parent(i), fj.parent(i));
        assert_eq!(fj.prev_sibling(i), fj.prev_sibling(i));
        assert_eq!(fj.next_sibling(i), fj.next_sibling(i));
        assert_eq!(fj.depth(i), fj.depth(i));
    }
}

#[test]
fn test_depth_and_parent() {
    let fj = parse_top_level_json(OBJECT_1.to_owned()).unwrap();
    assert_eq!(fj.depth(0), 0);
    assert_eq!(fj.parent(0), OptionIndex::Nil);
    let expected_depths = vec![0, 1, 1, 2, 2, 1, 1, 2, 2, 2, 1, 1, 0];
    let expected_parents = vec![
        NIL,
        0,
        0,
        2,
        2,
        0,
        0,
        6,
        6,
        6,
        0,
        0,
        NIL,
    ];
    for i in 0..fj.len() {
        assert_eq!(fj.depth(i), expected_depths[i], "depth at {}", i);
        assert_eq!(
            fj.parent(i),
            OptionIndex::from(expected_parents[i]),
            "parent at {}",
            i
        );
        if let OptionIndex::Index(p) = fj.parent(i) {
            assert_eq!(fj.depth(i), fj.depth(p) + 1);
        }
    }
}

#[test]
fn test_key_presence() {
    let fj = parse_top_level_json(OBJECT_1.to_owned()).unwrap();
    let expected_keys: Vec<Option<&str>> = vec![
        None,
        Some("a"),
        Some("b"),
        None,
        None,
        None,
        Some("c"),
        Some("d"),
        Some("e"),
        Some("f"),
        None,
        Some("g"),
        None,
    ];
    for i in 0..fj.len() {
        assert_eq!(
            fj.key(i).as_deref(),
            expected_keys[i],
            "key at index {}",
            i
        );
    }
}

#[test]
fn test_single_scalar_document() {
    let fj = parse_top_level_json("42".to_owned()).unwrap();
    assert_eq!(fj.len(), 1);
    assert_eq!(fj.depth(0), 0);
    assert_eq!(fj.parent(0), OptionIndex::Nil);
    match fj.value(0) {
        RowValue::Number(t) => assert_eq!(t.as_str(), "42"),
        other => panic!("expected a number row, got {:?}", other),
    }
}

#[test]
fn test_number_token_preserved() {
    let fj = parse_top_level_json("[1.50, 123456789012345678901234567890]".to_owned()).unwrap();
    match fj.value(1) {
        RowValue::Number(t) => assert_eq!(t.as_str(), "1.50"),
        other => panic!("expected a number row, got {:?}", other),
    }
    match fj.value(2) {
        RowValue::Number(t) => assert_eq!(t.as_str(), "123456789012345678901234567890"),
        other => panic!("expected a number row, got {:?}", other),
    }
}

#[test]
fn test_empty_containers_are_leaves() {
    let fj = parse_top_level_json(r#"{"a": [], "b": {}}"#.to_owned()).unwrap();
    assert_eq!(fj.len(), 4);
    assert!(matches!(fj.value(1), RowValue::EmptyArray));
    assert!(matches!(fj.value(2), RowValue::EmptyObject));
    assert!(!fj.is_container_boundary(1));
    assert!(!fj.is_container_boundary(2));
    assert_eq!(fj.key(1).as_deref(), Some("a"));
    assert_eq!(fj.key(2).as_deref(), Some("b"));
    assert_eq!(fj.next_sibling(1), OptionIndex::Index(2));
    assert_eq!(fj.prev_sibling(2), OptionIndex::Index(1));
}

#[test]
fn test_object_member_order_preserved() {
    let fj = parse_top_level_json(r#"{"b": 1, "a": 2}"#.to_owned()).unwrap();
    assert_eq!(fj.key(1).as_deref(), Some("b"));
    assert_eq!(fj.key(2).as_deref(), Some("a"));
    assert_eq!(fj.index(1), 0);
    assert_eq!(fj.index(2), 1);
}

#[test]
fn test_deep_nesting() {
    let fj = parse_top_level_json("[[[null]]]".to_owned()).unwrap();
    assert_eq!(fj.len(), 7);
    let expected_depths = vec![0, 1, 2, 3, 2, 1, 0];
    for i in 0..fj.len() {
        assert_eq!(fj.depth(i), expected_depths[i], "depth at {}", i);
        assert!(fj.key(i).is_none());
    }
    assert!(fj.is_open_container(0));
    assert!(fj.is_open_container(1));
    assert!(fj.is_open_container(2));
    assert!(fj.is_close_container(4));
    assert!(fj.is_close_container(5));
    assert!(fj.is_close_container(6));
}

#[test]
fn test_parse_error_is_surfaced() {
    let r = parse_top_level_json("{invalid".to_owned());
    assert!(r.is_err());
    let r = parse_top_level_json("".to_owned());
    assert!(r.is_err());
}

#[test]
fn test_flatten_value_directly() {
    let v = JsonValue::Array(vec![
        JsonValue::Null,
        JsonValue::Boolean(true),
        JsonValue::String("hi".to_owned()),
    ]);
    let fj = flatten_value(&v);
    assert_eq!(fj.len(), 5);
    assert!(matches!(fj.value(1), RowValue::Null));
    assert!(matches!(fj.value(2), RowValue::Boolean(true)));
    match fj.value(3) {
        RowValue::String(s) => assert_eq!(s.as_str(), "hi"),
        other => panic!("expected a string row, got {:?}", other),
    }
    assert_eq!(fj.index(1), 0);
    assert_eq!(fj.index(2), 1);
    assert_eq!(fj.index(3), 2);
    assert_eq!(fj.prev_sibling(1), OptionIndex::Nil);
    assert_eq!(fj.next_sibling(1), OptionIndex::Index(2));
    assert_eq!(fj.next_sibling(3), OptionIndex::Nil);
}

#[test]
fn test_single_child_container() {
    let fj = parse_top_level_json("[7]".to_owned()).unwrap();
    assert_eq!(fj.len(), 3);
    match fj.value(0) {
        RowValue::OpenContainer { first_child, close_index, .. } => {
            assert_eq!(*first_child, 1);
            assert_eq!(*close_index, 2);
        }
        other => panic!("row 0 should be an open row, got {:?}", other),
    }
    match fj.value(2) {
        RowValue::CloseContainer { last_child, .. } => assert_eq!(*last_child, 1),
        other => panic!("row 2 should be a close row, got {:?}", other),
    }
    assert_eq!(fj.prev_sibling(1), OptionIndex::Nil);
    assert_eq!(fj.next_sibling(1), OptionIndex::Nil);
}

#[test]
fn test_empty_document_containers() {
    let fj = parse_top_level_json("[]".to_owned()).unwrap();
    assert_eq!(fj.len(), 1);
    assert!(matches!(fj.value(0), RowValue::EmptyArray));
    assert!(!fj.is_container_boundary(0));

    let fj = parse_top_level_json("{}".to_owned()).unwrap();
    assert_eq!(fj.len(), 1);
    assert!(matches!(fj.value(0), RowValue::EmptyObject));
    assert!(!fj.is_container_boundary(0));
    assert!(fj.key(0).is_none());
}

#[test]
fn test_option_index_sentinel_adapter() {
    assert_eq!(OptionIndex::from(NIL), OptionIndex::Nil);
    assert_eq!(OptionIndex::from(0), OptionIndex::Index(0));
    assert_eq!(OptionIndex::from(7), OptionIndex::Index(7));
}
