use graph::errors::GraphError;
use graph::text::decimal_string;
use graph::vocabulary::{parse_numeric_id, Vocabulary};
use graph::vocabulary_vec::VocabularyVec;

#[test]
fn names_get_identifiers_in_the_order_they_come() {
    let mut v = Vocabulary::default();
    assert!(v.is_empty());
    assert_eq!(v.insert("b".to_string()), Ok(0));
    assert_eq!(v.insert("a".to_string()), Ok(1));
    assert_eq!(v.insert("b".to_string()), Ok(0));
    assert_eq!(v.len(), 2);
    assert_eq!(v.get("a"), Some(1));
    assert_eq!(v.get("c"), None);
    assert_eq!(v.insert(String::new()), Err(GraphError::EmptyName));
    assert_eq!(v.build_reverse_mapping(), Ok(()));
    assert_eq!(v.translate(0), "b");
    assert_eq!(v.translate(1), "a");
    assert_eq!(v.get(v.translate(1)), Some(1));
    assert_eq!(v.keys(), vec!["b".to_string(), "a".to_string()]);
    assert!(!v.has_numeric_ids());
}

#[test]
fn numeric_names_have_to_cover_the_identifiers() {
    let mut v = Vocabulary::new(true);
    assert_eq!(v.insert("2".to_string()), Ok(2));
    assert_eq!(v.insert("0".to_string()), Ok(0));
    assert_eq!(v.insert("x".to_string()), Err(GraphError::NotNumeric));
    assert_eq!(v.build_reverse_mapping(), Err(GraphError::NotDense));
    assert_eq!(v.insert("1".to_string()), Ok(1));
    assert_eq!(v.build_reverse_mapping(), Ok(()));
    assert_eq!(v.translate(2), "2");
    let mut twice = Vocabulary::new(true);
    assert_eq!(twice.insert("1".to_string()), Ok(1));
    assert_eq!(twice.insert("01".to_string()), Ok(1));
    assert_eq!(twice.build_reverse_mapping(), Err(GraphError::NotDense));
}

#[test]
fn the_mode_is_set_where_the_names_fit_it() {
    let v = Vocabulary::default().set_numeric_ids(true);
    assert!(v.has_numeric_ids());
    let mut v = v;
    assert_eq!(v.insert("0".to_string()), Ok(0));
    assert_eq!(v.insert("1".to_string()), Ok(1));
    // The names "0" and "1" are at the places 0 and 1: both modes fit.
    assert!(v.can_take_mode(true));
    assert!(v.can_take_mode(false));
    let mut v = v.set_numeric_ids(false);
    assert!(!v.has_numeric_ids());
    assert_eq!(v.keys(), vec!["0".to_string(), "1".to_string()]);
    assert_eq!(v.get("1"), Some(1));
    assert_eq!(v.insert("9".to_string()), Ok(2));
    // The name "9" is at place 2: the numeric mode does not fit any more.
    assert!(!v.can_take_mode(true));
    assert!(v.can_take_mode(false));
    let mut sparse = Vocabulary::new(true);
    assert_eq!(sparse.insert("5".to_string()), Ok(5));
    assert!(sparse.can_take_mode(true));
    assert!(!sparse.can_take_mode(false));
    let mut words = Vocabulary::default();
    assert_eq!(words.insert("a".to_string()), Ok(0));
    assert!(!words.can_take_mode(true));
}

#[test]
fn no_name_is_held_twice() {
    let mut v = Vocabulary::new(true);
    assert_eq!(v.insert("7".to_string()), Ok(7));
    assert_eq!(v.insert("7".to_string()), Ok(7));
    assert_eq!(v.insert("07".to_string()), Ok(7));
    assert_eq!(v.keys(), vec!["7".to_string(), "07".to_string()]);
    assert_eq!(v.len(), 2);
}

#[test]
fn decimal_names_are_read_and_written() {
    assert_eq!(parse_numeric_id("0"), Some(0));
    assert_eq!(parse_numeric_id("007"), Some(7));
    assert_eq!(parse_numeric_id("4294967295"), Some(4294967295));
    assert_eq!(parse_numeric_id("4294967296"), None);
    assert_eq!(parse_numeric_id(""), None);
    assert_eq!(parse_numeric_id("12a"), None);
    assert_eq!(parse_numeric_id("-1"), None);
    for n in [0u32, 9, 10, 123, 4294967295] {
        assert_eq!(decimal_string(n), n.to_string());
        assert_eq!(parse_numeric_id(&decimal_string(n)), Some(n));
    }
}

#[test]
fn labelled_vocabulary_counts_its_items() {
    let mut types = VocabularyVec::default();
    assert_eq!(types.insert("red".to_string()), Ok(0));
    assert_eq!(types.insert("blue".to_string()), Ok(1));
    assert_eq!(types.insert("red".to_string()), Ok(0));
    assert_eq!(types.ids, vec![0, 1, 0]);
    assert_eq!(types.counts, vec![2, 1]);
    assert_eq!(types.len(), 2);
    types.build_counts();
    assert_eq!(types.counts, vec![2, 1]);
    assert_eq!(types.len(), 2);
    assert!(types.insert("".to_string()).is_err());
    assert_eq!(types.ids, vec![0, 1, 0]);
    assert_eq!(types.counts, vec![2, 1]);
    assert!(!types.is_empty());
    assert_eq!(types.get("blue"), Some(1));
    assert_eq!(types.get("green"), None);
    assert_eq!(types.build_reverse_mapping(), Ok(()));
    assert_eq!(types.translate(1), "blue");
    assert_eq!(types.keys(), vec!["red".to_string(), "blue".to_string()]);
    assert!(!types.has_numeric_ids());
    let mut numeric = VocabularyVec::default().set_numeric_ids(true);
    assert!(numeric.has_numeric_ids());
    assert_eq!(numeric.len(), 0);
    assert_eq!(numeric.insert("1".to_string()), Ok(1));
    assert_eq!(numeric.len(), 1);
    // One type is named; the count at place 0 is that of the items of type 0.
    assert_eq!(numeric.counts, vec![0]);
    assert_eq!(numeric.insert("0".to_string()), Ok(0));
    assert_eq!(numeric.counts, vec![1, 1]);
    assert_eq!(numeric.insert("1".to_string()), Ok(1));
    assert_eq!(numeric.counts, vec![1, 2]);
    assert_eq!(numeric.ids, vec![1, 0, 1]);
    let numeric = numeric.set_numeric_ids(true);
    assert!(numeric.has_numeric_ids());
    assert_eq!(numeric.counts, vec![1, 2]);
    let mut one = VocabularyVec::default();
    assert_eq!(one.insert("a".to_string()), Ok(0));
    assert_eq!(one.len(), 1);
    assert_eq!(graph::vocabulary_vec::count_of(&vec![3, 1, 3, 3], 3), 3);
    assert_eq!(graph::vocabulary_vec::count_of(&vec![3, 1, 3, 3], 0), 0);
    let mut names = Vocabulary::default();
    names.insert("only".to_string()).unwrap();
    let joined = VocabularyVec::from_structs(vec![0, 0, 0], Some(names)).unwrap();
    assert_eq!(joined.counts, vec![3]);
    assert!(VocabularyVec::from_structs(vec![0], None).is_none());
}
