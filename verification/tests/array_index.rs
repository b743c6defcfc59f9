use rune_interpreter::array_index::search_start;
use rune_interpreter::array_index::{relative_index, sparse_key_in_range};

#[test]
fn sparse_keys() {
    assert_eq!(sparse_key_in_range("0", 0, 10), Some(0));
    assert_eq!(sparse_key_in_range("7", 0, 10), Some(7));
    assert_eq!(sparse_key_in_range("10", 0, 10), None);
    assert_eq!(sparse_key_in_range("5", 6, 10), None);
    assert_eq!(sparse_key_in_range("007", 0, 10), None);
    assert_eq!(sparse_key_in_range("", 0, 10), None);
    assert_eq!(sparse_key_in_range("1a", 0, 10), None);
    assert_eq!(sparse_key_in_range("-1", 0, 10), None);
    assert_eq!(sparse_key_in_range("length", 0, 10), None);
    assert_eq!(
        sparse_key_in_range("18446744073709551614", 0, u64::MAX),
        Some(18446744073709551614)
    );
    assert_eq!(sparse_key_in_range("18446744073709551616", 0, u64::MAX), None);
    assert_eq!(sparse_key_in_range("99999999999999999999999", 0, u64::MAX), None);
}

#[test]
fn index_keys_written_by_to_string_are_recognized() {
    for k in [0u64, 1, 9, 10, 4294967295, 9007199254740991, u64::MAX - 1] {
        assert_eq!(sparse_key_in_range(&k.to_string(), 0, u64::MAX), Some(k));
    }
}

#[test]
fn relative_indices() {
    assert_eq!(relative_index(2, 5), 2);
    assert_eq!(relative_index(9, 5), 5);
    assert_eq!(relative_index(-1, 5), 4);
    assert_eq!(relative_index(-9, 5), 0);
    assert_eq!(relative_index(i64::MIN, 5), 0);
    assert_eq!(relative_index(i64::MAX, 5), 5);
    assert_eq!(relative_index(0, 0), 0);
}

#[test]
fn test_search_start() {
    // forward (indexOf / includes)
    assert_eq!(search_start(5, None, false), Some(0));
    assert_eq!(search_start(5, Some(2), false), Some(2));
    assert_eq!(search_start(5, Some(5), false), None);
    assert_eq!(search_start(5, Some(-2), false), Some(3));
    assert_eq!(search_start(5, Some(-9), false), Some(0));
    assert_eq!(search_start(0, None, false), None);
    // backward (lastIndexOf)
    assert_eq!(search_start(5, None, true), Some(4));
    assert_eq!(search_start(5, Some(9), true), Some(4));
    assert_eq!(search_start(5, Some(1), true), Some(1));
    assert_eq!(search_start(5, Some(-1), true), Some(4));
    assert_eq!(search_start(5, Some(-6), true), None);
    assert_eq!(search_start(0, Some(0), true), None);
}
