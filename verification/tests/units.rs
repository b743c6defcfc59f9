use rune_interpreter::units::string_iter_step;
use rune_interpreter::units::{substr_range, substring_range};
use rune_interpreter::units::{repeat_units, RepeatError};
use rune_interpreter::units::{
    code_point_at_units, ends_with_units, index_of_units, pad_units, starts_with_units,
};

fn units(s: &str) -> Vec<u16> {
    s.encode_utf16().collect()
}

#[test]
fn index_of_and_prefix_suffix() {
    let s = units("hello world");
    assert_eq!(index_of_units(&s, &units("o"), 0), Some(4));
    assert_eq!(index_of_units(&s, &units("o"), 5), Some(7));
    assert_eq!(index_of_units(&s, &units("x"), 0), None);
    assert_eq!(index_of_units(&s, &units(""), 3), Some(3));
    assert_eq!(index_of_units(&s, &units(""), 11), Some(11));
    assert!(starts_with_units(&s, &units("hello"), 0));
    assert!(starts_with_units(&s, &units("world"), 6));
    assert!(!starts_with_units(&s, &units("world"), 7));
    assert!(ends_with_units(&s, &units("world"), 11));
    assert!(ends_with_units(&s, &units("hello"), 5));
    assert!(!ends_with_units(&s, &units("hello"), 4));
    assert!(ends_with_units(&s, &units(""), 0));
}

#[test]
fn code_points() {
    let s = units("a😀b");
    assert_eq!(code_point_at_units(&s, 0), Some('a' as u32));
    assert_eq!(code_point_at_units(&s, 1), Some(0x1F600));
    assert_eq!(code_point_at_units(&s, 2), Some(0xDE00));
    assert_eq!(code_point_at_units(&s, 3), Some('b' as u32));
    assert_eq!(code_point_at_units(&s, 4), None);
}

#[test]
fn padding() {
    let pad = |s: &str, n: usize, f: &str, end: bool| {
        String::from_utf16_lossy(&pad_units(&units(s), n, &units(f), end))
    };
    assert_eq!(pad("abc", 10, "123", false), "1231231abc");
    assert_eq!(pad("abc", 6, "123465", true), "abc123");
    assert_eq!(pad("abc", 8, "0", false), "00000abc");
    assert_eq!(pad("abc", 5, "", false), "  abc");
    assert_eq!(pad("abc", 2, "x", true), "abc");
    assert_eq!(pad("abc", 3, "x", true), "abc");
    // A fill cut inside a surrogate pair leaves U+FFFD at the cut.
    assert_eq!(pad("a", 2, "😀", false), "\u{FFFD}a");
    assert_eq!(pad("a", 3, "😀", true), "a😀");
}

#[test]
fn test_repeat_units() {
    let ab: Vec<u16> = "ab".encode_utf16().collect();
    assert_eq!(repeat_units(&ab, Some(3)), Ok("ababab".encode_utf16().collect::<Vec<u16>>()));
    assert_eq!(repeat_units(&ab, Some(0)), Ok(vec![]));
    assert_eq!(repeat_units(&[], Some(u64::MAX)), Ok(vec![]));
    assert_eq!(repeat_units(&ab, None), Err(RepeatError::InvalidCount));
    assert_eq!(repeat_units(&ab, Some(1u64 << 62)), Err(RepeatError::TooLong));
    assert_eq!(repeat_units(&ab, Some(u64::MAX)), Err(RepeatError::TooLong));
}

#[test]
fn test_substring_and_substr_ranges() {
    assert_eq!(substring_range(5, 1, Some(3)), (1, 3));
    assert_eq!(substring_range(5, 3, Some(1)), (1, 3));
    assert_eq!(substring_range(5, -2, None), (0, 5));
    assert_eq!(substring_range(5, 2, Some(99)), (2, 5));
    assert_eq!(substring_range(5, i64::MAX, Some(i64::MIN)), (0, 5));
    assert_eq!(substr_range(5, 1, Some(2)), (1, 3));
    assert_eq!(substr_range(5, -2, None), (3, 5));
    assert_eq!(substr_range(5, -9, Some(2)), (0, 2));
    assert_eq!(substr_range(5, 3, Some(-1)), (3, 3));
    assert_eq!(substr_range(5, 9, Some(1)), (5, 5));
    assert_eq!(substr_range(5, 1, Some(i64::MAX)), (1, 5));
}

#[test]
fn test_string_iter_step() {
    let s: Vec<char> = "a\u{1F600}b".chars().collect();
    assert_eq!(string_iter_step(&s, 0), Some(('a', 1)));
    assert_eq!(string_iter_step(&s, 1), Some(('\u{1F600}', 3)));
    // the middle of a surrogate pair starts no character
    assert_eq!(string_iter_step(&s, 2), None);
    assert_eq!(string_iter_step(&s, 3), Some(('b', 4)));
    assert_eq!(string_iter_step(&s, 4), None);
    // iterating from 0 gives the characters in order
    let mut pos = 0;
    let mut seen = Vec::new();
    while let Some((c, next)) = string_iter_step(&s, pos) {
        seen.push(c);
        pos = next;
    }
    assert_eq!(seen, s);
}

#[test]
fn test_repeat_error_messages() {
    assert_eq!(RepeatError::InvalidCount.message(), "RangeError: Invalid count value");
    assert_eq!(RepeatError::TooLong.message(), "RangeError: Invalid string length");
}
