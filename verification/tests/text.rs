use rune_interpreter::text::join_elements;
use rune_interpreter::text::{find_chars, replace_all_text, replace_first_text, split_text};

fn chars(s: &str) -> Vec<char> {
    s.chars().collect()
}

fn string(v: &[char]) -> String {
    v.iter().collect()
}

fn split(s: &str, sep: &str, limit: u32) -> Vec<String> {
    split_text(&chars(s), &chars(sep), limit).iter().map(|p| string(p)).collect()
}

#[test]
fn split_on_string_separator() {
    assert_eq!(split("a,b,,c", ",", u32::MAX), vec!["a", "b", "", "c"]);
    assert_eq!(split("a,b,c", ",", 2), vec!["a", "b"]);
    assert_eq!(split("a,b,c", ",", 0), Vec::<String>::new());
    assert_eq!(split("abc", "", u32::MAX), vec!["a", "b", "c"]);
    assert_eq!(split("", "", u32::MAX), Vec::<String>::new());
    assert_eq!(split("", ",", u32::MAX), vec![""]);
    assert_eq!(split("aaa", "aa", u32::MAX), vec!["", "a"]);
    assert_eq!(split("x--y--", "--", u32::MAX), vec!["x", "y", ""]);
}

#[test]
fn split_then_join_gives_back_the_text() {
    for (s, sep) in [("a,b,,c", ","), ("aaa", "aa"), ("no separator", "#"), ("--", "--")] {
        assert_eq!(split(s, sep, u32::MAX).join(sep), s);
    }
}

#[test]
fn replace_first_and_all() {
    let r = |s: &str, t: &str, w: &str| string(&replace_first_text(&chars(s), &chars(t), &chars(w)));
    let ra = |s: &str, t: &str, w: &str| string(&replace_all_text(&chars(s), &chars(t), &chars(w)));
    assert_eq!(r("abcabc", "b", "X"), "aXcabc");
    assert_eq!(r("abc", "", "X"), "Xabc");
    assert_eq!(r("abc", "z", "X"), "abc");
    assert_eq!(ra("abcabc", "b", "X"), "aXcaXc");
    assert_eq!(ra("aaaa", "aa", "b"), "bb");
    assert_eq!(ra("abc", "", "-"), "-a-b-c-");
    assert_eq!(ra("", "", "-"), "-");
    assert_eq!(ra("abc", "z", "-"), "abc");
    // Replacing a pattern by itself changes nothing.
    assert_eq!(ra("banana", "an", "an"), "banana");
    // Replacing every match equals splitting and joining.
    assert_eq!(ra("a,b,,c", ",", ";"), split("a,b,,c", ",", u32::MAX).join(";"));
}

#[test]
fn find_from_position() {
    let s = chars("abcabc");
    assert_eq!(find_chars(&s, &chars("bc"), 0), Some(1));
    assert_eq!(find_chars(&s, &chars("bc"), 2), Some(4));
    assert_eq!(find_chars(&s, &chars("bc"), 5), None);
    assert_eq!(find_chars(&s, &chars(""), 6), Some(6));
}

#[test]
fn test_join_elements() {
    let c = |s: &str| Some(s.chars().collect::<Vec<char>>());
    let parts = vec![c("a"), None, c("b")];
    let out: String = join_elements(&parts, None).into_iter().collect();
    assert_eq!(out, "a,,b");
    let dash: Vec<char> = "--".chars().collect();
    let out: String = join_elements(&parts, Some(&dash)).into_iter().collect();
    assert_eq!(out, "a----b");
    assert!(join_elements(&[], None).is_empty());
    let out: String = join_elements(&[None], Some(&dash)).into_iter().collect();
    assert_eq!(out, "");
}
