use rune_interpreter::regex_loops::{
    regex_callback_start, replace_all_finish, replace_all_step, string_callback_start, CallbackStart, RegexSplit,
};

/// Split `text` with a matcher that finds the next match at or after a
/// position (group ranges, group 0 the match).
fn split_with<F: Fn(&str, usize) -> Option<Vec<(usize, usize)>>>(text: &str, limit: u32, find: F) -> Vec<String> {
    let mut sp = RegexSplit::new(text.len(), limit);
    while let Some(at) = sp.next_search() {
        match find(text, at) {
            Some(g) => sp.report_match(&g),
            None => sp.report_no_match(),
        }
    }
    sp.pieces().iter().map(|&(a, b)| text[a..b].to_string()).collect()
}

fn comma(text: &str, at: usize) -> Option<Vec<(usize, usize)>> {
    text[at..].find(',').map(|p| vec![(at + p, at + p + 1)])
}

fn comma_captured(text: &str, at: usize) -> Option<Vec<(usize, usize)>> {
    text[at..].find(',').map(|p| vec![(at + p, at + p + 1), (at + p, at + p + 1)])
}

fn empty_everywhere(text: &str, at: usize) -> Option<Vec<(usize, usize)>> {
    if at <= text.len() {
        Some(vec![(at, at)])
    } else {
        None
    }
}

#[test]
fn test_regex_split_pieces() {
    assert_eq!(split_with("a,b,,c", u32::MAX, comma), vec!["a", "b", "", "c"]);
    assert_eq!(split_with("a,b,,c", 2, comma), vec!["a", "b"]);
    assert_eq!(split_with("abc", u32::MAX, comma), vec!["abc"]);
    assert_eq!(split_with("a,b", 0, comma), Vec::<String>::new());
    // captures become pieces too
    assert_eq!(split_with("a,b", u32::MAX, comma_captured), vec!["a", ",", "b"]);
    assert_eq!(split_with("a,b", 2, comma_captured), vec!["a", ","]);
    // an empty match splits between characters
    assert_eq!(split_with("abc", u32::MAX, empty_everywhere), vec!["a", "b", "c"]);
}

#[test]
fn test_regex_split_empty_text() {
    assert_eq!(split_with("", u32::MAX, comma), vec![""]);
    assert_eq!(split_with("", u32::MAX, empty_everywhere), Vec::<String>::new());
}

#[test]
fn test_regex_replace_all_steps() {
    // replace each "o" by "[$&]"
    let s = b"foo boo";
    let mut out = Vec::new();
    let mut last = 0;
    while let Some(p) = s[last..].iter().position(|&c| c == b'o') {
        let m = last + p;
        last = replace_all_step(s, &mut out, last, &[(m, m + 1)], b"[$&]");
    }
    replace_all_finish(s, &mut out, last);
    assert_eq!(String::from_utf8(out).unwrap(), "f[o][o] b[o][o]");
    // an empty match copies the next byte and moves on
    let s = b"ab";
    let mut out = Vec::new();
    let next = replace_all_step(s, &mut out, 0, &[(0, 0)], b"-");
    assert_eq!(next, 1);
    let next = replace_all_step(s, &mut out, next, &[(1, 1)], b"-");
    assert_eq!(next, 2);
    replace_all_finish(s, &mut out, next);
    assert_eq!(String::from_utf8(out).unwrap(), "-a-b");
}

#[test]
fn test_regex_callback_start() {
    // "a-b" with /-/: the match 1..2, the next search at its end.
    let c = regex_callback_start(b"a-b", &[(1, 2)]);
    assert_eq!(c, CallbackStart { start: 1, end: 2, next_pos: 2, accumulated: b"a".to_vec() });
    // An empty match moves the next search one byte on.
    let c = regex_callback_start(b"xy", &[(1, 1), (1, 1)]);
    assert_eq!(c, CallbackStart { start: 1, end: 1, next_pos: 2, accumulated: b"x".to_vec() });
    let c = regex_callback_start(b"", &[(0, 0)]);
    assert_eq!(c, CallbackStart { start: 0, end: 0, next_pos: 1, accumulated: vec![] });
}

#[test]
fn test_string_callback_start() {
    let c = string_callback_start(b"one two two", b"two").unwrap();
    assert_eq!(c, CallbackStart { start: 4, end: 7, next_pos: 7, accumulated: b"one ".to_vec() });
    assert_eq!(string_callback_start(b"abc", b"x"), None);
    // The empty search matches at 0 and steps over the first character.
    let c = string_callback_start("\u{e9}t\u{e9}".as_bytes(), b"").unwrap();
    assert_eq!(c, CallbackStart { start: 0, end: 0, next_pos: 2, accumulated: vec![] });
    let c = string_callback_start("\u{20ac}".as_bytes(), b"").unwrap();
    assert_eq!(c.next_pos, 3);
    let c = string_callback_start("\u{1f600}".as_bytes(), b"").unwrap();
    assert_eq!(c.next_pos, 4);
    let c = string_callback_start(b"", b"").unwrap();
    assert_eq!(c.next_pos, 1);
    let c = string_callback_start(b"ab", b"").unwrap();
    assert_eq!(c.next_pos, 1);
}
