use rune_interpreter::replacement::expand_replacement;

fn expand(s: &str, groups: &[(usize, usize)], r: &str) -> String {
    String::from_utf8(expand_replacement(s.as_bytes(), groups, r.as_bytes())).unwrap()
}

#[test]
fn dollar_patterns() {
    // "abcdef" with match "cd" at 2..4 and one group "d" at 3..4.
    let g = [(2, 4), (3, 4)];
    assert_eq!(expand("abcdef", &g, "[$&]"), "[cd]");
    assert_eq!(expand("abcdef", &g, "[$`]"), "[ab]");
    assert_eq!(expand("abcdef", &g, "[$']"), "[ef]");
    assert_eq!(expand("abcdef", &g, "$1$0"), "d$0");
    assert_eq!(expand("abcdef", &g, "$00"), "$00");
    assert_eq!(expand("abcdef", &g, "$2"), "$2");
    assert_eq!(expand("abcdef", &g, "$$"), "$$");
    assert_eq!(expand("abcdef", &g, "a$"), "a$");
    assert_eq!(expand("abcdef", &g, "$x"), "$x");
    assert_eq!(expand("abcdef", &g, "plain"), "plain");
}

#[test]
fn two_digit_groups() {
    let mut g = vec![(0, 1)];
    for i in 0..11 {
        g.push((i, i + 1));
    }
    let s = "abcdefghijkl";
    // $10 names group 10 (the eleventh pair, 9..10 = "j"); $12 does not
    // exist, so it reads as $1 followed by '2'.
    assert_eq!(expand(s, &g, "$10"), "j");
    assert_eq!(expand(s, &g, "$12"), "a2");
    assert_eq!(expand(s, &g, "$01"), "a");
}

#[test]
fn non_ascii_text_is_kept() {
    let s = "héllo";
    let m = (1, 3); // "é" as UTF-8 bytes
    assert_eq!(expand(s, &[m], "<$&>"), "<é>");
    assert_eq!(expand(s, &[m], "ü$é"), "ü$é");
}
