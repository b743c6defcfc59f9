use rune_interpreter::number_text::{parse_float_text, parse_int_digits, FloatText, trim_text};

fn chars(s: &str) -> Vec<char> {
    s.chars().collect()
}

fn read_int(s: &str, radix: i32) -> Option<(bool, u32, Vec<u32>)> {
    parse_int_digits(&chars(s), radix).map(|p| (p.negative, p.radix, p.digits))
}

#[test]
fn test_parse_int_radix_and_prefix() {
    assert_eq!(read_int("42", 0), Some((false, 10, vec![4, 2])));
    assert_eq!(read_int("-0x1F", 0), Some((true, 16, vec![1, 15])));
    assert_eq!(read_int("0x1f", 16), Some((false, 16, vec![1, 15])));
    // an explicit radix other than 16 keeps the 0x as digits
    assert_eq!(read_int("0x1f", 10), Some((false, 10, vec![0])));
    assert_eq!(read_int("+z", 36), Some((false, 36, vec![35])));
    assert_eq!(read_int("101201", 2), Some((false, 2, vec![1, 0, 1])));
}

#[test]
fn test_parse_int_nothing_read() {
    assert_eq!(read_int("", 0), None);
    assert_eq!(read_int("-", 0), None);
    assert_eq!(read_int("abc", 0), None);
    assert_eq!(read_int("12", 1), None);
    assert_eq!(read_int("12", 37), None);
    assert_eq!(read_int("0x", 0), None);
}

#[test]
fn test_parse_float_text() {
    assert_eq!(parse_float_text(&chars("3.14abc")), FloatText::Prefix(4));
    assert_eq!(parse_float_text(&chars("-1.5e+3x")), FloatText::Prefix(7));
    assert_eq!(parse_float_text(&chars(".5")), FloatText::Prefix(2));
    assert_eq!(parse_float_text(&chars("1.2.3")), FloatText::Prefix(3));
    assert_eq!(parse_float_text(&chars("e5")), FloatText::NotANumber);
    assert_eq!(parse_float_text(&chars("Infinity")), FloatText::Infinity);
    assert_eq!(parse_float_text(&chars("-Infinity")), FloatText::Infinity);
    assert_eq!(parse_float_text(&chars("+Infinityx")), FloatText::Infinity);
    assert_eq!(parse_float_text(&chars("nan")), FloatText::NotANumber);
    assert_eq!(parse_float_text(&chars("-")), FloatText::NotANumber);
    assert_eq!(parse_float_text(&chars("12e")), FloatText::Prefix(3));
    assert_eq!(parse_float_text(&chars("")), FloatText::NotANumber);
}

#[test]
fn test_trim_text() {
    let t = |s: &str| trim_text(&chars(s)).iter().collect::<String>();
    assert_eq!(t("  12  "), "12");
    assert_eq!(t("\u{a0}\u{3000}\t-1.5e3\n\u{2028}"), "-1.5e3");
    assert_eq!(t("a b"), "a b");
    assert_eq!(t(" \u{85} "), "");
    assert_eq!(t(""), "");
    // A zero-width space is no white space.
    assert_eq!(t("\u{200b}1"), "\u{200b}1");
    assert_eq!(parse_float_text(&trim_text(&chars(" \u{feff}"))), FloatText::NotANumber);
    assert_eq!(parse_float_text(&trim_text(&chars("\t-Infinity "))), FloatText::Infinity);
}
