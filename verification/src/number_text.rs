//! Reading numbers out of (already trimmed) text for `parseInt` and
//! `parseFloat`: which characters make up the number, and in which radix.
//! Turning the digits into a Number value is floating-point work left to
//! the caller.
use vstd::prelude::*;

verus! {

/// The value of `c` as a digit in radices up to 36 (`0-9`, then `a-z` or
/// `A-Z` from 10); 36 for any other character, which no radix accepts.
pub open spec fn digit_of(c: char) -> u32 {
    if '0' <= c && c <= '9' {
        (c as u32 - '0' as u32) as u32
    } else if 'a' <= c && c <= 'z' {
        (c as u32 - 'a' as u32 + 10) as u32
    } else if 'A' <= c && c <= 'Z' {
        (c as u32 - 'A' as u32 + 10) as u32
    } else {
        36
    }
}

/// How many sign characters (`+` or `-`) the text starts with: 0 or 1.
pub open spec fn sign_len(s: Seq<char>) -> int {
    if s.len() > 0 && (s[0] == '-' || s[0] == '+') {
        1
    } else {
        0
    }
}

/// The text has `0x` or `0X` at position `i`.
pub open spec fn hex_prefix_at(s: Seq<char>, i: int) -> bool {
    0 <= i && i + 2 <= s.len() && s[i] == '0' && (s[i + 1] == 'x' || s[i + 1] == 'X')
}

/// The radix `parseInt` uses: the given one, or when it is 0, 16 after a
/// `0x` prefix and 10 otherwise.
pub open spec fn effective_radix(s: Seq<char>, radix: i32) -> int {
    if radix == 0 {
        if hex_prefix_at(s, sign_len(s)) {
            16
        } else {
            10
        }
    } else {
        radix as int
    }
}

/// The end of the run of digits (in radix `r`) that starts at `i`.
pub open spec fn digit_run_end(s: Seq<char>, i: int, r: int) -> int
    decreases s.len() - i,
{
    if i < 0 || i >= s.len() || digit_of(s[i]) >= r {
        i
    } else {
        digit_run_end(s, i + 1, r)
    }
}

/// Where the digits of `parseInt` start: after the sign, and after a `0x`
/// prefix when the radix is 16.
pub open spec fn digits_start(s: Seq<char>, r: int) -> int {
    sign_len(s) + if r == 16 && hex_prefix_at(s, sign_len(s)) {
        2int
    } else {
        0int
    }
}

/// What `parseInt` reads from the text.
pub struct ParsedInt {
    /// The text starts with `-`.
    pub negative: bool,
    /// The radix of the digits (2 to 36).
    pub radix: u32,
    /// The digit values, most significant first, each below `radix`.
    pub digits: Vec<u32>,
}

/// The digits `parseInt` reads from the trimmed text `s` with the radix
/// argument `radix` (0 when absent): `None` when the text is empty or only
/// a sign, when the radix is outside 2 to 36, or when no digit follows;
/// otherwise the sign, the radix, and the longest run of digits.
pub open spec fn parse_int_spec(s: Seq<char>, radix: i32) -> Option<(bool, u32, Seq<u32>)> {
    let r = effective_radix(s, radix);
    let st = digits_start(s, r);
    let e = digit_run_end(s, st, r);
    if s.len() == 0 || sign_len(s) >= s.len() {
        None
    } else if r < 2 || r > 36 {
        None
    } else if e == st {
        None
    } else {
        Some((s[0] == '-', r as u32, s.subrange(st, e).map_values(|c: char| digit_of(c))))
    }
}

/// What `parseFloat` reads from the trimmed text.
#[derive(Clone, Copy, Debug, PartialEq, Eq, Structural)]
pub enum FloatText {
    /// `Infinity` follows the optional sign: read as positive infinity,
    /// whatever the sign.
    Infinity,
    /// `NaN` (in any case) follows the sign, or no digit does.
    NotANumber,
    /// The number is written by the first `end` characters.
    Prefix(usize),
}

/// The text has `w` at position `i`.
pub open spec fn has_word_at(s: Seq<char>, i: int, w: Seq<char>) -> bool {
    0 <= i && i + w.len() <= s.len() && s.subrange(i, i + w.len()) == w
}

/// The ASCII lower case of `c`.
pub open spec fn lower_ascii(c: char) -> char {
    if 'A' <= c && c <= 'Z' {
        ((c as u32) + 32) as char
    } else {
        c
    }
}

/// `NaN`, in any case, at position `i`.
pub open spec fn nan_at(s: Seq<char>, i: int) -> bool {
    0 <= i && i + 3 <= s.len() && lower_ascii(s[i]) == 'n' && lower_ascii(s[i + 1]) == 'a' && lower_ascii(
        s[i + 2],
    ) == 'n'
}

/// The end of the decimal literal scanned from `i`: digits, at most one
/// `.` before any exponent, and one exponent mark (`e` or `E`, allowed
/// only after a digit) with an optional sign; `dot`, `digit` and `exp`
/// tell what was seen already. Returns the end and whether a digit was
/// seen.
pub open spec fn float_scan(s: Seq<char>, i: int, dot: bool, digit: bool, exp: bool) -> (int, bool)
    decreases s.len() - i,
{
    if i < 0 || i >= s.len() {
        (i, digit)
    } else {
        let c = s[i];
        if '0' <= c && c <= '9' {
            float_scan(s, i + 1, dot, true, exp)
        } else if c == '.' && !dot && !exp {
            float_scan(s, i + 1, true, digit, exp)
        } else if (c == 'e' || c == 'E') && digit && !exp {
            let j = if i + 1 < s.len() && (s[i + 1] == '-' || s[i + 1] == '+') {
                i + 2
            } else {
                i + 1
            };
            float_scan(s, j, dot, digit, true)
        } else {
            (i, digit)
        }
    }
}

/// What `parseFloat` reads from the trimmed text `s` (empty text holds
/// no digit, so it is not a number).
pub open spec fn parse_float_spec(s: Seq<char>) -> FloatText {
    let st = sign_len(s);
    let (end, digit) = float_scan(s, st, false, false, false);
    if has_word_at(s, st, "Infinity"@) {
        FloatText::Infinity
    } else if nan_at(s, st) {
        FloatText::NotANumber
    } else if !digit {
        FloatText::NotANumber
    } else {
        FloatText::Prefix(end as usize)
    }
}

proof fn lemma_digit_run(s: Seq<char>, i: int, r: int)
    requires
        0 <= i <= s.len(),
    ensures
        i <= digit_run_end(s, i, r) <= s.len(),
        forall|k: int| i <= k < digit_run_end(s, i, r) ==> digit_of(#[trigger] s[k]) < r,
        digit_run_end(s, i, r) == s.len() || digit_of(s[digit_run_end(s, i, r)]) >= r,
    decreases s.len() - i,
{
    if i < s.len() && digit_of(s[i]) < r {
        lemma_digit_run(s, i + 1, r);
    }
}

/// What `parseInt` reads is at least one digit, every digit below a radix
/// from 2 to 36, and the run of digits is the longest one: the text ends
/// after it or goes on with a character that is no digit in that radix.
pub proof fn law_parse_int_digits(s: Seq<char>, radix: i32)
    ensures
        parse_int_spec(s, radix) matches Some((neg, r, ds)) ==> {
            let st = digits_start(s, r as int);
            let e = st + ds.len();
            &&& 2 <= r <= 36
            &&& ds.len() >= 1
            &&& neg == (s[0] == '-')
            &&& forall|k: int| 0 <= k < ds.len() ==> #[trigger] ds[k] < r && ds[k] == digit_of(s[st + k])
            &&& (e == s.len() || digit_of(s[e]) >= r)
        },
{
    if s.len() > 0 && sign_len(s) < s.len() {
        let r = effective_radix(s, radix);
        let st = digits_start(s, r);
        if 2 <= r <= 36 && st <= s.len() {
            lemma_digit_run(s, st, r);
        }
    }
}

/// The value of `c` as a digit (36 when it is none).
fn digit_value(c: char) -> (d: u32)
    ensures
        d == digit_of(c),
{
    if '0' <= c && c <= '9' {
        (c as u32) - ('0' as u32)
    } else if 'a' <= c && c <= 'z' {
        (c as u32) - ('a' as u32) + 10
    } else if 'A' <= c && c <= 'Z' {
        (c as u32) - ('A' as u32) + 10
    } else {
        36
    }
}

/// The digits `parseInt` reads from the trimmed text `s`, given the radix
/// argument (0 when absent).
pub fn parse_int_digits(s: &[char], radix: i32) -> (r: Option<ParsedInt>)
    ensures
        match (r, parse_int_spec(s@, radix)) {
            (None, None) => true,
            (Some(p), Some((neg, rad, ds))) => p.negative == neg && p.radix == rad && p.digits@ == ds,
            _ => false,
        },
{
    let n = s.len();
    if n == 0 {
        return None;
    }
    let mut i: usize = 0;
    let negative = s[0] == '-';
    if s[0] == '-' || s[0] == '+' {
        i = 1;
    }
    if i >= n {
        return None;
    }
    let hex = i + 2 <= n && s[i] == '0' && (s[i + 1] == 'x' || s[i + 1] == 'X');
    let r: i32 = if radix == 0 {
        if hex {
            16
        } else {
            10
        }
    } else {
        radix
    };
    if r < 2 || r > 36 {
        return None;
    }
    if r == 16 && hex {
        i = i + 2;
    }
    let ghost st = i as int;
    let rr = r as u32;
    let mut digits: Vec<u32> = Vec::new();
    while i < n
        invariant
            n == s@.len(),
            st <= i <= n,
            2 <= rr <= 36,
            rr == effective_radix(s@, radix),
            st == digits_start(s@, rr as int),
            digit_run_end(s@, st, rr as int) == digit_run_end(s@, i as int, rr as int),
            digits@ == s@.subrange(st, i as int).map_values(|c: char| digit_of(c)),
        ensures
            st <= i <= n,
            digit_run_end(s@, st, rr as int) == i,
            digits@ == s@.subrange(st, i as int).map_values(|c: char| digit_of(c)),
        decreases n - i,
    {
        let d = digit_value(s[i]);
        if d >= rr {
            break;
        }
        digits.push(d);
        i = i + 1;
        assert(digits@ =~= s@.subrange(st, i as int).map_values(|c: char| digit_of(c)));
    }
    if digits.len() == 0 {
        return None;
    }
    Some(ParsedInt { negative, radix: rr, digits })
}

/// The text of `w` appears at `i` in `s`.
fn word_at(s: &[char], i: usize, w: &[char]) -> (r: bool)
    ensures
        r == has_word_at(s@, i as int, w@),
{
    if i > s.len() || w.len() > s.len() - i {
        return false;
    }
    let mut k: usize = 0;
    while k < w.len()
        invariant
            i + w.len() <= s.len(),
            k <= w.len(),
            forall|q: int| 0 <= q < k ==> s@[i + q] == w@[q],
        decreases w.len() - k,
    {
        if s[i + k] != w[k] {
            assert(s@.subrange(i as int, i + w.len())[k as int] != w@[k as int]);
            return false;
        }
        k = k + 1;
    }
    assert(s@.subrange(i as int, i + w.len()) =~= w@);
    true
}

/// The ASCII lower case of `c`.
fn to_lower_ascii(c: char) -> (r: char)
    ensures
        r == lower_ascii(c),
{
    if 'A' <= c && c <= 'Z' {
        ((c as u8) + 32) as char
    } else {
        c
    }
}

/// What `parseFloat` reads from the trimmed text `s`: infinity, not a
/// number, or how many characters write the number.
pub fn parse_float_text(s: &[char]) -> (r: FloatText)
    ensures
        r == parse_float_spec(s@),
{
    let n = s.len();
    let mut end: usize = 0;
    if n > 0 && (s[0] == '-' || s[0] == '+') {
        end = 1;
    }
    let infinity = ['I', 'n', 'f', 'i', 'n', 'i', 't', 'y'];
    proof {
        reveal_strlit("Infinity");
        assert(infinity@ =~= "Infinity"@);
    }
    if word_at(s, end, &infinity) {
        return FloatText::Infinity;
    }
    if end + 3 <= n && to_lower_ascii(s[end]) == 'n' && to_lower_ascii(s[end + 1]) == 'a'
        && to_lower_ascii(s[end + 2]) == 'n' {
        return FloatText::NotANumber;
    }
    let ghost st = end as int;
    let mut has_dot = false;
    let mut has_digit = false;
    let mut has_exp = false;
    while end < n
        invariant
            n == s@.len(),
            st <= end <= n,
            float_scan(s@, st, false, false, false) == float_scan(s@, end as int, has_dot, has_digit, has_exp),
        ensures
            float_scan(s@, st, false, false, false) == (end as int, has_digit),
        decreases n - end,
    {
        let c = s[end];
        if '0' <= c && c <= '9' {
            has_digit = true;
            end = end + 1;
        } else if c == '.' && !has_dot && !has_exp {
            has_dot = true;
            end = end + 1;
        } else if (c == 'e' || c == 'E') && has_digit && !has_exp {
            has_exp = true;
            end = end + 1;
            if end < n && (s[end] == '-' || s[end] == '+') {
                end = end + 1;
            }
        } else {
            break;
        }
    }
    if !has_digit {
        return FloatText::NotANumber;
    }
    FloatText::Prefix(end)
}

// ---------------------------------------------------------------- laws

/// With no radix argument (0), `parseInt` reads hexadecimal exactly when
/// `0x` or `0X` follows the sign, and decimal otherwise: a leading `0`
/// does not make the text octal.
pub proof fn law_parse_int_default_radix(s: Seq<char>)
    ensures
        hex_prefix_at(s, sign_len(s)) ==> parse_int_spec(s, 0) == parse_int_spec(s, 16),
        !hex_prefix_at(s, sign_len(s)) ==> parse_int_spec(s, 0) == parse_int_spec(s, 10),
        parse_int_spec(s, 0) matches Some((_neg, r, _ds)) ==> (r == 16 <==> hex_prefix_at(s, sign_len(s))) && (
        r == 10 <==> !hex_prefix_at(s, sign_len(s))),
{
}

/// The text with every `E` written as `e`.
pub open spec fn lower_exponent_marks(s: Seq<char>) -> Seq<char> {
    s.map_values(|c: char| if c == 'E' { 'e' } else { c })
}

proof fn lemma_scan_exponent_case(s: Seq<char>, i: int, dot: bool, digit: bool, exp: bool)
    ensures
        float_scan(s, i, dot, digit, exp) == float_scan(lower_exponent_marks(s), i, dot, digit, exp),
    decreases s.len() - i,
{
    let m = lower_exponent_marks(s);
    if 0 <= i < s.len() {
        let c = s[i];
        if '0' <= c && c <= '9' {
            lemma_scan_exponent_case(s, i + 1, dot, true, exp);
        } else if c == '.' && !dot && !exp {
            lemma_scan_exponent_case(s, i + 1, true, digit, exp);
        } else if (c == 'e' || c == 'E') && digit && !exp {
            if i + 1 < s.len() {
                assert(m[i + 1] == '-' <==> s[i + 1] == '-');
                assert(m[i + 1] == '+' <==> s[i + 1] == '+');
                lemma_scan_exponent_case(s, i + 2, dot, digit, true);
            }
            lemma_scan_exponent_case(s, i + 1, dot, digit, true);
        }
    }
}

/// The exponent mark of a decimal literal is read in either case: what
/// `parseFloat` reads from a text is the same when each `E` is written
/// as `e`.
pub proof fn law_parse_float_exponent_case(s: Seq<char>)
    ensures
        parse_float_spec(s) == parse_float_spec(lower_exponent_marks(s)),
{
    let m = lower_exponent_marks(s);
    reveal_strlit("Infinity");
    let w = "Infinity"@;
    assert(sign_len(s) == sign_len(m));
    let st = sign_len(s);
    lemma_scan_exponent_case(s, st, false, false, false);
    if st + w.len() <= s.len() {
        if s.subrange(st, st + w.len()) == w {
            assert(m.subrange(st, st + w.len()) =~= w);
        }
        if m.subrange(st, st + w.len()) == w {
            assert forall|k: int| 0 <= k < w.len() implies s.subrange(st, st + w.len())[k] == w[k] by {
                assert(m[st + k] == w[k]);
            }
            assert(s.subrange(st, st + w.len()) =~= w);
        }
    }
    if 0 <= st && st + 3 <= s.len() {
        assert(lower_ascii(m[st]) == lower_ascii(s[st]));
        assert(lower_ascii(m[st + 1]) == lower_ascii(s[st + 1]));
        assert(lower_ascii(m[st + 2]) == lower_ascii(s[st + 2]));
    }
}

/// Every character of `t` from `i` to `j` is a decimal digit.
pub open spec fn decimal_digits(t: Seq<char>, i: int, j: int) -> bool {
    forall|k: int| i <= k < j ==> '0' <= #[trigger] t[k] && t[k] <= '9'
}

proof fn lemma_scan_over_digits(s: Seq<char>, i: int, j: int, dot: bool, digit: bool, exp: bool)
    requires
        0 <= i <= j <= s.len(),
        decimal_digits(s, i, j),
    ensures
        float_scan(s, i, dot, digit, exp) == float_scan(s, j, dot, digit || i < j, exp),
    decreases j - i,
{
    if i < j {
        lemma_scan_over_digits(s, i + 1, j, dot, true, exp);
    }
}

/// Digits, an exponent mark (`e` or `E`) and digits make up a whole
/// decimal literal: `parseFloat` reads all of it.
pub proof fn law_parse_float_exponent(a: Seq<char>, mark: char, b: Seq<char>)
    requires
        a.len() > 0,
        b.len() > 0,
        decimal_digits(a, 0, a.len() as int),
        decimal_digits(b, 0, b.len() as int),
        mark == 'e' || mark == 'E',
        a.len() + 1 + b.len() <= usize::MAX,
    ensures
        parse_float_spec(a + seq![mark] + b) == FloatText::Prefix((a.len() + 1 + b.len()) as usize),
{
    let t = a + seq![mark] + b;
    let n = t.len() as int;
    let i = a.len() as int;
    assert(decimal_digits(t, 0, i)) by {
        assert forall|k: int| 0 <= k < i implies '0' <= #[trigger] t[k] && t[k] <= '9' by {
            assert(t[k] == a[k]);
        }
    }
    assert(decimal_digits(t, i + 1, n)) by {
        assert forall|k: int| i + 1 <= k < n implies '0' <= #[trigger] t[k] && t[k] <= '9' by {
            assert(t[k] == b[k - i - 1]);
        }
    }
    assert(t[0] == a[0]);
    assert(t[i] == mark);
    assert(t[i + 1] == b[0]);
    assert(sign_len(t) == 0);
    reveal_strlit("Infinity");
    assert(!has_word_at(t, 0, "Infinity"@)) by {
        if has_word_at(t, 0, "Infinity"@) {
            assert(t.subrange(0, 8)[0] == 'I');
        }
    }
    assert(!nan_at(t, 0));
    lemma_scan_over_digits(t, 0, i, false, false, false);
    lemma_scan_over_digits(t, i + 1, n, false, true, true);
}

/// An exponent part of a decimal literal: empty, or `e`/`E`, an optional
/// sign and at least one digit.
pub open spec fn exponent_part(x: Seq<char>) -> bool {
    ||| x.len() == 0
    ||| (x.len() >= 2 && (x[0] == 'e' || x[0] == 'E') && decimal_digits(x, 1, x.len() as int))
    ||| (x.len() >= 3 && (x[0] == 'e' || x[0] == 'E') && (x[1] == '+' || x[1] == '-') && decimal_digits(
        x,
        2,
        x.len() as int,
    ))
}

/// `parseFloat` reads a whole decimal literal (an optional sign, digits,
/// an optional fraction and an optional exponent) and stops at a
/// character that cannot go on with it.
pub proof fn law_parse_float_literal(sg: Seq<char>, a: Seq<char>, fr: Seq<char>, x: Seq<char>, rest: Seq<char>)
    requires
        sg.len() == 0 || sg == seq!['-'] || sg == seq!['+'],
        a.len() > 0,
        decimal_digits(a, 0, a.len() as int),
        fr.len() == 0 || (fr[0] == '.' && decimal_digits(fr, 1, fr.len() as int)),
        exponent_part(x),
        rest.len() == 0 || !('0' <= rest[0] <= '9' || rest[0] == '.' || rest[0] == 'e' || rest[0] == 'E'),
        sg.len() + a.len() + fr.len() + x.len() <= usize::MAX,
    ensures
        parse_float_spec(sg + a + fr + x + rest) == FloatText::Prefix((sg.len() + a.len() + fr.len() + x.len()) as usize),
{
    let u = sg + a + fr + x + rest;
    let s0 = sg.len() as int;
    let s1 = s0 + a.len();
    let s2 = s1 + fr.len();
    let s3 = s2 + x.len();
    assert(u.subrange(0, s0) =~= sg);
    assert forall|k: int| 0 <= k < a.len() implies u[s0 + k] == a[k] by {}
    assert forall|k: int| 0 <= k < fr.len() implies u[s1 + k] == fr[k] by {}
    assert forall|k: int| 0 <= k < x.len() implies u[s2 + k] == x[k] by {}
    assert forall|k: int| 0 <= k < rest.len() implies u[s3 + k] == rest[k] by {}
    assert(u[s0] == a[0]);
    assert(sign_len(u) == s0);
    reveal_strlit("Infinity");
    assert(!has_word_at(u, s0, "Infinity"@)) by {
        if has_word_at(u, s0, "Infinity"@) {
            assert(u.subrange(s0, s0 + 8)[0] == 'I');
        }
    }
    assert(!nan_at(u, s0));
    assert(decimal_digits(u, s0, s1)) by {
        assert forall|k: int| s0 <= k < s1 implies '0' <= #[trigger] u[k] && u[k] <= '9' by {
            assert(u[s0 + (k - s0)] == a[k - s0]);
        }
    }
    lemma_scan_over_digits(u, s0, s1, false, false, false);
    let dot = fr.len() > 0;
    if dot {
        assert(u[s1] == '.');
        assert(decimal_digits(u, s1 + 1, s2)) by {
            assert forall|k: int| s1 + 1 <= k < s2 implies '0' <= #[trigger] u[k] && u[k] <= '9' by {
                assert(u[s1 + (k - s1)] == fr[k - s1]);
            }
        }
        lemma_scan_over_digits(u, s1 + 1, s2, true, true, false);
    }
    assert(float_scan(u, s0, false, false, false) == float_scan(u, s2, dot, true, false));
    if x.len() > 0 {
        assert(u[s2] == x[0]);
        assert(u[s2 + 1] == x[1]);
        if x[1] == '+' || x[1] == '-' {
            assert(decimal_digits(u, s2 + 2, s3)) by {
                assert forall|k: int| s2 + 2 <= k < s3 implies '0' <= #[trigger] u[k] && u[k] <= '9' by {
                    assert(u[s2 + (k - s2)] == x[k - s2]);
                }
            }
            lemma_scan_over_digits(u, s2 + 2, s3, dot, true, true);
        } else {
            assert(decimal_digits(u, s2 + 1, s3)) by {
                assert forall|k: int| s2 + 1 <= k < s3 implies '0' <= #[trigger] u[k] && u[k] <= '9' by {
                    assert(u[s2 + (k - s2)] == x[k - s2]);
                }
            }
            lemma_scan_over_digits(u, s2 + 1, s3, dot, true, true);
        }
        assert(float_scan(u, s0, false, false, false) == float_scan(u, s3, dot, true, true));
    }
    if rest.len() > 0 {
        assert(u[s3] == rest[0]);
    }
}

/// `Infinity` after an optional sign is read as positive infinity, the
/// sign and anything that follows aside.
pub proof fn law_parse_float_infinity(sg: Seq<char>, rest: Seq<char>)
    requires
        sg.len() == 0 || sg == seq!['-'] || sg == seq!['+'],
    ensures
        parse_float_spec(sg + "Infinity"@ + rest) == FloatText::Infinity,
{
    reveal_strlit("Infinity");
    let u = sg + "Infinity"@ + rest;
    let s0 = sg.len() as int;
    assert(u[s0] == 'I');
    assert(sign_len(u) == s0);
    assert(u.subrange(s0, s0 + 8) =~= "Infinity"@);
}

/// `NaN` in any case after an optional sign is not a number.
pub proof fn law_parse_float_nan(sg: Seq<char>, w: Seq<char>, rest: Seq<char>)
    requires
        sg.len() == 0 || sg == seq!['-'] || sg == seq!['+'],
        w.len() == 3,
        w[0] == 'n' || w[0] == 'N',
        w[1] == 'a' || w[1] == 'A',
        w[2] == 'n' || w[2] == 'N',
    ensures
        parse_float_spec(sg + w + rest) == FloatText::NotANumber,
{
    reveal_strlit("Infinity");
    let u = sg + w + rest;
    let s0 = sg.len() as int;
    assert(u[s0] == w[0]);
    assert(u[s0 + 1] == w[1]);
    assert(u[s0 + 2] == w[2]);
    assert(sign_len(u) == s0);
    if has_word_at(u, s0, "Infinity"@) {
        assert(u.subrange(s0, s0 + 8)[0] == 'I');
    }
}

/// Digit values: `0`-`9` are 0 to 9, and a letter is worth the same in
/// either case, `a`/`A` 10 up to `z`/`Z` 35; other characters are no
/// digit in any radix.
pub proof fn law_digit_values(c: char)
    ensures
        '0' <= c <= '9' ==> digit_of(c) == c as u32 - '0' as u32,
        'a' <= c <= 'z' ==> digit_of(c) == c as u32 - 'a' as u32 + 10 && digit_of(c) == digit_of(
            ((c as u32) - 32) as char,
        ),
        digit_of(c) < 36 <==> ('0' <= c <= '9' || 'a' <= c <= 'z' || 'A' <= c <= 'Z'),
{
}

/// A radix argument from 2 to 36 is the radix the digits are read in; any
/// other non-zero radix reads nothing.
pub proof fn law_parse_int_given_radix(s: Seq<char>, radix: i32)
    ensures
        radix != 0 ==> (parse_int_spec(s, radix) matches Some((_neg, r, _ds)) ==> r == radix),
        radix != 0 && (radix < 2 || radix > 36) ==> parse_int_spec(s, radix) is None,
{
}

// ---------------------------------------------------------------- trimming

/// Unicode White_Space, the characters trimmed from both ends of the text
/// before `parseInt` and `parseFloat` read it.
pub open spec fn is_white_space(c: char) -> bool {
    let u = c as u32;
    ||| 0x9 <= u <= 0xD
    ||| u == 0x20
    ||| u == 0x85
    ||| u == 0xA0
    ||| u == 0x1680
    ||| 0x2000 <= u <= 0x200A
    ||| u == 0x2028
    ||| u == 0x2029
    ||| u == 0x202F
    ||| u == 0x205F
    ||| u == 0x3000
}

/// The first position at or after `i` that holds no white space.
pub open spec fn space_end(s: Seq<char>, i: int) -> int
    decreases s.len() - i,
{
    if 0 <= i < s.len() && is_white_space(s[i]) {
        space_end(s, i + 1)
    } else {
        i
    }
}

/// The position after the last character before `j` and not before `lo`
/// that is no white space (`lo` when there is none).
pub open spec fn space_start(s: Seq<char>, lo: int, j: int) -> int
    decreases j - lo,
{
    if lo < j && j <= s.len() && is_white_space(s[j - 1]) {
        space_start(s, lo, j - 1)
    } else {
        j
    }
}

/// `s` without the white space at either end.
pub open spec fn trimmed(s: Seq<char>) -> Seq<char> {
    let lo = space_end(s, 0);
    s.subrange(lo, space_start(s, lo, s.len() as int))
}

fn exec_is_white_space(c: char) -> (r: bool)
    ensures
        r == is_white_space(c),
{
    let u = c as u32;
    (0x9 <= u && u <= 0xD) || u == 0x20 || u == 0x85 || u == 0xA0 || u == 0x1680 || (0x2000 <= u && u <= 0x200A)
        || u == 0x2028 || u == 0x2029 || u == 0x202F || u == 0x205F || u == 0x3000
}

/// The text `parseInt` and `parseFloat` read: `s` without the white space
/// at either end.
pub fn trim_text(s: &[char]) -> (r: Vec<char>)
    ensures
        r@ == trimmed(s@),
{
    let n = s.len();
    let mut lo: usize = 0;
    while lo < n && exec_is_white_space(s[lo])
        invariant
            n == s@.len(),
            lo <= n,
            space_end(s@, 0) == space_end(s@, lo as int),
        decreases n - lo,
    {
        lo = lo + 1;
    }
    let mut hi: usize = n;
    while lo < hi && exec_is_white_space(s[hi - 1])
        invariant
            n == s@.len(),
            lo <= hi <= n,
            space_start(s@, lo as int, n as int) == space_start(s@, lo as int, hi as int),
        decreases hi - lo,
    {
        hi = hi - 1;
    }
    let mut r: Vec<char> = Vec::new();
    crate::text::push_range(&mut r, s, lo, hi);
    assert(r@ =~= trimmed(s@));
    r
}

} // verus!
