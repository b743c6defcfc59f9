//! JSON text: the grammar `JSON.parse` reads and the text `JSON.stringify`
//! writes, over a plain tree of values.
//!
//! Numbers that read as a 32-bit integer become `Int`; any other number keeps
//! its text (`Number`), whose floating-point value the caller computes.
use vstd::prelude::*;
use crate::text::{occurs_at, join, lemma_join_push};
use crate::array_index::{
    all_digits,
    decimal_value,
    digit_value,
    is_digit_char,
    lemma_decimal_nonneg,
    lemma_decimal_prefix_le,
};

verus! {

/// A JSON value as a mathematical tree.
pub enum Json {
    Null,
    Bool(bool),
    Int(i32),
    Num(Seq<char>),
    Str(Seq<char>),
    Arr(Seq<Json>),
    Obj(Seq<(Seq<char>, Json)>),
}

/// A JSON value.
pub enum JsonValue {
    Null,
    Bool(bool),
    /// A number that reads as a 32-bit integer.
    Int(i32),
    /// Any other number, as written.
    Number(Vec<char>),
    Str(Vec<char>),
    Array(Vec<JsonValue>),
    /// Members in the order they were written.
    Object(Vec<(Vec<char>, JsonValue)>),
}

/// The tree a value stands for.
pub open spec fn json_view(v: JsonValue) -> Json
    decreases v,
{
    match v {
        JsonValue::Null => Json::Null,
        JsonValue::Bool(b) => Json::Bool(b),
        JsonValue::Int(n) => Json::Int(n),
        JsonValue::Number(t) => Json::Num(t@),
        JsonValue::Str(s) => Json::Str(s@),
        JsonValue::Array(items) => Json::Arr(
            Seq::new(
                items@.len(),
                |i: int|
                    if 0 <= i < items@.len() {
                        json_view(items@[i])
                    } else {
                        Json::Null
                    },
            ),
        ),
        JsonValue::Object(members) => Json::Obj(
            Seq::new(
                members@.len(),
                |i: int|
                    if 0 <= i < members@.len() {
                        (members@[i].0@, json_view(members@[i].1))
                    } else {
                        (Seq::empty(), Json::Null)
                    },
            ),
        ),
    }
}

/// The trees a list of values stands for.
pub open spec fn items_view(items: Seq<JsonValue>) -> Seq<Json> {
    Seq::new(items.len(), |i: int| json_view(items[i]))
}

/// The (key, tree) pairs a list of members stands for.
pub open spec fn members_view(members: Seq<(Vec<char>, JsonValue)>) -> Seq<(Seq<char>, Json)> {
    Seq::new(members.len(), |i: int| (members[i].0@, json_view(members[i].1)))
}

// ---------------------------------------------------------------- grammar

/// JSON whitespace: space, tab, line feed, carriage return.
pub open spec fn is_json_ws(ch: char) -> bool {
    ch == ' ' || ch == '\t' || ch == '\n' || ch == '\r'
}

/// The first position at or after `p` that holds no whitespace.
pub open spec fn skip_ws(c: Seq<char>, p: int) -> int
    decreases c.len() - p,
{
    if 0 <= p < c.len() && is_json_ws(c[p]) {
        skip_ws(c, p + 1)
    } else {
        p
    }
}

/// The first position at or after `p` that holds no decimal digit.
pub open spec fn scan_digits(c: Seq<char>, p: int) -> int
    decreases c.len() - p,
{
    if 0 <= p < c.len() && is_digit_char(c[p]) {
        scan_digits(c, p + 1)
    } else {
        p
    }
}

/// The character a one-letter escape `\e` stands for.
pub open spec fn escape_char(e: char) -> Option<char> {
    if e == '"' {
        Some('"')
    } else if e == '\\' {
        Some('\\')
    } else if e == '/' {
        Some('/')
    } else if e == 'b' {
        Some('\x08')
    } else if e == 'f' {
        Some('\x0C')
    } else if e == 'n' {
        Some('\n')
    } else if e == 'r' {
        Some('\r')
    } else if e == 't' {
        Some('\t')
    } else {
        None
    }
}

/// The value of the hexadecimal digit `ch`, if it is one.
pub open spec fn hex_digit(ch: char) -> Option<int> {
    if '0' <= ch <= '9' {
        Some(ch as int - '0' as int)
    } else if 'a' <= ch <= 'f' {
        Some(ch as int - 'a' as int + 10)
    } else if 'A' <= ch <= 'F' {
        Some(ch as int - 'A' as int + 10)
    } else {
        None
    }
}

/// Every character of `h` is a hexadecimal digit.
pub open spec fn all_hex(h: Seq<char>) -> bool {
    forall|i: int| 0 <= i < h.len() ==> (#[trigger] hex_digit(h[i])) is Some
}

/// The number the hexadecimal digits `h` spell.
pub open spec fn hex_value(h: Seq<char>) -> int
    decreases h.len(),
{
    if h.len() == 0 {
        0
    } else {
        hex_value(h.drop_last()) * 16 + hex_digit(h.last())->0
    }
}

/// The reading of the four characters after `\u` as a hexadecimal number,
/// when all four are hexadecimal digits.
pub open spec fn hex4(h: Seq<char>) -> Option<u32> {
    if all_hex(h) {
        Some(hex_value(h) as u32)
    } else {
        None
    }
}

/// The character with scalar value `code`, if `code` is one.
pub open spec fn char_of(code: u32) -> Option<char> {
    if code < 0xD800 || (0xE000 <= code && code <= 0x10FFFF) {
        Some(code as char)
    } else {
        None
    }
}

/// What a `\uXXXX` escape contributes: the character it names, or nothing
/// when its digits name a surrogate (which no character holds alone).
pub open spec fn unicode_escape(h: Seq<char>) -> Seq<char> {
    match hex4(h) {
        Some(code) => match char_of(code) {
            Some(ch) => seq![ch],
            None => Seq::empty(),
        },
        None => Seq::empty(),
    }
}

/// `a` put before the text of a successful read.
pub open spec fn prefix_text(a: Seq<char>, r: Option<(Seq<char>, int)>) -> Option<(Seq<char>, int)> {
    match r {
        Some((s, e)) => Some((a + s, e)),
        None => None,
    }
}

/// The body of a string literal from `p` (just after the opening quote): the
/// decoded text and the position after the closing quote.
pub open spec fn parse_string_body(c: Seq<char>, p: int) -> Option<(Seq<char>, int)>
    decreases c.len() - p,
{
    if p < 0 || p >= c.len() {
        None
    } else if c[p] == '"' {
        Some((Seq::empty(), p + 1))
    } else if c[p] == '\\' {
        if p + 1 >= c.len() {
            None
        } else if c[p + 1] == 'u' {
            if p + 5 < c.len() && hex4(c.subrange(p + 2, p + 6)) is Some {
                prefix_text(unicode_escape(c.subrange(p + 2, p + 6)), parse_string_body(c, p + 6))
            } else {
                None
            }
        } else {
            match escape_char(c[p + 1]) {
                Some(ch) => prefix_text(seq![ch], parse_string_body(c, p + 2)),
                None => None,
            }
        }
    } else {
        prefix_text(seq![c[p]], parse_string_body(c, p + 1))
    }
}

/// Where the digits of a number starting at `q` begin.
pub open spec fn num_int_start(c: Seq<char>, q: int) -> int {
    if 0 <= q < c.len() && c[q] == '-' {
        q + 1
    } else {
        q
    }
}

/// Where the integer digits of a number starting at `q` end.
pub open spec fn num_int_end(c: Seq<char>, q: int) -> int {
    scan_digits(c, num_int_start(c, q))
}

/// The number starting at `q` has a fraction part.
pub open spec fn num_has_frac(c: Seq<char>, q: int) -> bool {
    0 <= num_int_end(c, q) < c.len() && c[num_int_end(c, q)] == '.'
}

/// Where the fraction part of a number starting at `q` ends.
pub open spec fn num_frac_end(c: Seq<char>, q: int) -> int {
    if num_has_frac(c, q) {
        scan_digits(c, num_int_end(c, q) + 1)
    } else {
        num_int_end(c, q)
    }
}

/// The number starting at `q` has an exponent part.
pub open spec fn num_has_exp(c: Seq<char>, q: int) -> bool {
    0 <= num_frac_end(c, q) < c.len() && (c[num_frac_end(c, q)] == 'e' || c[num_frac_end(c, q)]
        == 'E')
}

/// Where the exponent digits of a number starting at `q` begin.
pub open spec fn num_exp_start(c: Seq<char>, q: int) -> int {
    let m = num_frac_end(c, q) + 1;
    if 0 <= m < c.len() && (c[m] == '+' || c[m] == '-') {
        m + 1
    } else {
        m
    }
}

/// Where the number starting at `q` ends: an optional `-`, digits, an
/// optional `.` and digits, an optional `e`/`E`, sign and digits.
pub open spec fn number_end(c: Seq<char>, q: int) -> int {
    if num_has_exp(c, q) {
        scan_digits(c, num_exp_start(c, q))
    } else {
        num_frac_end(c, q)
    }
}

/// The number text starting at `q` reads as a floating-point number: it has
/// a digit before or after its point, and digits in any exponent it has.
pub open spec fn number_is_float(c: Seq<char>, q: int) -> bool {
    &&& (num_int_end(c, q) > num_int_start(c, q) || (num_has_frac(c, q) && num_frac_end(c, q)
        > num_int_end(c, q) + 1))
    &&& (num_has_exp(c, q) ==> number_end(c, q) > num_exp_start(c, q))
}

/// The 32-bit integer a number text spells: an optional `-` and decimal
/// digits only, within range.
pub open spec fn i32_text_value(t: Seq<char>) -> Option<i32> {
    let neg = t.len() > 0 && t[0] == '-';
    let d = if neg {
        t.skip(1)
    } else {
        t
    };
    let v = if neg {
        -decimal_value(d)
    } else {
        decimal_value(d)
    };
    if d.len() > 0 && all_digits(d) && i32::MIN <= v <= i32::MAX {
        Some(v as i32)
    } else {
        None
    }
}

/// The number starting at `q`: an `Int` when its text reads as a 32-bit
/// integer, else its text when that reads as a floating-point number.
pub open spec fn parse_number(c: Seq<char>, q: int) -> Option<(Json, int)> {
    let e = number_end(c, q);
    let t = c.subrange(q, e);
    match i32_text_value(t) {
        Some(n) => Some((Json::Int(n), e)),
        None => if number_is_float(c, q) {
            Some((Json::Num(t), e))
        } else {
            None
        },
    }
}

/// An array whose items were read, closed by `]` after optional whitespace
/// from `e`.
pub open spec fn close_array(c: Seq<char>, items: Seq<Json>, e: int) -> Option<(Json, int)> {
    let f = skip_ws(c, e);
    if 0 <= f < c.len() && c[f] == ']' {
        Some((Json::Arr(items), f + 1))
    } else {
        None
    }
}

/// An object whose members were read, closed by `}` after optional
/// whitespace from `e`.
pub open spec fn close_object(c: Seq<char>, members: Seq<(Seq<char>, Json)>, e: int) -> Option<
    (Json, int),
> {
    let f = skip_ws(c, e);
    if 0 <= f < c.len() && c[f] == '}' {
        Some((Json::Obj(members), f + 1))
    } else {
        None
    }
}

/// The value at `p` (after optional whitespace) and the position after it.
pub open spec fn parse_value(c: Seq<char>, p: int) -> Option<(Json, int)>
    decreases c.len() - p, 1int,
{
    let q = skip_ws(c, p);
    if !(0 <= p <= q < c.len()) {
        None
    } else if c[q] == 'n' {
        if occurs_at(c, q, seq!['n', 'u', 'l', 'l']) {
            Some((Json::Null, q + 4))
        } else {
            None
        }
    } else if c[q] == 't' {
        if occurs_at(c, q, seq!['t', 'r', 'u', 'e']) {
            Some((Json::Bool(true), q + 4))
        } else {
            None
        }
    } else if c[q] == 'f' {
        if occurs_at(c, q, seq!['f', 'a', 'l', 's', 'e']) {
            Some((Json::Bool(false), q + 5))
        } else {
            None
        }
    } else if c[q] == '"' {
        match parse_string_body(c, q + 1) {
            Some((s, e)) => Some((Json::Str(s), e)),
            None => None,
        }
    } else if c[q] == '-' || is_digit_char(c[q]) {
        parse_number(c, q)
    } else if c[q] == '[' {
        let a = skip_ws(c, q + 1);
        if q + 1 <= a < c.len() && c[a] != ']' {
            match parse_elements(c, a) {
                Some((items, e)) => close_array(c, items, e),
                None => None,
            }
        } else {
            close_array(c, Seq::empty(), a)
        }
    } else if c[q] == '{' {
        let a = skip_ws(c, q + 1);
        if q + 1 <= a < c.len() && c[a] != '}' {
            match parse_members(c, a) {
                Some((members, e)) => close_object(c, members, e),
                None => None,
            }
        } else {
            close_object(c, Seq::empty(), a)
        }
    } else {
        None
    }
}

/// Comma-separated values from `p`: the values and the position after the
/// last one's trailing whitespace.
pub open spec fn parse_elements(c: Seq<char>, p: int) -> Option<(Seq<Json>, int)>
    decreases c.len() - p, 2int,
{
    if !(0 <= p <= c.len()) {
        None
    } else {
        match parse_value(c, p) {
            Some((v, e)) => {
                let r = skip_ws(c, e);
                if !(p < e <= r <= c.len()) {
                    None
                } else if r < c.len() && c[r] == ',' {
                    match parse_elements(c, r + 1) {
                        Some((vs, e2)) => Some((seq![v] + vs, e2)),
                        None => None,
                    }
                } else {
                    Some((seq![v], r))
                }
            },
            None => None,
        }
    }
}

/// Comma-separated `"key": value` members from `p`: the members and the
/// position after the last one's trailing whitespace.
pub open spec fn parse_members(c: Seq<char>, p: int) -> Option<(Seq<(Seq<char>, Json)>, int)>
    decreases c.len() - p, 2int,
{
    let k = skip_ws(c, p);
    if !(0 <= p <= k < c.len()) || c[k] != '"' {
        None
    } else {
        match parse_string_body(c, k + 1) {
            Some((key, ke)) => {
                let colon = skip_ws(c, ke);
                if !(k < ke <= colon < c.len()) || c[colon] != ':' {
                    None
                } else {
                    match parse_value(c, colon + 1) {
                        Some((v, e)) => {
                            let r = skip_ws(c, e);
                            if !(colon < e <= r <= c.len()) {
                                None
                            } else if r < c.len() && c[r] == ',' {
                                match parse_members(c, r + 1) {
                                    Some((ms, e2)) => Some((seq![(key, v)] + ms, e2)),
                                    None => None,
                                }
                            } else {
                                Some((seq![(key, v)], r))
                            }
                        },
                        None => None,
                    }
                }
            },
            None => None,
        }
    }
}

/// What `JSON.parse` reads from the text `c`: the one value the whole text
/// holds (with optional whitespace around it), or nothing when the text is
/// not a single well-formed value.
pub open spec fn json_parse_spec(c: Seq<char>) -> Option<Json> {
    match parse_value(c, 0) {
        Some((v, e)) => if skip_ws(c, e) == c.len() {
            Some(v)
        } else {
            None
        },
        None => None,
    }
}

/// Why `JSON.parse` refuses a text (a SyntaxError-like error object).
#[derive(Clone, Copy, Debug, PartialEq, Eq, Structural)]
pub enum JsonParseError {
    /// The text is not a single well-formed JSON value.
    UnexpectedEnd,
}

impl JsonParseError {
    /// The message of the error `JSON.parse` throws.
    pub fn message(&self) -> (r: &'static str)
        ensures
            r@ == "JSON.parse: unexpected end of JSON input"@,
    {
        "JSON.parse: unexpected end of JSON input"
    }
}

// ---------------------------------------------------------------- reading

/// `char::from_u32`: the character with scalar value `code`, if there is one.
#[verifier::external_body]
fn char_from_u32(code: u32) -> (r: Option<char>)
    ensures
        r == char_of(code),
{
    char::from_u32(code)
}

pub proof fn lemma_skip_ws(c: Seq<char>, p: int)
    requires
        0 <= p <= c.len(),
    ensures
        p <= skip_ws(c, p) <= c.len(),
        forall|i: int| p <= i < skip_ws(c, p) ==> is_json_ws(#[trigger] c[i]),
        skip_ws(c, p) < c.len() ==> !is_json_ws(c[skip_ws(c, p)]),
    decreases c.len() - p,
{
    if p < c.len() && is_json_ws(c[p]) {
        lemma_skip_ws(c, p + 1);
    }
}

pub proof fn lemma_scan_digits(c: Seq<char>, p: int)
    requires
        0 <= p <= c.len(),
    ensures
        p <= scan_digits(c, p) <= c.len(),
        forall|i: int| p <= i < scan_digits(c, p) ==> is_digit_char(#[trigger] c[i]),
        scan_digits(c, p) < c.len() ==> !is_digit_char(c[scan_digits(c, p)]),
    decreases c.len() - p,
{
    if p < c.len() && is_digit_char(c[p]) {
        lemma_scan_digits(c, p + 1);
    }
}

fn exec_skip_ws(c: &[char], p: usize) -> (r: usize)
    requires
        p <= c@.len(),
    ensures
        r as int == skip_ws(c@, p as int),
        p <= r <= c@.len(),
{
    proof {
        lemma_skip_ws(c@, p as int);
    }
    let n = c.len();
    let mut i = p;
    while i < n && (c[i] == ' ' || c[i] == '\t' || c[i] == '\n' || c[i] == '\r')
        invariant
            n == c@.len(),
            p <= i <= n,
            skip_ws(c@, p as int) == skip_ws(c@, i as int),
        decreases n - i,
    {
        i = i + 1;
    }
    i
}

fn exec_scan_digits(c: &[char], p: usize) -> (r: usize)
    requires
        p <= c@.len(),
    ensures
        r as int == scan_digits(c@, p as int),
        p <= r <= c@.len(),
{
    proof {
        lemma_scan_digits(c@, p as int);
    }
    let n = c.len();
    let mut i = p;
    while i < n && '0' <= c[i] && c[i] <= '9'
        invariant
            n == c@.len(),
            p <= i <= n,
            scan_digits(c@, p as int) == scan_digits(c@, i as int),
        decreases n - i,
    {
        i = i + 1;
    }
    i
}

fn exec_hex_digit(ch: char) -> (r: Option<u32>)
    ensures
        match r {
            Some(v) => hex_digit(ch) == Some(v as int),
            None => hex_digit(ch) is None,
        },
{
    if '0' <= ch && ch <= '9' {
        Some(ch as u32 - '0' as u32)
    } else if 'a' <= ch && ch <= 'f' {
        Some(ch as u32 - 'a' as u32 + 10)
    } else if 'A' <= ch && ch <= 'F' {
        Some(ch as u32 - 'A' as u32 + 10)
    } else {
        None
    }
}

/// The hexadecimal value of `c[lo..hi]` (at most four digits), if all are
/// hex digits.
fn exec_hex_run(c: &[char], lo: usize, hi: usize) -> (r: Option<u32>)
    requires
        lo <= hi <= c@.len(),
        hi - lo <= 4,
    ensures
        match r {
            Some(v) => all_hex(c@.subrange(lo as int, hi as int)) && v as int == hex_value(
                c@.subrange(lo as int, hi as int),
            ),
            None => !all_hex(c@.subrange(lo as int, hi as int)),
        },
{
    let mut v: u32 = 0;
    let mut i = lo;
    while i < hi
        invariant
            lo <= i <= hi,
            hi <= c@.len(),
            hi - lo <= 4,
            all_hex(c@.subrange(lo as int, i as int)),
            v as int == hex_value(c@.subrange(lo as int, i as int)),
            v < pow16(i - lo),
        decreases hi - i,
    {
        proof {
            assert(c@.subrange(lo as int, i + 1).drop_last() =~= c@.subrange(lo as int, i as int));
        }
        match exec_hex_digit(c[i]) {
            Some(d) => {
                proof {
                    lemma_pow16_step(i - lo);
                }
                v = v * 16 + d;
                i = i + 1;
            },
            None => {
                assert(hex_digit(c@.subrange(lo as int, hi as int)[i - lo]) is None);
                return None;
            },
        }
    }
    Some(v)
}

/// Sixteen to the power `k`.
pub open spec fn pow16(k: int) -> int
    decreases k,
{
    if k <= 0 {
        1
    } else {
        16 * pow16(k - 1)
    }
}

proof fn lemma_pow16_step(k: int)
    requires
        0 <= k < 4,
    ensures
        pow16(k + 1) == 16 * pow16(k),
        pow16(k + 1) <= 65536,
{
    reveal_with_fuel(pow16, 5);
}

/// The reading of the four characters `c[lo..lo + 4]` after `\u`.
fn exec_hex4(c: &[char], lo: usize) -> (r: Option<u32>)
    requires
        lo + 4 <= c@.len(),
    ensures
        r == hex4(c@.subrange(lo as int, lo + 4)),
{
    let n = c.len();
    assert(lo + 4 <= n);
    exec_hex_run(c, lo, lo + 4)
}

proof fn lemma_prefix_text_assoc(a: Seq<char>, b: Seq<char>, r: Option<(Seq<char>, int)>)
    ensures
        prefix_text(a, prefix_text(b, r)) == prefix_text(a + b, r),
{
    match r {
        Some((s, _e)) => {
            assert(a + (b + s) =~= (a + b) + s);
        },
        None => {},
    }
}

/// Read the body of a string literal starting at `p` (after the quote).
fn exec_parse_string_body(c: &[char], p: usize) -> (r: Option<(Vec<char>, usize)>)
    requires
        p <= c@.len(),
    ensures
        match r {
            Some((s, e)) => parse_string_body(c@, p as int) == Some((s@, e as int)) && p < e <= c@.len(),
            None => parse_string_body(c@, p as int) is None,
        },
{
    let n = c.len();
    let mut out: Vec<char> = Vec::new();
    let mut i = p;
    while i < n
        invariant
            n == c@.len(),
            p <= i <= n,
            parse_string_body(c@, p as int) == prefix_text(out@, parse_string_body(c@, i as int)),
        decreases n - i,
    {
        let ch = c[i];
        let ghost before = out@;
        if ch == '"' {
            assert(out@ + Seq::<char>::empty() =~= out@);
            return Some((out, i + 1));
        } else if ch == '\\' {
            if i + 1 >= n {
                return None;
            }
            let e = c[i + 1];
            if e == 'u' {
                if n - i > 5 {
                    let decoded: Option<char> = match exec_hex4(c, i + 2) {
                        Some(code) => char_from_u32(code),
                        None => {
                            return None;
                        },
                    };
                    proof {
                        lemma_prefix_text_assoc(
                            before,
                            unicode_escape(c@.subrange(i + 2, i + 6)),
                            parse_string_body(c@, i + 6),
                        );
                    }
                    match decoded {
                        Some(d) => {
                            out.push(d);
                        },
                        None => {},
                    }
                    assert(out@ =~= before + unicode_escape(c@.subrange(i + 2, i + 6)));
                    i = i + 6;
                } else {
                    return None;
                }
            } else {
                let esc: Option<char> = if e == '"' {
                    Some('"')
                } else if e == '\\' {
                    Some('\\')
                } else if e == '/' {
                    Some('/')
                } else if e == 'b' {
                    Some('\x08')
                } else if e == 'f' {
                    Some('\x0C')
                } else if e == 'n' {
                    Some('\n')
                } else if e == 'r' {
                    Some('\r')
                } else if e == 't' {
                    Some('\t')
                } else {
                    None
                };
                match esc {
                    Some(d) => {
                        proof {
                            lemma_prefix_text_assoc(before, seq![d], parse_string_body(c@, i + 2));
                        }
                        out.push(d);
                        i = i + 2;
                    },
                    None => {
                        return None;
                    },
                }
            }
        } else {
            proof {
                lemma_prefix_text_assoc(before, seq![ch], parse_string_body(c@, i + 1));
            }
            out.push(ch);
            i = i + 1;
        }
    }
    None
}

/// Whether `lit` occurs in `c` at `p`.
fn exec_has_literal(c: &[char], p: usize, lit: &[char]) -> (r: bool)
    requires
        p <= c@.len(),
    ensures
        r == occurs_at(c@, p as int, lit@),
{
    let n = c.len();
    let m = lit.len();
    if m > n - p {
        return false;
    }
    let mut j: usize = 0;
    while j < m
        invariant
            n == c@.len(),
            m == lit@.len(),
            p + m <= n,
            j <= m,
            forall|k: int| 0 <= k < j ==> c@[p + k] == lit@[k],
        decreases m - j,
    {
        if c[p + j] != lit[j] {
            assert(c@.subrange(p as int, p + m)[j as int] != lit@[j as int]);
            return false;
        }
        j = j + 1;
    }
    assert(c@.subrange(p as int, p + m) =~= lit@);
    true
}

/// Read the number starting at `q`.
fn exec_parse_number(c: &[char], q: usize) -> (r: Option<(JsonValue, usize)>)
    requires
        q < c@.len(),
        c@[q as int] == '-' || is_digit_char(c@[q as int]),
    ensures
        match r {
            Some((v, e)) => parse_number(c@, q as int) == Some((json_view(v), e as int)) && q < e
                <= c@.len(),
            None => parse_number(c@, q as int) is None,
        },
{
    let n = c.len();
    let neg = c[q] == '-';
    let int_start = if neg {
        q + 1
    } else {
        q
    };
    let int_end = exec_scan_digits(c, int_start);
    let has_frac = int_end < n && c[int_end] == '.';
    let frac_end = if has_frac {
        exec_scan_digits(c, int_end + 1)
    } else {
        int_end
    };
    let has_exp = frac_end < n && (c[frac_end] == 'e' || c[frac_end] == 'E');
    let mut end = frac_end;
    let mut exp_start = frac_end;
    if has_exp {
        exp_start = frac_end + 1;
        if frac_end + 1 < n && (c[frac_end + 1] == '+' || c[frac_end + 1] == '-') {
            exp_start = frac_end + 2;
        }
        end = exec_scan_digits(c, exp_start);
    }
    proof {
        lemma_scan_digits(c@, int_start as int);
        if has_frac {
            lemma_scan_digits(c@, int_end + 1);
        }
        if has_exp {
            assert(exp_start as int == num_exp_start(c@, q as int));
            lemma_scan_digits(c@, exp_start as int);
        }
    }
    assert(end as int == number_end(c@, q as int));
    assert(q < end) by {
        if !neg {
            assert(is_digit_char(c@[q as int]));
        }
    }
    let ghost t = c@.subrange(q as int, end as int);
    let ghost d = if neg {
        t.skip(1)
    } else {
        t
    };
    assert(d =~= c@.subrange(int_start as int, end as int));
    // Integer reading: digits only, in 32-bit range.
    if !has_frac && !has_exp && int_end > int_start {
        assert(end == int_end);
        assert(all_digits(d));
        let mut mag: u64 = 0;
        let mut i = int_start;
        let mut fits = true;
        while i < int_end
            invariant
                n == c@.len(),
                int_start <= i <= int_end,
                int_end <= n,
                all_digits(c@.subrange(int_start as int, int_end as int)),
                fits ==> mag as int == decimal_value(c@.subrange(int_start as int, i as int)),
                fits ==> mag <= 0x8000_0000,
                !fits ==> decimal_value(c@.subrange(int_start as int, int_end as int)) > 0x8000_0000,
            decreases int_end - i,
        {
            if fits {
                proof {
                    assert(c@.subrange(int_start as int, i + 1).drop_last() =~= c@.subrange(
                        int_start as int,
                        i as int,
                    ));
                    assert(is_digit_char(c@.subrange(int_start as int, int_end as int)[i - int_start]));
                }
                let dg = (c[i] as u32 - '0' as u32) as u64;
                let next = mag * 10 + dg;
                if next > 0x8000_0000 {
                    fits = false;
                    proof {
                        let whole = c@.subrange(int_start as int, int_end as int);
                        lemma_decimal_prefix_le(whole, i + 1 - int_start);
                        assert(whole.take(i + 1 - int_start) =~= c@.subrange(int_start as int, i + 1));
                    }
                } else {
                    mag = next;
                }
            }
            i = i + 1;
        }
        proof {
            lemma_decimal_nonneg(d);
        }
        if fits {
            if neg {
                let v: i64 = -(mag as i64);
                return Some((JsonValue::Int(v as i32), end));
            } else if mag <= 0x7FFF_FFFF {
                return Some((JsonValue::Int(mag as i32), end));
            }
        }
        assert(i32_text_value(t) is None);
    } else {
        assert(i32_text_value(t) is None) by {
            if d.len() > 0 && all_digits(d) {
                if has_frac {
                    assert(d[int_end - int_start] == c@[int_end as int]);
                } else if has_exp {
                    assert(d[int_end - int_start] == c@[int_end as int]);
                }
            }
        }
    }
    // Floating-point reading: keep the text.
    let mantissa_ok = int_end > int_start || (has_frac && frac_end > int_end + 1);
    let exp_ok = !has_exp || end > exp_start;
    if mantissa_ok && exp_ok {
        let mut text: Vec<char> = Vec::new();
        crate::text::push_range(&mut text, c, q, end);
        Some((JsonValue::Number(text), end))
    } else {
        None
    }
}


/// `xs` put before the values of a successful read.
pub open spec fn prefix_items<T>(xs: Seq<T>, r: Option<(Seq<T>, int)>) -> Option<(Seq<T>, int)> {
    match r {
        Some((ys, e)) => Some((xs + ys, e)),
        None => None,
    }
}

proof fn lemma_prefix_items_push<T>(xs: Seq<T>, x: T, r: Option<(Seq<T>, int)>)
    ensures
        prefix_items(xs, prefix_items(seq![x], r)) == prefix_items(xs.push(x), r),
{
    match r {
        Some((ys, _e)) => {
            assert(xs + (seq![x] + ys) =~= xs.push(x) + ys);
        },
        None => {},
    }
}

proof fn lemma_items_view_push(items: Seq<JsonValue>, v: JsonValue)
    ensures
        items_view(items.push(v)) == items_view(items).push(json_view(v)),
{
    assert(items_view(items.push(v)) =~= items_view(items).push(json_view(v)));
}

proof fn lemma_members_view_push(members: Seq<(Vec<char>, JsonValue)>, m: (Vec<char>, JsonValue))
    ensures
        members_view(members.push(m)) == members_view(members).push((m.0@, json_view(m.1))),
{
    assert(members_view(members.push(m)) =~= members_view(members).push((m.0@, json_view(m.1))));
}

pub(crate) proof fn lemma_array_view(items: Vec<JsonValue>)
    ensures
        json_view(JsonValue::Array(items)) == Json::Arr(items_view(items@)),
{
    match json_view(JsonValue::Array(items)) {
        Json::Arr(s) => {
            assert(s =~= items_view(items@));
        },
        _ => {},
    }
}

pub(crate) proof fn lemma_object_view(members: Vec<(Vec<char>, JsonValue)>)
    ensures
        json_view(JsonValue::Object(members)) == Json::Obj(members_view(members@)),
{
    match json_view(JsonValue::Object(members)) {
        Json::Obj(s) => {
            assert(s =~= members_view(members@));
        },
        _ => {},
    }
}

/// Read the value at `p` (after optional whitespace).
fn exec_parse_value(c: &[char], p: usize) -> (r: Option<(JsonValue, usize)>)
    requires
        p <= c@.len(),
    ensures
        match r {
            Some((v, e)) => parse_value(c@, p as int) == Some((json_view(v), e as int)) && p < e
                <= c@.len(),
            None => parse_value(c@, p as int) is None,
        },
    decreases c@.len() - p,
{
    let n = c.len();
    let q = exec_skip_ws(c, p);
    if q >= n {
        return None;
    }
    let ch = c[q];
    if ch == 'n' {
        let lit = vec!['n', 'u', 'l', 'l'];
        if exec_has_literal(c, q, lit.as_slice()) {
            return Some((JsonValue::Null, q + 4));
        }
        return None;
    } else if ch == 't' {
        let lit = vec!['t', 'r', 'u', 'e'];
        if exec_has_literal(c, q, lit.as_slice()) {
            return Some((JsonValue::Bool(true), q + 4));
        }
        return None;
    } else if ch == 'f' {
        let lit = vec!['f', 'a', 'l', 's', 'e'];
        if exec_has_literal(c, q, lit.as_slice()) {
            return Some((JsonValue::Bool(false), q + 5));
        }
        return None;
    } else if ch == '"' {
        match exec_parse_string_body(c, q + 1) {
            Some((s, e)) => {
                return Some((JsonValue::Str(s), e));
            },
            None => {
                return None;
            },
        }
    } else if ch == '-' || ('0' <= ch && ch <= '9') {
        return exec_parse_number(c, q);
    } else if ch == '[' {
        let a = exec_skip_ws(c, q + 1);
        let mut items: Vec<JsonValue> = Vec::new();
        let mut end = a;
        if a < n && c[a] != ']' {
            let mut cur = a;
            loop
                invariant_except_break
                    n == c@.len(),
                    p <= q < a <= cur <= n,
                    q as int == skip_ws(c@, p as int),
                    c@[q as int] == '[',
                    a as int == skip_ws(c@, q + 1),
                    a < n,
                    c@[a as int] != ']',
                    parse_elements(c@, a as int) == prefix_items(
                        items_view(items@),
                        parse_elements(c@, cur as int),
                    ),
                ensures
                    a <= end <= n,
                    parse_elements(c@, a as int) == Some((items_view(items@), end as int)),
                decreases n - cur,
            {
                match exec_parse_value(c, cur) {
                    None => {
                        assert(parse_elements(c@, cur as int) is None);
                        assert(parse_elements(c@, a as int) is None);
                        return None;
                    },
                    Some((v, e)) => {
                        let r = exec_skip_ws(c, e);
                        let ghost before = items@;
                        let ghost jv = json_view(v);
                        items.push(v);
                        proof {
                            lemma_items_view_push(before, v);
                        }
                        if r < n && c[r] == ',' {
                            proof {
                                lemma_prefix_items_push(
                                    items_view(before),
                                    jv,
                                    parse_elements(c@, r + 1),
                                );
                            }
                            cur = r + 1;
                        } else {
                            assert(items_view(before) + seq![jv] =~= items_view(items@));
                            end = r;
                            break ;
                        }
                    },
                }
            }
        } else {
            assert(items_view(items@) =~= Seq::<Json>::empty());
        }
        let f = exec_skip_ws(c, end);
        if f < n && c[f] == ']' {
            proof {
                lemma_array_view(items);
            }
            return Some((JsonValue::Array(items), f + 1));
        }
        return None;
    } else if ch == '{' {
        let a = exec_skip_ws(c, q + 1);
        let mut members: Vec<(Vec<char>, JsonValue)> = Vec::new();
        let mut end = a;
        if a < n && c[a] != '}' {
            let mut cur = a;
            loop
                invariant_except_break
                    n == c@.len(),
                    p <= q < a <= cur <= n,
                    q as int == skip_ws(c@, p as int),
                    c@[q as int] == '{',
                    a as int == skip_ws(c@, q + 1),
                    a < n,
                    c@[a as int] != '}',
                    parse_members(c@, a as int) == prefix_items(
                        members_view(members@),
                        parse_members(c@, cur as int),
                    ),
                ensures
                    a <= end <= n,
                    parse_members(c@, a as int) == Some((members_view(members@), end as int)),
                decreases n - cur,
            {
                let k = exec_skip_ws(c, cur);
                if k >= n || c[k] != '"' {
                    return None;
                }
                match exec_parse_string_body(c, k + 1) {
                    None => {
                        return None;
                    },
                    Some((key, ke)) => {
                        let colon = exec_skip_ws(c, ke);
                        if colon >= n || c[colon] != ':' {
                            return None;
                        }
                        match exec_parse_value(c, colon + 1) {
                            None => {
                                return None;
                            },
                            Some((v, e)) => {
                                let r = exec_skip_ws(c, e);
                                let ghost before = members@;
                                let ghost jm = (key@, json_view(v));
                                let m = (key, v);
                                proof {
                                    lemma_members_view_push(before, m);
                                }
                                members.push(m);
                                if r < n && c[r] == ',' {
                                    proof {
                                        lemma_prefix_items_push(
                                            members_view(before),
                                            jm,
                                            parse_members(c@, r + 1),
                                        );
                                    }
                                    cur = r + 1;
                                } else {
                                    assert(members_view(before) + seq![jm] =~= members_view(members@));
                                    end = r;
                                    break ;
                                }
                            },
                        }
                    },
                }
            }
        } else {
            assert(members_view(members@) =~= Seq::<(Seq<char>, Json)>::empty());
        }
        let f = exec_skip_ws(c, end);
        if f < n && c[f] == '}' {
            proof {
                lemma_object_view(members);
            }
            return Some((JsonValue::Object(members), f + 1));
        }
        return None;
    }
    None
}

/// `JSON.parse`: the one value that `text` holds, with optional whitespace
/// before and after it; refused when the text is not a single well-formed
/// value.
pub fn json_parse(text: &[char]) -> (r: Result<JsonValue, JsonParseError>)
    ensures
        match r {
            Ok(v) => json_parse_spec(text@) == Some(json_view(v)),
            Err(_) => json_parse_spec(text@) is None,
        },
{
    match exec_parse_value(text, 0) {
        Some((v, e)) => {
            let f = exec_skip_ws(text, e);
            if f == text.len() {
                Ok(v)
            } else {
                Err(JsonParseError::UnexpectedEnd)
            }
        },
        None => Err(JsonParseError::UnexpectedEnd),
    }
}


// ---------------------------------------------------------------- writing

/// `ch` is a control character (general category Cc).
pub open spec fn is_control_char(ch: char) -> bool {
    (ch as u32) <= 0x1F || (0x7F <= (ch as u32) && (ch as u32) <= 0x9F)
}

/// The lowercase hexadecimal digit for `d` in `0..16`.
pub open spec fn hex_lower(d: int) -> char {
    if d < 10 {
        ('0' as int + d) as char
    } else {
        ('a' as int + d - 10) as char
    }
}

/// `v` as four lowercase hexadecimal digits.
pub open spec fn hex4_lower(v: int) -> Seq<char> {
    seq![hex_lower((v / 4096) % 16), hex_lower((v / 256) % 16), hex_lower((v / 16) % 16), hex_lower(v % 16)]
}

/// How one character is written inside a JSON string literal.
pub open spec fn escape_one(ch: char) -> Seq<char> {
    if ch == '"' {
        seq!['\\', '"']
    } else if ch == '\\' {
        seq!['\\', '\\']
    } else if ch == '\x08' {
        seq!['\\', 'b']
    } else if ch == '\x0C' {
        seq!['\\', 'f']
    } else if ch == '\n' {
        seq!['\\', 'n']
    } else if ch == '\r' {
        seq!['\\', 'r']
    } else if ch == '\t' {
        seq!['\\', 't']
    } else if is_control_char(ch) {
        seq!['\\', 'u'] + hex4_lower(ch as int)
    } else {
        seq![ch]
    }
}

/// The characters of `s` as written inside a JSON string literal.
pub open spec fn escape_json_spec(s: Seq<char>) -> Seq<char>
    decreases s.len(),
{
    if s.len() == 0 {
        Seq::empty()
    } else {
        escape_json_spec(s.drop_last()) + escape_one(s.last())
    }
}

/// `s` as a JSON string literal.
pub open spec fn quote(s: Seq<char>) -> Seq<char> {
    seq!['"'] + escape_json_spec(s) + seq!['"']
}

/// The decimal digit character for `d` in `0..10`.
pub open spec fn digit_char(d: int) -> char {
    ('0' as int + d) as char
}

/// The decimal spelling of `n`.
pub open spec fn nat_text(n: nat) -> Seq<char>
    decreases n,
{
    if n < 10 {
        seq![digit_char(n as int)]
    } else {
        nat_text(n / 10) + seq![digit_char((n % 10) as int)]
    }
}

/// The decimal spelling of `n`, with a `-` when negative.
pub open spec fn int_text(n: int) -> Seq<char> {
    if n < 0 {
        seq!['-'] + nat_text((-n) as nat)
    } else {
        nat_text(n as nat)
    }
}

/// How a member is written inside an object: its quoted key, `:`, its value.
pub open spec fn member_text(key: Seq<char>, value_text: Seq<char>) -> Seq<char> {
    quote(key) + seq![':'] + value_text
}

/// The JSON text `JSON.stringify` writes for a tree: no whitespace, items and
/// members separated by commas.
pub open spec fn stringify(v: Json) -> Seq<char>
    decreases v,
{
    match v {
        Json::Null => seq!['n', 'u', 'l', 'l'],
        Json::Bool(b) => if b {
            seq!['t', 'r', 'u', 'e']
        } else {
            seq!['f', 'a', 'l', 's', 'e']
        },
        Json::Int(n) => int_text(n as int),
        Json::Num(t) => t,
        Json::Str(s) => quote(s),
        Json::Arr(items) => seq!['['] + join(item_texts(items), seq![',']) + seq![']'],
        Json::Obj(members) => seq!['{'] + join(member_texts(members), seq![',']) + seq!['}'],
    }
}

/// The texts of a list of trees.
pub open spec fn item_texts(items: Seq<Json>) -> Seq<Seq<char>>
    decreases items,
{
    Seq::new(
        items.len(),
        |i: int|
            if 0 <= i < items.len() {
                stringify(items[i])
            } else {
                Seq::empty()
            },
    )
}

/// The texts of a list of members.
pub open spec fn member_texts(members: Seq<(Seq<char>, Json)>) -> Seq<Seq<char>>
    decreases members,
{
    Seq::new(
        members.len(),
        |i: int|
            if 0 <= i < members.len() {
                member_text(members[i].0, stringify(members[i].1))
            } else {
                Seq::empty()
            },
    )
}

fn exec_hex_lower(d: u32) -> (r: char)
    requires
        d < 16,
    ensures
        r == hex_lower(d as int),
{
    if d < 10 {
        ('0' as u8 + d as u8) as char
    } else {
        ('a' as u8 + (d - 10) as u8) as char
    }
}

fn push_escaped_char(out: &mut Vec<char>, ch: char)
    ensures
        final(out)@ == old(out)@ + escape_one(ch),
{
    if ch == '"' {
        out.push('\\');
        out.push('"');
    } else if ch == '\\' {
        out.push('\\');
        out.push('\\');
    } else if ch == '\x08' {
        out.push('\\');
        out.push('b');
    } else if ch == '\x0C' {
        out.push('\\');
        out.push('f');
    } else if ch == '\n' {
        out.push('\\');
        out.push('n');
    } else if ch == '\r' {
        out.push('\\');
        out.push('r');
    } else if ch == '\t' {
        out.push('\\');
        out.push('t');
    } else if (ch as u32) <= 0x1F || (0x7F <= (ch as u32) && (ch as u32) <= 0x9F) {
        let v = ch as u32;
        out.push('\\');
        out.push('u');
        out.push(exec_hex_lower((v / 4096) % 16));
        out.push(exec_hex_lower((v / 256) % 16));
        out.push(exec_hex_lower((v / 16) % 16));
        out.push(exec_hex_lower(v % 16));
        assert(out@ =~= old(out)@ + escape_one(ch));
        return ;
    } else {
        out.push(ch);
    }
    assert(out@ =~= old(out)@ + escape_one(ch));
}

/// Write the characters of `s` as they appear inside a JSON string literal.
pub fn escape_json(out: &mut Vec<char>, s: &[char])
    ensures
        final(out)@ == old(out)@ + escape_json_spec(s@),
{
    let n = s.len();
    let mut i: usize = 0;
    while i < n
        invariant
            n == s@.len(),
            i <= n,
            out@ == old(out)@ + escape_json_spec(s@.take(i as int)),
        decreases n - i,
    {
        let ch = s[i];
        proof {
            assert(s@.take(i + 1).drop_last() =~= s@.take(i as int));
            assert(s@.take(i + 1).last() == ch);
        }
        push_escaped_char(out, ch);
        assert(old(out)@ + escape_json_spec(s@.take(i as int)) + escape_one(ch) =~= old(out)@
            + escape_json_spec(s@.take(i + 1)));
        i = i + 1;
    }
    assert(s@.take(n as int) =~= s@);
}

fn push_nat_text(out: &mut Vec<char>, m: u64)
    ensures
        final(out)@ == old(out)@ + nat_text(m as nat),
    decreases m,
{
    if m >= 10 {
        push_nat_text(out, m / 10);
    }
    let d = (m % 10) as u8;
    out.push(('0' as u8 + d) as char);
    assert(out@ =~= old(out)@ + nat_text(m as nat));
}

fn push_int_text(out: &mut Vec<char>, n: i32)
    ensures
        final(out)@ == old(out)@ + int_text(n as int),
{
    if n < 0 {
        out.push('-');
        let m: u64 = (-(n as i64)) as u64;
        push_nat_text(out, m);
        assert(out@ =~= old(out)@ + int_text(n as int));
    } else {
        push_nat_text(out, n as u64);
    }
}

fn push_quoted(out: &mut Vec<char>, s: &[char])
    ensures
        final(out)@ == old(out)@ + quote(s@),
{
    out.push('"');
    escape_json(out, s);
    out.push('"');
    assert(out@ =~= old(out)@ + quote(s@));
}

/// Write the JSON text of `v` at the end of `out`.
fn exec_stringify(v: &JsonValue, out: &mut Vec<char>)
    ensures
        final(out)@ == old(out)@ + stringify(json_view(*v)),
    decreases v,
{
    match v {
        JsonValue::Null => {
            out.push('n');
            out.push('u');
            out.push('l');
            out.push('l');
            assert(out@ =~= old(out)@ + seq!['n', 'u', 'l', 'l']);
        },
        JsonValue::Bool(b) => {
            if *b {
                out.push('t');
                out.push('r');
                out.push('u');
                out.push('e');
                assert(out@ =~= old(out)@ + seq!['t', 'r', 'u', 'e']);
            } else {
                out.push('f');
                out.push('a');
                out.push('l');
                out.push('s');
                out.push('e');
                assert(out@ =~= old(out)@ + seq!['f', 'a', 'l', 's', 'e']);
            }
        },
        JsonValue::Int(n) => {
            push_int_text(out, *n);
        },
        JsonValue::Number(t) => {
            crate::text::push_range(out, t.as_slice(), 0, t.len());
            assert(t@.subrange(0, t@.len() as int) =~= t@);
        },
        JsonValue::Str(s) => {
            push_quoted(out, s.as_slice());
        },
        JsonValue::Array(items) => {
            proof {
                lemma_array_view(*items);
            }
            let ghost texts = item_texts(items_view(items@));
            out.push('[');
            let ghost start = out@;
            let n = items.len();
            let mut i: usize = 0;
            while i < n
                invariant
                    n == items@.len(),
                    i <= n,
                    texts == item_texts(items_view(items@)),
                    *v == JsonValue::Array(*items),
                    out@ == start + join(texts.take(i as int), seq![',']),
                decreases n - i,
            {
                let ghost before = out@;
                if i > 0 {
                    out.push(',');
                }
                proof {
                    assert(*v == JsonValue::Array(*items));
                    assert(decreases_to!(*v => (*v)->Array_0));
                    assert(decreases_to!(*items => items@));
                    assert(decreases_to!(items@ => items@[i as int]));
                }
                exec_stringify(&items[i], out);
                proof {
                    lemma_join_push(texts.take(i as int), texts[i as int], seq![',']);
                    assert(texts.take(i + 1) =~= texts.take(i as int).push(texts[i as int]));
                    assert(texts[i as int] == stringify(json_view(items@[i as int])));
                    if i > 0 {
                        assert(out@ =~= start + join(texts.take(i as int), seq![',']) + seq![',']
                            + texts[i as int]);
                    } else {
                        assert(out@ =~= start + texts[i as int]);
                    }
                }
                i = i + 1;
            }
            out.push(']');
            assert(texts.take(n as int) =~= texts);
            assert(out@ =~= old(out)@ + stringify(json_view(*v)));
        },
        JsonValue::Object(members) => {
            proof {
                lemma_object_view(*members);
            }
            let ghost texts = member_texts(members_view(members@));
            out.push('{');
            let ghost start = out@;
            let n = members.len();
            let mut i: usize = 0;
            while i < n
                invariant
                    n == members@.len(),
                    i <= n,
                    texts == member_texts(members_view(members@)),
                    *v == JsonValue::Object(*members),
                    out@ == start + join(texts.take(i as int), seq![',']),
                decreases n - i,
            {
                let ghost before = out@;
                if i > 0 {
                    out.push(',');
                }
                let ghost mid = out@;
                push_quoted(out, members[i].0.as_slice());
                out.push(':');
                proof {
                    assert(*v == JsonValue::Object(*members));
                    assert(decreases_to!(*v => (*v)->Object_0));
                    assert(decreases_to!(*members => members@));
                    assert(decreases_to!(members@ => members@[i as int]));
                    assert(decreases_to!(members@[i as int] => members@[i as int].1));
                }
                exec_stringify(&members[i].1, out);
                proof {
                    assert(out@ =~= mid + member_text(
                        members@[i as int].0@,
                        stringify(json_view(members@[i as int].1)),
                    ));
                    lemma_join_push(texts.take(i as int), texts[i as int], seq![',']);
                    assert(texts.take(i + 1) =~= texts.take(i as int).push(texts[i as int]));
                    if i > 0 {
                        assert(out@ =~= start + join(texts.take(i as int), seq![',']) + seq![',']
                            + texts[i as int]);
                    } else {
                        assert(out@ =~= start + texts[i as int]);
                    }
                }
                i = i + 1;
            }
            out.push('}');
            assert(texts.take(n as int) =~= texts);
            assert(out@ =~= old(out)@ + stringify(json_view(*v)));
        },
    }
}

/// `JSON.stringify` of a tree: its JSON text.
pub fn json_stringify(v: &JsonValue) -> (r: Vec<char>)
    ensures
        r@ == stringify(json_view(*v)),
{
    let mut out: Vec<char> = Vec::new();
    exec_stringify(v, &mut out);
    assert(out@ =~= stringify(json_view(*v)));
    out
}

// ---------------------------------------------------------------- undefined

/// A value as `JSON.stringify` meets it: a JSON value, or `undefined`
/// anywhere in it (holes of arrays read as `undefined`; other values that
/// JSON cannot write, such as functions, NaN and the infinities, are given
/// as `Null`, which is how they are written).
pub enum StringifyInput {
    Undefined,
    Null,
    Bool(bool),
    Int(i32),
    Number(Vec<char>),
    Str(Vec<char>),
    Array(Vec<StringifyInput>),
    Object(Vec<(Vec<char>, StringifyInput)>),
}

/// The members of `ms` whose value is not `undefined`, in order, with
/// their values resolved.
pub open spec fn defined_members(ms: Seq<(Vec<char>, StringifyInput)>) -> Seq<(Seq<char>, Json)>
    decreases ms,
{
    if ms.len() == 0 {
        Seq::empty()
    } else {
        let rest = defined_members(ms.drop_last());
        match resolve_input(ms.last().1) {
            Some(j) => rest.push((ms.last().0@, j)),
            None => rest,
        }
    }
}

/// The tree `JSON.stringify` writes for `v`: none for `undefined`; an
/// `undefined` array element is written as `null`, and an object member
/// whose value is `undefined` is left out.
pub open spec fn resolve_input(v: StringifyInput) -> Option<Json>
    decreases v,
{
    match v {
        StringifyInput::Undefined => None,
        StringifyInput::Null => Some(Json::Null),
        StringifyInput::Bool(b) => Some(Json::Bool(b)),
        StringifyInput::Int(n) => Some(Json::Int(n)),
        StringifyInput::Number(t) => Some(Json::Num(t@)),
        StringifyInput::Str(t) => Some(Json::Str(t@)),
        StringifyInput::Array(items) => Some(
            Json::Arr(
                Seq::new(
                    items@.len(),
                    |i: int|
                        if 0 <= i < items@.len() {
                            match resolve_input(items@[i]) {
                                Some(j) => j,
                                None => Json::Null,
                            }
                        } else {
                            Json::Null
                        },
                ),
            ),
        ),
        StringifyInput::Object(members) => Some(Json::Obj(defined_members(members@))),
    }
}

/// A copy of a character vector.
pub(crate) fn copy_chars(t: &Vec<char>) -> (r: Vec<char>)
    ensures
        r@ == t@,
{
    let mut c: Vec<char> = Vec::new();
    crate::text::push_range(&mut c, t.as_slice(), 0, t.len());
    assert(c@ =~= t@);
    c
}

/// The JSON value `JSON.stringify` writes for `v`, with `undefined`
/// resolved as `resolve_input` says; `None` for `undefined` itself.
pub fn resolve_undefined(v: &StringifyInput) -> (r: Option<JsonValue>)
    ensures
        match r {
            Some(j) => resolve_input(*v) == Some(json_view(j)),
            None => resolve_input(*v) is None,
        },
    decreases v,
{
    match v {
        StringifyInput::Undefined => None,
        StringifyInput::Null => Some(JsonValue::Null),
        StringifyInput::Bool(b) => Some(JsonValue::Bool(*b)),
        StringifyInput::Int(n) => Some(JsonValue::Int(*n)),
        StringifyInput::Number(t) => Some(JsonValue::Number(copy_chars(t))),
        StringifyInput::Str(t) => Some(JsonValue::Str(copy_chars(t))),
        StringifyInput::Array(items) => {
            let ghost want = resolve_input(*v)->0->Arr_0;
            let mut out: Vec<JsonValue> = Vec::new();
            let mut i: usize = 0;
            while i < items.len()
                invariant
                    *v == StringifyInput::Array(*items),
                    want == resolve_input(*v)->0->Arr_0,
                    want.len() == items@.len(),
                    i <= items@.len(),
                    items_view(out@) == want.take(i as int),
                decreases items.len() - i,
            {
                proof {
                    assert(decreases_to!(*v => (*v)->Array_0));
                    assert(decreases_to!(*items => items@));
                    assert(decreases_to!(items@ => items@[i as int]));
                }
                let e = match resolve_undefined(&items[i]) {
                    Some(j) => j,
                    None => JsonValue::Null,
                };
                let ghost before = out@;
                out.push(e);
                proof {
                    assert(want[i as int] == json_view(e));
                    assert(items_view(before).len() == before.len());
                    assert(want.take(i as int).len() == i);
                    assert(before.len() == i);
                    assert(out@ == before.push(e));
                    assert forall|k: int| 0 <= k < i + 1 implies #[trigger] items_view(out@)[k] == want.take(i + 1)[k] by {
                        if k < i {
                            assert(out@[k] == before[k]);
                            assert(items_view(before)[k] == want.take(i as int)[k]);
                        }
                    }
                    assert(items_view(out@) =~= want.take(i + 1));
                }
                i = i + 1;
            }
            proof {
                assert(want.take(items@.len() as int) =~= want);
                lemma_array_view(out);
            }
            Some(JsonValue::Array(out))
        },
        StringifyInput::Object(members) => {
            let mut out: Vec<(Vec<char>, JsonValue)> = Vec::new();
            let mut i: usize = 0;
            while i < members.len()
                invariant
                    *v == StringifyInput::Object(*members),
                    i <= members@.len(),
                    members_view(out@) == defined_members(members@.take(i as int)),
                decreases members.len() - i,
            {
                proof {
                    assert(decreases_to!(*v => (*v)->Object_0));
                    assert(decreases_to!(*members => members@));
                    assert(decreases_to!(members@ => members@[i as int]));
                    assert(decreases_to!(members@[i as int] => members@[i as int].1));
                    assert(members@.take(i + 1).drop_last() =~= members@.take(i as int));
                    assert(members@.take(i + 1).last() == members@[i as int]);
                }
                let r = resolve_undefined(&members[i].1);
                match r {
                    Some(j) => {
                        let key = copy_chars(&members[i].0);
                        let ghost before = out@;
                        out.push((key, j));
                        proof {
                            assert(members_view(out@) =~= members_view(before).push((key@, json_view(j))));
                        }
                    },
                    None => {},
                }
                i = i + 1;
            }
            proof {
                assert(members@.take(members@.len() as int) =~= members@);
                lemma_object_view(out);
            }
            Some(JsonValue::Object(out))
        },
    }
}

/// `JSON.stringify` and `undefined`: `undefined` itself gives no text, an
/// `undefined` array element is written as `null`, and an object member
/// whose value is `undefined` is left out.
pub proof fn law_stringify_undefined(items: Vec<StringifyInput>, k: int, ms: Seq<(Vec<char>, StringifyInput)>, key: Vec<char>)
    requires
        0 <= k < items@.len(),
    ensures
        resolve_input(StringifyInput::Undefined) is None,
        resolve_input(items@[k]) is None ==> resolve_input(StringifyInput::Array(items))->0->Arr_0[k] == Json::Null,
        defined_members(ms.push((key, StringifyInput::Undefined))) == defined_members(ms),
{
    assert(ms.push((key, StringifyInput::Undefined)).drop_last() =~= ms);
}

/// `JSON.stringify(v)`: the JSON text of `v` with `undefined` resolved, or
/// no result when `v` is `undefined`.
pub fn json_stringify_input(v: &StringifyInput) -> (r: Option<Vec<char>>)
    ensures
        match r {
            Some(t) => resolve_input(*v) matches Some(j) && t@ == stringify(j),
            None => resolve_input(*v) is None,
        },
{
    match resolve_undefined(v) {
        Some(j) => Some(json_stringify(&j)),
        None => None,
    }
}

} // verus!
