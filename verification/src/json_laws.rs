//! Reading back written JSON text: `JSON.parse` of the text `JSON.stringify`
//! writes for a tree gives the tree back.
use vstd::prelude::*;
use crate::text::join;
use crate::array_index::{all_digits, decimal_value, digit_value, is_digit_char};
use crate::json::{
    Json,
    char_of,
    escape_char,
    escape_json_spec,
    escape_one,
    hex4,
    hex4_lower,
    hex_digit,
    hex_lower,
    hex_value,
    all_hex,
    i32_text_value,
    int_text,
    is_control_char,
    is_json_ws,
    item_texts,
    member_text,
    member_texts,
    nat_text,
    digit_char,
    num_exp_start,
    num_frac_end,
    num_has_exp,
    num_has_frac,
    num_int_end,
    num_int_start,
    number_end,
    number_is_float,
    parse_elements,
    parse_members,
    parse_number,
    parse_string_body,
    parse_value,
    prefix_text,
    quote,
    scan_digits,
    skip_ws,
    stringify,
    unicode_escape,
    json_parse_spec,
    lemma_scan_digits,
};

verus! {

/// A number text `JSON.parse` keeps as text: it starts with `-` or a digit,
/// is one whole number token, does not read as a 32-bit integer, and reads
/// as a floating-point number.
pub open spec fn number_text_ok(t: Seq<char>) -> bool {
    &&& t.len() > 0
    &&& (t[0] == '-' || is_digit_char(t[0]))
    &&& number_end(t, 0) == t.len()
    &&& i32_text_value(t) is None
    &&& number_is_float(t, 0)
}

/// Every number text kept in the tree is one `JSON.parse` would keep.
pub open spec fn well_formed(j: Json) -> bool
    decreases j,
{
    match j {
        Json::Num(t) => number_text_ok(t),
        Json::Arr(items) => items_well_formed(items),
        Json::Obj(ms) => members_well_formed(ms),
        _ => true,
    }
}

/// Every item of `items` is well formed.
pub open spec fn items_well_formed(items: Seq<Json>) -> bool
    decreases items,
{
    if items.len() == 0 {
        true
    } else {
        well_formed(items[0]) && items_well_formed(items.subrange(1, items.len() as int))
    }
}

/// The value of every member of `ms` is well formed.
pub open spec fn members_well_formed(ms: Seq<(Seq<char>, Json)>) -> bool
    decreases ms,
{
    if ms.len() == 0 {
        true
    } else {
        well_formed(ms[0].1) && members_well_formed(ms.subrange(1, ms.len() as int))
    }
}

/// The character after a written value inside a larger text: a separator, a
/// closing bracket, or the end of the text.
pub open spec fn stops(c: Seq<char>, k: int) -> bool {
    k == c.len() || (0 <= k < c.len() && (c[k] == ',' || c[k] == ']' || c[k] == '}'))
}

/// `t` stands in `c` at position `p`.
pub open spec fn written_at(c: Seq<char>, p: int, t: Seq<char>) -> bool {
    0 <= p && p + t.len() <= c.len() && c.subrange(p, p + t.len()) == t
}

proof fn lemma_written_char(c: Seq<char>, p: int, t: Seq<char>, i: int)
    requires
        written_at(c, p, t),
        0 <= i < t.len(),
    ensures
        c[p + i] == t[i],
{
    assert(c.subrange(p, p + t.len())[i] == c[p + i]);
}

proof fn lemma_written_split(c: Seq<char>, p: int, a: Seq<char>, b: Seq<char>)
    requires
        written_at(c, p, a + b),
    ensures
        written_at(c, p, a),
        written_at(c, p + a.len(), b),
{
    assert(c.subrange(p, p + a.len()) =~= (a + b).subrange(0, a.len() as int));
    assert(c.subrange(p + a.len(), p + a.len() + b.len()) =~= (a + b).subrange(
        a.len() as int,
        (a + b).len() as int,
    ));
    assert((a + b).subrange(0, a.len() as int) =~= a);
    assert((a + b).subrange(a.len() as int, (a + b).len() as int) =~= b);
}

proof fn lemma_skip_ws_at(c: Seq<char>, p: int)
    requires
        0 <= p <= c.len(),
        p < c.len() ==> !is_json_ws(c[p]),
    ensures
        skip_ws(c, p) == p,
{
}

proof fn lemma_esc_concat(a: Seq<char>, b: Seq<char>)
    ensures
        escape_json_spec(a + b) == escape_json_spec(a) + escape_json_spec(b),
    decreases b.len(),
{
    if b.len() == 0 {
        assert(a + b =~= a);
        assert(escape_json_spec(a) + escape_json_spec(b) =~= escape_json_spec(a));
    } else {
        lemma_esc_concat(a, b.drop_last());
        assert((a + b).drop_last() =~= a + b.drop_last());
        assert((a + b).last() == b.last());
        assert(escape_json_spec(a) + (escape_json_spec(b.drop_last()) + escape_one(b.last()))
            =~= (escape_json_spec(a) + escape_json_spec(b.drop_last())) + escape_one(b.last()));
    }
}

proof fn lemma_esc_cons(ch: char, rest: Seq<char>)
    ensures
        escape_json_spec(seq![ch] + rest) == escape_one(ch) + escape_json_spec(rest),
{
    lemma_esc_concat(seq![ch], rest);
    assert(seq![ch].drop_last() =~= Seq::<char>::empty());
    assert(seq![ch].last() == ch);
    assert(escape_json_spec(Seq::<char>::empty()) == Seq::<char>::empty());
    assert(escape_json_spec(seq![ch]) =~= escape_one(ch));
}

proof fn lemma_hex_lower_digit(d: int)
    requires
        0 <= d < 16,
    ensures
        hex_digit(hex_lower(d)) == Some(d),
{
}

proof fn lemma_hex4_roundtrip(v: u32)
    requires
        v < 65536,
    ensures
        hex4(hex4_lower(v as int)) == Some(v),
{
    let h = hex4_lower(v as int);
    let d0 = (v as int / 4096) % 16;
    let d1 = (v as int / 256) % 16;
    let d2 = (v as int / 16) % 16;
    let d3 = v as int % 16;
    lemma_hex_lower_digit(d0);
    lemma_hex_lower_digit(d1);
    lemma_hex_lower_digit(d2);
    lemma_hex_lower_digit(d3);
    assert(all_hex(h));
    assert(h.drop_last() =~= seq![hex_lower(d0), hex_lower(d1), hex_lower(d2)]);
    assert(h.drop_last().drop_last() =~= seq![hex_lower(d0), hex_lower(d1)]);
    assert(h.drop_last().drop_last().drop_last() =~= seq![hex_lower(d0)]);
    assert(h.drop_last().drop_last().drop_last().drop_last() =~= Seq::<char>::empty());
    let s1 = seq![hex_lower(d0)];
    let s2 = seq![hex_lower(d0), hex_lower(d1)];
    let s3 = seq![hex_lower(d0), hex_lower(d1), hex_lower(d2)];
    assert(s1.drop_last() =~= Seq::<char>::empty());
    assert(s2.drop_last() =~= s1);
    assert(s3.drop_last() =~= s2);
    assert(hex_value(Seq::<char>::empty()) == 0);
    assert(hex_value(s1) == d0);
    assert(hex_value(seq![hex_lower(d0), hex_lower(d1)]) == d0 * 16 + d1);
    assert(hex_value(seq![hex_lower(d0), hex_lower(d1), hex_lower(d2)]) == (d0 * 16 + d1) * 16
        + d2);
    assert(hex_value(h) == ((d0 * 16 + d1) * 16 + d2) * 16 + d3);
    assert(((v / 4096) % 16) * 4096 + ((v / 256) % 16) * 256 + ((v / 16) % 16) * 16 + v % 16
        == v) by (bit_vector)
        requires
            v < 65536,
    ;
}

/// One written character of a string body reads back as that character.
proof fn lemma_string_step(c: Seq<char>, k: int, ch: char)
    requires
        written_at(c, k, escape_one(ch)),
        k + escape_one(ch).len() < c.len(),
    ensures
        parse_string_body(c, k) == prefix_text(seq![ch], parse_string_body(c, k + escape_one(ch).len())),
{
    let e = escape_one(ch);
    lemma_written_char(c, k, e, 0);
    if e.len() > 1 {
        lemma_written_char(c, k, e, 1);
    }
    if ch == '"' || ch == '\\' || ch == '\x08' || ch == '\x0C' || ch == '\n' || ch == '\r' || ch
        == '\t' {
    } else if is_control_char(ch) {
        let v = ch as u32;
        assert(v <= 0x9F);
        assert(c.subrange(k + 2, k + 6) =~= hex4_lower(ch as int)) by {
            assert forall|i: int| 0 <= i < 4 implies c.subrange(k + 2, k + 6)[i] == hex4_lower(
                ch as int,
            )[i] by {
                lemma_written_char(c, k, e, i + 2);
            }
        }
        lemma_hex4_roundtrip(v);
        assert(char_of(v) == Some(ch));
        assert(unicode_escape(c.subrange(k + 2, k + 6)) == seq![ch]);
    } else {
    }
}

/// A written string body followed by a closing quote reads back as the string.
proof fn lemma_string_body(c: Seq<char>, k: int, s: Seq<char>)
    requires
        written_at(c, k, escape_json_spec(s)),
        k + escape_json_spec(s).len() < c.len(),
        c[k + escape_json_spec(s).len()] == '"',
    ensures
        parse_string_body(c, k) == Some((s, k + escape_json_spec(s).len() + 1)),
    decreases s.len(),
{
    if s.len() == 0 {
        assert(s =~= Seq::<char>::empty());
    } else {
        let ch = s[0];
        let rest = s.skip(1);
        assert(s =~= seq![ch] + rest);
        lemma_esc_cons(ch, rest);
        let e = escape_one(ch);
        lemma_written_split(c, k, e, escape_json_spec(rest));
        lemma_string_step(c, k, ch);
        lemma_string_body(c, k + e.len(), rest);
    }
}

/// A written quoted string reads back as the string, ending after its quote.
proof fn lemma_quote_reads(c: Seq<char>, k: int, s: Seq<char>)
    requires
        written_at(c, k, quote(s)),
    ensures
        c[k] == '"',
        parse_string_body(c, k + 1) == Some((s, k + quote(s).len())),
{
    let e = escape_json_spec(s);
    lemma_written_split(c, k, seq!['"'] + e, seq!['"']);
    lemma_written_split(c, k, seq!['"'], e);
    lemma_written_char(c, k, quote(s), 0);
    lemma_written_char(c, k + 1 + e.len(), seq!['"'], 0);
    lemma_string_body(c, k + 1, s);
}

proof fn lemma_nat_text(m: nat)
    ensures
        nat_text(m).len() > 0,
        all_digits(nat_text(m)),
        decimal_value(nat_text(m)) == m,
    decreases m,
{
    if m < 10 {
        let s = nat_text(m);
        assert(s.drop_last() =~= Seq::<char>::empty());
        assert(decimal_value(Seq::<char>::empty()) == 0);
    } else {
        lemma_nat_text(m / 10);
        let s = nat_text(m);
        assert(s.drop_last() =~= nat_text(m / 10));
        assert(s.last() == digit_char((m % 10) as int));
        assert(digit_value(digit_char((m % 10) as int)) == m % 10);
        assert(all_digits(s)) by {
            assert forall|i: int| 0 <= i < s.len() implies is_digit_char(#[trigger] s[i]) by {
                if i < s.len() - 1 {
                    assert(s[i] == nat_text(m / 10)[i]);
                }
            }
        }
    }
}

/// Scanning a run of digits that ends at `m` stops at `m`.
proof fn lemma_scan_run(c: Seq<char>, k: int, m: int)
    requires
        0 <= k <= m <= c.len(),
        forall|i: int| k <= i < m ==> is_digit_char(#[trigger] c[i]),
        m == c.len() || !is_digit_char(c[m]),
    ensures
        scan_digits(c, k) == m,
    decreases m - k,
{
    if k < m {
        lemma_scan_run(c, k + 1, m);
    }
}

/// The character after a written value never continues a number.
proof fn lemma_stop_char(c: Seq<char>, k: int)
    requires
        stops(c, k),
        k < c.len(),
    ensures
        !is_digit_char(c[k]),
        c[k] != '.' && c[k] != 'e' && c[k] != 'E' && c[k] != '+' && c[k] != '-',
        !is_json_ws(c[k]),
{
}

/// A written integer reads back as that integer.
proof fn lemma_parse_int(c: Seq<char>, p: int, n: i32)
    requires
        written_at(c, p, int_text(n as int)),
        stops(c, p + int_text(n as int).len()),
    ensures
        parse_number(c, p) == Some((Json::Int(n), p + int_text(n as int).len())),
{
    let s = int_text(n as int);
    let m: nat = if n < 0 {
        (-(n as int)) as nat
    } else {
        n as nat
    };
    lemma_nat_text(m);
    let digits = nat_text(m);
    let start = if n < 0 {
        p + 1
    } else {
        p
    };
    let end = p + s.len();
    assert(s.len() == start - p + digits.len());
    lemma_written_char(c, p, s, 0);
    assert(num_int_start(c, p) == start) by {
        if n >= 0 {
            assert(s[0] == digits[0]);
            assert(is_digit_char(digits[0]));
        }
    }
    assert forall|i: int| start <= i < end implies is_digit_char(#[trigger] c[i]) by {
        lemma_written_char(c, p, s, i - p);
        if n < 0 {
            assert(s[i - p] == digits[i - p - 1]);
        } else {
            assert(s[i - p] == digits[i - p]);
        }
    }
    if end < c.len() {
        lemma_stop_char(c, end);
    }
    lemma_scan_run(c, start, end);
    assert(num_int_end(c, p) == end);
    assert(!num_has_frac(c, p));
    assert(num_frac_end(c, p) == end);
    assert(!num_has_exp(c, p));
    assert(number_end(c, p) == end);
    assert(c.subrange(p, end) == s);
    if n < 0 {
        assert(s.skip(1) =~= digits);
    } else {
        assert(s[0] == digits[0]);
    }
    assert(i32_text_value(s) == Some(n));
}

/// Scanning digits inside a written text that ends before a non-digit
/// matches scanning the text itself.
proof fn lemma_scan_shift(c: Seq<char>, p: int, t: Seq<char>, k: int)
    requires
        written_at(c, p, t),
        0 <= k <= t.len(),
        p + t.len() == c.len() || !is_digit_char(c[p + t.len()]),
    ensures
        scan_digits(c, p + k) == p + scan_digits(t, k),
    decreases t.len() - k,
{
    if k < t.len() {
        lemma_written_char(c, p, t, k);
        if is_digit_char(t[k]) {
            lemma_scan_shift(c, p, t, k + 1);
        }
    }
}

/// A kept number text reads back as that text.
proof fn lemma_parse_num(c: Seq<char>, p: int, t: Seq<char>)
    requires
        number_text_ok(t),
        written_at(c, p, t),
        stops(c, p + t.len()),
    ensures
        parse_number(c, p) == Some((Json::Num(t), p + t.len())),
{
    let z = p + t.len();
    if z < c.len() {
        lemma_stop_char(c, z);
    }
    lemma_written_char(c, p, t, 0);
    assert(num_int_start(c, p) == p + num_int_start(t, 0));
    let is0 = num_int_start(t, 0);
    lemma_scan_digits(t, is0);
    lemma_scan_shift(c, p, t, is0);
    let ie = num_int_end(t, 0);
    assert(num_int_end(c, p) == p + ie);
    if ie < t.len() {
        lemma_written_char(c, p, t, ie);
    }
    assert(num_has_frac(c, p) == num_has_frac(t, 0));
    if num_has_frac(t, 0) {
        lemma_scan_digits(t, ie + 1);
        lemma_scan_shift(c, p, t, ie + 1);
    }
    let fe = num_frac_end(t, 0);
    assert(num_frac_end(c, p) == p + fe);
    assert(fe <= t.len());
    if fe < t.len() {
        lemma_written_char(c, p, t, fe);
    }
    assert(num_has_exp(c, p) == num_has_exp(t, 0));
    if num_has_exp(t, 0) {
        if fe + 1 < t.len() {
            lemma_written_char(c, p, t, fe + 1);
        }
        assert(num_exp_start(c, p) == p + num_exp_start(t, 0));
        let es = num_exp_start(t, 0);
        assert(es <= t.len());
        lemma_scan_shift(c, p, t, es);
    }
    assert(number_end(c, p) == p + number_end(t, 0));
    assert(number_is_float(c, p) == number_is_float(t, 0));
    assert(c.subrange(p, p + t.len()) == t);
}

/// A character a written value can start with.
pub open spec fn value_start(ch: char) -> bool {
    ch == 'n' || ch == 't' || ch == 'f' || ch == '"' || ch == '[' || ch == '{' || ch == '-'
        || is_digit_char(ch)
}

proof fn lemma_join_first(parts: Seq<Seq<char>>, sep: Seq<char>)
    requires
        parts.len() > 0,
        parts[0].len() > 0,
    ensures
        join(parts, sep).len() > 0,
        join(parts, sep)[0] == parts[0][0],
{
    if parts.len() > 1 {
        assert((parts[0] + sep + join(parts.skip(1), sep))[0] == parts[0][0]);
    }
}

/// Written text is never empty and starts with a character a value can
/// start with.
proof fn lemma_stringify_shape(j: Json)
    requires
        well_formed(j),
    ensures
        stringify(j).len() > 0,
        value_start(stringify(j)[0]),
{
    match j {
        Json::Int(n) => {
            let m: nat = if n < 0 {
                (-(n as int)) as nat
            } else {
                n as nat
            };
            lemma_nat_text(m);
            if n >= 0 {
                assert(is_digit_char(nat_text(m)[0]));
            }
        },
        _ => {},
    }
}

/// The items of a written array read back as those items.
proof fn lemma_parse_elements_printed(c: Seq<char>, a: int, items: Seq<Json>)
    requires
        items.len() > 0,
        items_well_formed(items),
        written_at(c, a, join(item_texts(items), seq![','])),
        a + join(item_texts(items), seq![',']).len() < c.len(),
        c[a + join(item_texts(items), seq![',']).len()] == ']',
    ensures
        parse_elements(c, a) == Some((items, a + join(item_texts(items), seq![',']).len())),
    decreases items,
{
    let texts = item_texts(items);
    let jn = join(texts, seq![',']);
    let t0 = texts[0];
    assert(t0 == stringify(items[0]));
    assert(well_formed(items[0]));
    lemma_stringify_shape(items[0]);
    if items.len() == 1 {
        assert(jn == t0);
        lemma_parse_printed(c, a, items[0]);
        let e = a + t0.len();
        lemma_skip_ws_at(c, e);
        assert(seq![items[0]] =~= items);
    } else {
        let rest = items.skip(1);
        let jr = join(item_texts(rest), seq![',']);
        assert(texts.skip(1) =~= item_texts(rest));
        assert(jn == t0 + seq![','] + jr);
        lemma_written_split(c, a, t0 + seq![','], jr);
        lemma_written_split(c, a, t0, seq![',']);
        lemma_written_char(c, a + t0.len(), seq![','], 0);
        lemma_parse_printed(c, a, items[0]);
        let e = a + t0.len();
        lemma_skip_ws_at(c, e);
        assert(decreases_to!(items => items.subrange(1, items.len() as int)));
        lemma_parse_elements_printed(c, e + 1, rest);
        assert(seq![items[0]] + rest =~= items);
    }
}

/// The members of a written object read back as those members.
proof fn lemma_parse_members_printed(c: Seq<char>, a: int, ms: Seq<(Seq<char>, Json)>)
    requires
        ms.len() > 0,
        members_well_formed(ms),
        written_at(c, a, join(member_texts(ms), seq![','])),
        a + join(member_texts(ms), seq![',']).len() < c.len(),
        c[a + join(member_texts(ms), seq![',']).len()] == '}',
    ensures
        parse_members(c, a) == Some((ms, a + join(member_texts(ms), seq![',']).len())),
    decreases ms,
{
    let texts = member_texts(ms);
    let jn = join(texts, seq![',']);
    let key = ms[0].0;
    let val = ms[0].1;
    let vt = stringify(val);
    let t0 = texts[0];
    assert(t0 == member_text(key, vt));
    assert(well_formed(ms[0].1));
    lemma_stringify_shape(val);
    // The member text: quoted key, colon, value.
    let qk = quote(key);
    let after = if ms.len() == 1 {
        Seq::<char>::empty()
    } else {
        seq![','] + join(member_texts(ms.skip(1)), seq![','])
    };
    if ms.len() == 1 {
        assert(jn == t0);
        assert(jn =~= t0 + after);
    } else {
        assert(texts.skip(1) =~= member_texts(ms.skip(1)));
        assert(jn =~= t0 + after);
    }
    lemma_written_split(c, a, t0, after);
    lemma_written_split(c, a, qk + seq![':'], vt);
    lemma_written_split(c, a, qk, seq![':']);
    lemma_quote_reads(c, a, key);
    lemma_skip_ws_at(c, a);
    let colon = a + qk.len();
    lemma_written_char(c, colon, seq![':'], 0);
    lemma_skip_ws_at(c, colon);
    let e = colon + 1 + vt.len();
    if ms.len() == 1 {
        assert(e == a + jn.len());
    } else {
        lemma_written_char(c, e, after, 0);
    }
    assert(decreases_to!(ms => ms[0]));
    assert(decreases_to!(ms[0] => ms[0].1));
    lemma_parse_printed(c, colon + 1, val);
    lemma_skip_ws_at(c, e);
    if ms.len() == 1 {
        assert(seq![(key, val)] =~= ms);
    } else {
        let rest = ms.skip(1);
        let jr = join(member_texts(rest), seq![',']);
        lemma_written_split(c, e, seq![','], jr);
        assert(decreases_to!(ms => ms.subrange(1, ms.len() as int)));
        lemma_parse_members_printed(c, e + 1, rest);
        assert(seq![(key, val)] + rest =~= ms);
    }
}

/// A written well-formed value reads back as that value, ending right after
/// its text.
proof fn lemma_parse_printed(c: Seq<char>, p: int, j: Json)
    requires
        well_formed(j),
        written_at(c, p, stringify(j)),
        stops(c, p + stringify(j).len()),
    ensures
        parse_value(c, p) == Some((j, p + stringify(j).len())),
    decreases j,
{
    let s = stringify(j);
    lemma_stringify_shape(j);
    lemma_written_char(c, p, s, 0);
    lemma_skip_ws_at(c, p);
    match j {
        Json::Null => {
            assert(c.subrange(p, p + 4) =~= seq!['n', 'u', 'l', 'l']);
        },
        Json::Bool(b) => {
            if b {
                assert(c.subrange(p, p + 4) =~= seq!['t', 'r', 'u', 'e']);
            } else {
                assert(c.subrange(p, p + 5) =~= seq!['f', 'a', 'l', 's', 'e']);
            }
        },
        Json::Int(n) => {
            lemma_parse_int(c, p, n);
        },
        Json::Num(t) => {
            lemma_parse_num(c, p, t);
        },
        Json::Str(x) => {
            lemma_quote_reads(c, p, x);
        },
        Json::Arr(items) => {
            let jn = join(item_texts(items), seq![',']);
            assert(s == seq!['['] + jn + seq![']']);
            lemma_written_split(c, p, seq!['['] + jn, seq![']']);
            lemma_written_split(c, p, seq!['['], jn);
            let a = p + 1;
            let z = a + jn.len();
            lemma_written_char(c, z, seq![']'], 0);
            if items.len() == 0 {
                assert(item_texts(items) =~= Seq::<Seq<char>>::empty());
                assert(jn.len() == 0);
                lemma_skip_ws_at(c, a);
                assert(items =~= Seq::<Json>::empty());
            } else {
                assert(item_texts(items)[0] == stringify(items[0]));

                lemma_stringify_shape(items[0]);
                lemma_join_first(item_texts(items), seq![',']);
                lemma_written_char(c, a, jn, 0);
                lemma_skip_ws_at(c, a);
                assert(decreases_to!(j => j->Arr_0));
                lemma_parse_elements_printed(c, a, items);
                lemma_skip_ws_at(c, z);
            }
        },
        Json::Obj(ms) => {
            let jn = join(member_texts(ms), seq![',']);
            assert(s == seq!['{'] + jn + seq!['}']);
            lemma_written_split(c, p, seq!['{'] + jn, seq!['}']);
            lemma_written_split(c, p, seq!['{'], jn);
            let a = p + 1;
            let z = a + jn.len();
            lemma_written_char(c, z, seq!['}'], 0);
            if ms.len() == 0 {
                assert(member_texts(ms) =~= Seq::<Seq<char>>::empty());
                assert(jn.len() == 0);
                lemma_skip_ws_at(c, a);
                assert(ms =~= Seq::<(Seq<char>, Json)>::empty());
            } else {
                let t0 = member_texts(ms)[0];
                assert(t0 == member_text(ms[0].0, stringify(ms[0].1)));
                assert(t0[0] == '"');
                lemma_join_first(member_texts(ms), seq![',']);
                lemma_written_char(c, a, jn, 0);
                lemma_skip_ws_at(c, a);
                assert(decreases_to!(j => j->Obj_0));
                lemma_parse_members_printed(c, a, ms);
                lemma_skip_ws_at(c, z);
            }
        },
    }
}

/// Reading the JSON text written for a well-formed tree gives the tree back.
pub proof fn law_parse_stringify(j: Json)
    requires
        well_formed(j),
    ensures
        json_parse_spec(stringify(j)) == Some(j),
{
    let s = stringify(j);
    assert(s.subrange(0, s.len() as int) =~= s);
    lemma_parse_printed(s, 0, j);
}

/// A number text that spells a 32-bit integer (such as `5` or `-0`) is
/// read back as that integer: the same number, kept as `Int`.
pub proof fn law_parse_integer_text(t: Seq<char>)
    requires
        t.len() > 0,
        t[0] == '-' || is_digit_char(t[0]),
        number_end(t, 0) == t.len(),
        i32_text_value(t) is Some,
    ensures
        json_parse_spec(stringify(Json::Num(t))) == Some(Json::Int(i32_text_value(t)->0)),
{
    assert(!is_json_ws(t[0]));
    assert(skip_ws(t, 0) == 0);
    assert(t.subrange(0, t.len() as int) =~= t);
    assert(parse_number(t, 0) == Some((Json::Int(i32_text_value(t)->0), t.len() as int)));
    assert(skip_ws(t, t.len() as int) == t.len());
}

/// Each of the eight one-letter escapes of a JSON string literal stands
/// for its character: `\"` `\\` `\/` `\b` `\f` `\n` `\r` `\t` give `"`,
/// backslash, `/`, backspace, form feed, line feed, carriage return and
/// tab, and the literal goes on after the two characters.
pub proof fn law_one_letter_escapes(c: Seq<char>, p: int)
    requires
        0 <= p,
        p + 1 < c.len(),
        c[p] == '\\',
    ensures
        c[p + 1] == '"' ==> parse_string_body(c, p) == prefix_text(seq!['"'], parse_string_body(c, p + 2)),
        c[p + 1] == '\\' ==> parse_string_body(c, p) == prefix_text(seq!['\\'], parse_string_body(c, p + 2)),
        c[p + 1] == '/' ==> parse_string_body(c, p) == prefix_text(seq!['/'], parse_string_body(c, p + 2)),
        c[p + 1] == 'b' ==> parse_string_body(c, p) == prefix_text(seq!['\x08'], parse_string_body(c, p + 2)),
        c[p + 1] == 'f' ==> parse_string_body(c, p) == prefix_text(seq!['\x0C'], parse_string_body(c, p + 2)),
        c[p + 1] == 'n' ==> parse_string_body(c, p) == prefix_text(seq!['\n'], parse_string_body(c, p + 2)),
        c[p + 1] == 'r' ==> parse_string_body(c, p) == prefix_text(seq!['\r'], parse_string_body(c, p + 2)),
        c[p + 1] == 't' ==> parse_string_body(c, p) == prefix_text(seq!['\t'], parse_string_body(c, p + 2)),
{
}

/// A string literal made of one one-letter escape parses to the text of
/// its character; for `"\/"` that is `/`.
pub proof fn law_escaped_literal(e: char)
    requires
        e == '"' || e == '\\' || e == '/' || e == 'b' || e == 'f' || e == 'n' || e == 'r' || e == 't',
    ensures
        json_parse_spec(seq!['"', '\\', e, '"']) == Some(Json::Str(seq![escape_char(e)->0])),
        e == '/' ==> escape_char(e) == Some('/'),
        e == '"' ==> escape_char(e) == Some('"'),
        e == '\\' ==> escape_char(e) == Some('\\'),
        e == 'b' ==> escape_char(e) == Some('\x08'),
        e == 'f' ==> escape_char(e) == Some('\x0C'),
        e == 'n' ==> escape_char(e) == Some('\n'),
        e == 'r' ==> escape_char(e) == Some('\r'),
        e == 't' ==> escape_char(e) == Some('\t'),
{
    let c = seq!['"', '\\', e, '"'];
    assert(skip_ws(c, 0) == 0);
    assert(parse_string_body(c, 3) == Some((Seq::<char>::empty(), 4int)));
    assert(parse_string_body(c, 1) == Some((seq![escape_char(e)->0], 4int))) by {
        assert(seq![escape_char(e)->0] + Seq::<char>::empty() =~= seq![escape_char(e)->0]);
    }
    assert(skip_ws(c, 4) == 4);
}

/// A `\u` escape with four hexadecimal digits stands for the character
/// with that code (any code that is no surrogate), and the literal goes
/// on after the six characters.
pub proof fn law_unicode_escape(c: Seq<char>, p: int, v: u32)
    requires
        0 <= p,
        p + 5 < c.len(),
        c[p] == '\\',
        c[p + 1] == 'u',
        v < 0xD800 || (0xE000 <= v && v <= 0xFFFF),
        c.subrange(p + 2, p + 6) == hex4_lower(v as int),
    ensures
        parse_string_body(c, p) == prefix_text(seq![v as char], parse_string_body(c, p + 6)),
{
    lemma_hex4_roundtrip(v);
    assert(char_of(v) == Some(v as char));
    assert(unicode_escape(c.subrange(p + 2, p + 6)) == seq![v as char]);
}

/// Hexadecimal digits read in either case: `a`-`f` and `A`-`F` are 10 to
/// 15, and `0`-`9` are 0 to 9.
pub proof fn law_hex_digits(ch: char)
    ensures
        '0' <= ch <= '9' ==> hex_digit(ch) == Some(ch as int - '0' as int),
        'a' <= ch <= 'f' ==> hex_digit(ch) == Some(ch as int - 'a' as int + 10),
        'A' <= ch <= 'F' ==> hex_digit(ch) == Some(ch as int - 'A' as int + 10),
        hex_digit(ch) is Some <==> ('0' <= ch <= '9' || 'a' <= ch <= 'f' || 'A' <= ch <= 'F'),
{
}

} // verus!
