//! Searches, code points, ranges, padding and repetition over UTF-16 code
//! units, the string model of `indexOf`, `startsWith`, `endsWith`,
//! `codePointAt`, `substring`, `substr`, `padStart`/`padEnd`, `repeat`
//! and the string iterator.
use vstd::prelude::*;
use crate::text::{occurs_at, find_from, lemma_find_from, push_range};

verus! {

/// `u` is a leading (high) surrogate.
pub open spec fn is_high_surrogate(u: u16) -> bool {
    0xD800 <= u <= 0xDBFF
}

/// `u` is a trailing (low) surrogate.
pub open spec fn is_low_surrogate(u: u16) -> bool {
    0xDC00 <= u <= 0xDFFF
}

/// The code point that starts at unit `idx` of `s`: a surrogate pair decodes
/// to its supplementary code point, any other unit stands for itself.
pub open spec fn code_point_at_spec(s: Seq<u16>, idx: int) -> Option<u32> {
    if idx < 0 || idx >= s.len() {
        None
    } else if is_high_surrogate(s[idx]) && idx + 1 < s.len() && is_low_surrogate(s[idx + 1]) {
        Some((0x10000 + (s[idx] - 0xD800) * 1024 + (s[idx + 1] - 0xDC00)) as u32)
    } else {
        Some(s[idx] as u32)
    }
}

/// The fill actually used for padding: a single space when none is given.
pub open spec fn effective_fill(fill: Seq<u16>) -> Seq<u16> {
    if fill.len() == 0 {
        seq![0x20u16]
    } else {
        fill
    }
}

/// `n` units of `fill` repeated, cut off after the `n`-th unit; a leading
/// surrogate left without its partner at the cut reads as U+FFFD.
pub open spec fn pad_spec(fill: Seq<u16>, n: nat) -> Seq<u16> {
    let f = effective_fill(fill);
    let p = Seq::new(n, |i: int| f[i % (f.len() as int)]);
    if n > 0 && is_high_surrogate(p[n - 1]) {
        p.update(n - 1, 0xFFFDu16)
    } else {
        p
    }
}

/// The result of padding `s` to `target` units with `fill`, at its end or at
/// its start; `s` itself when it is already that long.
pub open spec fn padded_spec(s: Seq<u16>, target: nat, fill: Seq<u16>, at_end: bool) -> Seq<u16> {
    if target <= s.len() {
        s
    } else if at_end {
        s + pad_spec(fill, (target - s.len()) as nat)
    } else {
        pad_spec(fill, (target - s.len()) as nat) + s
    }
}

fn units_match_at(s: &[u16], p: usize, t: &[u16]) -> (r: bool)
    requires
        p + t@.len() <= s@.len(),
    ensures
        r == occurs_at(s@, p as int, t@),
{
    let n = t.len();
    let sl = s.len();
    let mut j: usize = 0;
    while j < n
        invariant
            n == t@.len(),
            sl == s@.len(),
            p + n <= s@.len(),
            j <= n,
            forall|k: int| 0 <= k < j ==> s@[p + k] == t@[k],
        decreases n - j,
    {
        if s[p + j] != t[j] {
            assert(s@.subrange(p as int, p + n)[j as int] != t@[j as int]);
            return false;
        }
        j = j + 1;
    }
    assert(s@.subrange(p as int, p + n) =~= t@);
    true
}

/// `indexOf` over code units: the first position at or after `start` where
/// `search` occurs in `units` (an empty search is found at `start`).
pub fn index_of_units(units: &[u16], search: &[u16], start: usize) -> (r: Option<usize>)
    requires
        start <= units@.len(),
    ensures
        match r {
            Some(p) => p as int == find_from(units@, search@, start as int),
            None => find_from(units@, search@, start as int) == -1,
        },
{
    let n = units.len();
    let m = search.len();
    let mut p = start;
    while p <= n && m <= n - p
        invariant
            n == units@.len(),
            m == search@.len(),
            start <= p,
            find_from(units@, search@, start as int) == find_from(units@, search@, p as int),
        decreases n + 1 - p,
    {
        if units_match_at(units, p, search) {
            return Some(p);
        }
        p = p + 1;
    }
    None
}

/// `startsWith` over code units: `search` occurs at position `start`.
pub fn starts_with_units(units: &[u16], search: &[u16], start: usize) -> (r: bool)
    requires
        start <= units@.len(),
    ensures
        r == occurs_at(units@, start as int, search@),
{
    let n = units.len();
    if search.len() > n - start {
        return false;
    }
    units_match_at(units, start, search)
}

/// `endsWith` over code units: `search` ends exactly at position `end`.
pub fn ends_with_units(units: &[u16], search: &[u16], end: usize) -> (r: bool)
    requires
        end <= units@.len(),
    ensures
        r == (search@.len() <= end && occurs_at(units@, end - search@.len(), search@)),
{
    let m = search.len();
    if m > end {
        return false;
    }
    units_match_at(units, end - m, search)
}

/// `codePointAt` over code units: the code point starting at `idx`, or `None`
/// past the end.
pub fn code_point_at_units(units: &[u16], idx: usize) -> (r: Option<u32>)
    ensures
        r == code_point_at_spec(units@, idx as int),
{
    let n = units.len();
    if idx >= n {
        return None;
    }
    let cp = units[idx];
    if 0xD800 <= cp && cp <= 0xDBFF && idx + 1 < n {
        let low = units[idx + 1];
        if 0xDC00 <= low && low <= 0xDFFF {
            let code_point: u32 = 0x10000 + (cp as u32 - 0xD800) * 1024 + (low as u32 - 0xDC00);
            return Some(code_point);
        }
    }
    Some(cp as u32)
}

/// `padStart`/`padEnd` over code units: `units` padded with repetitions of
/// `fill` (a space when `fill` is empty) to `target_len` units.
pub fn pad_units(units: &[u16], target_len: usize, fill: &[u16], at_end: bool) -> (r: Vec<u16>)
    ensures
        r@ == padded_spec(units@, target_len as nat, fill@, at_end),
{
    let n = units.len();
    let mut out: Vec<u16> = Vec::new();
    if target_len <= n {
        push_range(&mut out, units, 0, n);
        assert(units@.subrange(0, n as int) =~= units@);
        return out;
    }
    let space: Vec<u16> = vec![0x20u16];
    let f: &[u16] = if fill.len() == 0 {
        space.as_slice()
    } else {
        fill
    };
    let ghost fe = effective_fill(fill@);
    assert(f@ == fe);
    let pad_len = target_len - n;
    let fl = f.len();
    let mut pad: Vec<u16> = Vec::new();
    let mut i: usize = 0;
    while i < pad_len
        invariant
            fl == f@.len(),
            fl >= 1,
            f@ == fe,
            i <= pad_len,
            pad@.len() == i,
            forall|k: int| 0 <= k < i ==> pad@[k] == fe[k % (fl as int)],
        decreases pad_len - i,
    {
        pad.push(f[i % fl]);
        i = i + 1;
    }
    let ghost raw = Seq::new(pad_len as nat, |k: int| fe[k % (fe.len() as int)]);
    assert(pad@ =~= raw);
    let last = pad[pad_len - 1];
    if 0xD800 <= last && last <= 0xDBFF {
        pad.set(pad_len - 1, 0xFFFD);
    }
    assert(pad@ =~= pad_spec(fill@, pad_len as nat));
    if at_end {
        push_range(&mut out, units, 0, n);
        push_range(&mut out, pad.as_slice(), 0, pad_len);
    } else {
        push_range(&mut out, pad.as_slice(), 0, pad_len);
        push_range(&mut out, units, 0, n);
    }
    assert(units@.subrange(0, n as int) =~= units@);
    assert(pad@.subrange(0, pad_len as int) =~= pad@);
    out
}

/// An empty search is found at its start position, and a non-empty search is
/// found at the first position where it occurs; `index_of_units` returns the
/// position only where the search text really occurs.
pub proof fn law_index_of_finds_occurrence(units: Seq<u16>, search: Seq<u16>, start: int)
    requires
        0 <= start <= units.len(),
    ensures
        search.len() == 0 ==> find_from(units, search, start) == start,
        find_from(units, search, start) != -1 ==> occurs_at(units, find_from(units, search, start), search),
        find_from(units, search, start) != -1 ==> start <= find_from(units, search, start) && forall|q: int|
            start <= q < find_from(units, search, start) ==> !occurs_at(units, q, search),
        find_from(units, search, start) == -1 ==> forall|q: int| start <= q ==> !occurs_at(units, q, search),
{
    lemma_find_from(units, search, start);
    if search.len() == 0 {
        assert(units.subrange(start, start) =~= search);
    }
}

/// A padded result has exactly the requested length (or the original one,
/// when that is longer), and keeps the original units at its start (padEnd)
/// or its end (padStart).
pub proof fn law_pad_shape(s: Seq<u16>, target: nat, fill: Seq<u16>, at_end: bool)
    ensures
        padded_spec(s, target, fill, at_end).len() == if target <= s.len() {
            s.len()
        } else {
            target
        },
        at_end ==> padded_spec(s, target, fill, at_end).take(s.len() as int) == s,
        !at_end ==> padded_spec(s, target, fill, at_end).skip(
            padded_spec(s, target, fill, at_end).len() - s.len(),
        ) == s,
{
    let r = padded_spec(s, target, fill, at_end);
    if target <= s.len() {
        assert(r.take(s.len() as int) =~= s);
        assert(r.skip(0) =~= s);
    } else if at_end {
        assert(r.take(s.len() as int) =~= s);
    } else {
        assert(r.skip(r.len() - s.len()) =~= s);
    }
}

/// The pad that `padStart` puts before the text, like the one `padEnd`
/// puts after it, is the fill repeated from its first unit and cut to
/// length: unit `i` of the pad is unit `i % len` of the fill (a space when
/// the fill is empty), except that a leading surrogate cut off from its
/// partner at the very end of the pad reads as U+FFFD.
pub proof fn law_pad_repeats_fill(s: Seq<u16>, target: nat, fill: Seq<u16>, at_end: bool, i: int)
    requires
        s.len() < target,
        0 <= i < target - s.len(),
    ensures
        fill.len() == 0 ==> padded_spec(s, target, fill, at_end)[if at_end { s.len() + i } else { i }] == 0x20u16,
        fill.len() > 0 && (i + 1 < target - s.len() || !(0xD800u16 <= fill[i % (fill.len() as int)]
            <= 0xDBFFu16)) ==> padded_spec(s, target, fill, at_end)[if at_end { s.len() + i } else { i }]
            == fill[i % (fill.len() as int)],
        fill.len() > 0 && i + 1 == target - s.len() && 0xD800u16 <= fill[i % (fill.len() as int)] <= 0xDBFFu16
            ==> padded_spec(s, target, fill, at_end)[if at_end { s.len() + i } else { i }] == 0xFFFDu16,
{
    let n = (target - s.len()) as nat;
    let p = pad_spec(fill, n);
    assert(p.len() == n);
    if fill.len() == 0 {
        assert(i % 1 == 0);
    }
}

/// `s` written `n` times over.
pub open spec fn repeat_spec(s: Seq<u16>, n: nat) -> Seq<u16>
    decreases n,
{
    if n == 0 {
        Seq::empty()
    } else {
        repeat_spec(s, (n - 1) as nat) + s
    }
}

/// Why `repeat` refuses a count (each a RangeError).
#[derive(Clone, Copy, Debug, PartialEq, Eq, Structural)]
pub enum RepeatError {
    /// The count is negative, infinite or NaN ("Invalid count value").
    InvalidCount,
    /// The result would be longer than 2^53 - 1 units ("Invalid string
    /// length").
    TooLong,
}

/// The message of the error this refusal throws.
pub open spec fn repeat_error_message(e: RepeatError) -> Seq<char> {
    match e {
        RepeatError::InvalidCount => "RangeError: Invalid count value"@,
        RepeatError::TooLong => "RangeError: Invalid string length"@,
    }
}

impl RepeatError {
    /// The message of the error this refusal throws.
    pub fn message(&self) -> (r: &'static str)
        ensures
            r@ == repeat_error_message(*self),
    {
        match self {
            RepeatError::InvalidCount => "RangeError: Invalid count value",
            RepeatError::TooLong => "RangeError: Invalid string length",
        }
    }
}

/// `repeat` of `s` with the integer count `count` (`None` when the count
/// is negative, infinite or NaN): an empty string or a zero count give the
/// empty string, a result past 2^53 - 1 units is refused.
pub open spec fn repeat_result(s: Seq<u16>, count: Option<u64>) -> Result<Seq<u16>, RepeatError> {
    match count {
        None => Err(RepeatError::InvalidCount),
        Some(n) => if s.len() == 0 || n == 0 {
            Ok(Seq::empty())
        } else if s.len() * n > 9007199254740991 {
            Err(RepeatError::TooLong)
        } else {
            Ok(repeat_spec(s, n as nat))
        },
    }
}

proof fn lemma_repeat_len(s: Seq<u16>, n: nat)
    ensures
        repeat_spec(s, n).len() == s.len() * n,
    decreases n,
{
    if n > 0 {
        lemma_repeat_len(s, (n - 1) as nat);
        assert(s.len() * n == s.len() * (n - 1) + s.len()) by (nonlinear_arith);
    } else {
        assert(s.len() * n == 0) by (nonlinear_arith)
            requires
                n == 0,
        ;
    }
}

/// `String.prototype.repeat` on code units.
pub fn repeat_units(units: &[u16], count: Option<u64>) -> (r: Result<Vec<u16>, RepeatError>)
    ensures
        match (r, repeat_result(units@, count)) {
            (Ok(v), Ok(t)) => v@ == t,
            (Err(e), Err(f)) => e == f,
            _ => false,
        },
{
    let n = match count {
        None => {
            return Err(RepeatError::InvalidCount);
        },
        Some(n) => n,
    };
    if units.len() == 0 || n == 0 {
        return Ok(Vec::new());
    }
    let len = units.len() as u64;
    match len.checked_mul(n) {
        None => {
            return Err(RepeatError::TooLong);
        },
        Some(total) => {
            if total > 9007199254740991 {
                return Err(RepeatError::TooLong);
            }
        },
    }
    let mut out: Vec<u16> = Vec::new();
    let mut k: u64 = 0;
    while k < n
        invariant
            k <= n,
            out@ == repeat_spec(units@, k as nat),
        decreases n - k,
    {
        let ghost before = out@;
        push_range(&mut out, units, 0, units.len());
        assert(units@.subrange(0, units@.len() as int) =~= units@);
        k = k + 1;
        assert(out@ == repeat_spec(units@, k as nat));
    }
    Ok(out)
}

/// A repeated string is the count times as long.
pub proof fn law_repeat_length(s: Seq<u16>, n: nat)
    ensures
        repeat_spec(s, n).len() == s.len() * n,
{
    lemma_repeat_len(s, n);
}

/// A repeated string is its text over and over: unit `r` of copy `q` is
/// unit `r` of the text.
pub proof fn law_repeat_units(s: Seq<u16>, n: nat, q: int, r: int)
    requires
        0 <= q < n,
        0 <= r < s.len(),
    ensures
        q * s.len() + r < repeat_spec(s, n).len(),
        repeat_spec(s, n)[q * s.len() + r] == s[r],
    decreases n,
{
    let l = s.len() as int;
    lemma_repeat_len(s, n);
    lemma_repeat_len(s, (n - 1) as nat);
    assert(q * l + r < l * n) by (nonlinear_arith)
        requires
            0 <= q < n,
            0 <= r < l,
    ;
    if q == n - 1 {
        assert(q * l == l * (n - 1)) by (nonlinear_arith)
            requires
                q == n - 1,
        ;
    } else {
        law_repeat_units(s, (n - 1) as nat, q, r);
        assert(q * l + r < l * (n - 1)) by (nonlinear_arith)
            requires
                0 <= q < n - 1,
                0 <= r < l,
        ;
    }
}

/// `n` clamped to `[0, len]`.
pub open spec fn clamp_to_len(n: int, len: int) -> int {
    if n < 0 {
        0
    } else if n > len {
        len
    } else {
        n
    }
}

/// The unit range `substring(start, end)` takes from a length-`len`
/// string: both ends clamped to `[0, len]` (the end defaulting to `len`),
/// and swapped when the start comes after the end.
pub open spec fn substring_range_spec(len: int, start: int, end: Option<int>) -> (int, int) {
    let s = clamp_to_len(start, len);
    let e = match end {
        Some(e) => clamp_to_len(e, len),
        None => len,
    };
    if s <= e {
        (s, e)
    } else {
        (e, s)
    }
}

/// The unit range `substr(start, length)` takes from a length-`len`
/// string: a negative start counts from the end (clamped at 0), a start
/// past the end is the end; the length (all the rest when absent) is
/// clamped at 0 and cut at the end of the string.
pub open spec fn substr_range_spec(len: int, start: int, length: Option<int>) -> (int, int) {
    let s = if start < 0 {
        if len + start < 0 {
            0
        } else {
            len + start
        }
    } else if start > len {
        len
    } else {
        start
    };
    let e = match length {
        Some(l) => {
            let c = if l < 0 {
                0
            } else {
                l
            };
            if s + c > len {
                len
            } else {
                s + c
            }
        },
        None => len,
    };
    (s, e)
}

/// The unit range of `substring`, from integer arguments.
pub fn substring_range(len: u64, start: i64, end: Option<i64>) -> (r: (u64, u64))
    requires
        len <= 9007199254740991,
    ensures
        r.0 as int == substring_range_spec(len as int, start as int, match end {
            Some(e) => Some(e as int),
            None => None,
        }).0,
        r.1 as int == substring_range_spec(len as int, start as int, match end {
            Some(e) => Some(e as int),
            None => None,
        }).1,
{
    let l = len as i64;
    let s: i64 = if start < 0 {
        0
    } else if start > l {
        l
    } else {
        start
    };
    let e: i64 = match end {
        Some(e) => if e < 0 {
            0
        } else if e > l {
            l
        } else {
            e
        },
        None => l,
    };
    if s <= e {
        (s as u64, e as u64)
    } else {
        (e as u64, s as u64)
    }
}

/// The unit range of `substr`, from integer arguments.
pub fn substr_range(len: u64, start: i64, length: Option<i64>) -> (r: (u64, u64))
    requires
        len <= 9007199254740991,
    ensures
        r.0 as int == substr_range_spec(len as int, start as int, match length {
            Some(l) => Some(l as int),
            None => None,
        }).0,
        r.1 as int == substr_range_spec(len as int, start as int, match length {
            Some(l) => Some(l as int),
            None => None,
        }).1,
{
    let l = len as i64;
    let s: i64 = if start < 0 {
        if l + start < 0 {
            0
        } else {
            l + start
        }
    } else if start > l {
        l
    } else {
        start
    };
    let e: i64 = match length {
        Some(c) => {
            let c = if c < 0 {
                0
            } else {
                c
            };
            if c > l - s {
                l
            } else {
                s + c
            }
        },
        None => l,
    };
    (s as u64, e as u64)
}

/// `substring` takes its two ends in either order, an absent end is the
/// length, and ends already inside the string are taken as they are.
pub proof fn law_substring_ends(len: int, a: int, b: int)
    requires
        len >= 0,
    ensures
        substring_range_spec(len, a, Some(b)) == substring_range_spec(len, b, Some(a)),
        substring_range_spec(len, a, None) == substring_range_spec(len, a, Some(len)),
        0 <= a <= b <= len ==> substring_range_spec(len, a, Some(b)) == (a, b),
{
}

/// `substr` starts at its start when that lies in the string, or that far
/// from the end when it is negative, and takes `length` units when they
/// fit.
pub proof fn law_substr_start_length(len: int, start: int, length: int)
    requires
        len >= 0,
    ensures
        0 <= start <= len ==> substr_range_spec(len, start, None) == (start, len),
        -len <= start < 0 ==> substr_range_spec(len, start, None) == (len + start, len),
        0 <= start && 0 <= length && start + length <= len ==> substr_range_spec(len, start, Some(length)) == (
        start, start + length),
        0 <= start <= len && length <= 0 ==> substr_range_spec(len, start, Some(length)) == (start, start),
{
}

/// Both ranges lie inside the string and run forwards.
pub proof fn law_ranges_inside(len: int, start: int, end: Option<int>)
    requires
        len >= 0,
    ensures
        0 <= substring_range_spec(len, start, end).0 <= substring_range_spec(len, start, end).1 <= len,
        0 <= substr_range_spec(len, start, end).0 <= substr_range_spec(len, start, end).1 <= len,
{
}

/// How many UTF-16 units the character `c` takes: 2 above U+FFFF, else 1.
pub open spec fn utf16_width(c: char) -> int {
    if (c as u32) > 0xFFFF {
        2
    } else {
        1
    }
}

/// The UTF-16 position of the `k`-th character of `s`.
pub open spec fn utf16_pos(s: Seq<char>, k: int) -> int
    decreases k,
{
    if k <= 0 {
        0
    } else {
        utf16_pos(s, k - 1) + utf16_width(s[k - 1])
    }
}

/// One step of a string iterator at UTF-16 position `index`: the
/// character that starts there and the position after it, or `None`
/// (the iterator is done) when no character starts there.
pub open spec fn iter_step_spec(s: Seq<char>, index: int) -> Option<(char, int)> {
    if exists|k: int| 0 <= k < s.len() && utf16_pos(s, k) == index {
        let k = choose|k: int| 0 <= k < s.len() && utf16_pos(s, k) == index;
        Some((s[k], index + utf16_width(s[k])))
    } else {
        None
    }
}

proof fn lemma_utf16_pos_mono(s: Seq<char>, j: int, k: int)
    requires
        0 <= j < k,
    ensures
        utf16_pos(s, j) < utf16_pos(s, k),
        k <= utf16_pos(s, k) <= 2 * k,
    decreases k,
{
    if j < k - 1 {
        lemma_utf16_pos_mono(s, j, k - 1);
    } else {
        lemma_utf16_pos_bounds(s, j);
    }
}

proof fn lemma_utf16_pos_bounds(s: Seq<char>, k: int)
    requires
        0 <= k,
    ensures
        k <= utf16_pos(s, k) <= 2 * k,
    decreases k,
{
    if k > 0 {
        lemma_utf16_pos_bounds(s, k - 1);
    }
}

/// Stepping a string iterator from the position of any character yields
/// that character and the position of the next one: iterating from 0
/// yields the characters of the string in order.
pub proof fn law_iter_step_visits_in_order(s: Seq<char>, k: int)
    requires
        0 <= k < s.len(),
    ensures
        iter_step_spec(s, utf16_pos(s, k)) == Some((s[k], utf16_pos(s, k + 1))),
{
    let index = utf16_pos(s, k);
    assert(exists|j: int| 0 <= j < s.len() && utf16_pos(s, j) == index);
    let j = choose|j: int| 0 <= j < s.len() && utf16_pos(s, j) == index;
    if j < k {
        lemma_utf16_pos_mono(s, j, k);
    } else if k < j {
        lemma_utf16_pos_mono(s, k, j);
    }
}

/// `String.prototype[Symbol.iterator]().next()` at UTF-16 position
/// `index` of the string `s`.
pub fn string_iter_step(s: &[char], index: usize) -> (r: Option<(char, usize)>)
    requires
        2 * s@.len() <= usize::MAX,
    ensures
        match (r, iter_step_spec(s@, index as int)) {
            (None, None) => true,
            (Some((c, next)), Some((d, n))) => c == d && next == n,
            _ => false,
        },
{
    let mut pos: usize = 0;
    let mut k: usize = 0;
    while k < s.len()
        invariant
            k <= s@.len(),
            2 * s@.len() <= usize::MAX,
            pos == utf16_pos(s@, k as int),
            forall|j: int| 0 <= j < k ==> utf16_pos(s@, j) != index,
        decreases s.len() - k,
    {
        proof {
            lemma_utf16_pos_bounds(s@, k as int);
        }
        let ch = s[k];
        let width: usize = if (ch as u32) > 0xFFFF {
            2
        } else {
            1
        };
        if pos == index {
            proof {
                let j = choose|j: int| 0 <= j < s@.len() && utf16_pos(s@, j) == index;
                if j != k {
                    if j < k {
                        assert(utf16_pos(s@, j) != index);
                    } else {
                        lemma_utf16_pos_mono(s@, k as int, j);
                    }
                }
            }
            return Some((ch, index + width));
        }
        pos = pos + width;
        k = k + 1;
    }
    proof {
        assert forall|j: int| 0 <= j < s@.len() implies utf16_pos(s@, j) != index by {}
    }
    None
}

} // verus!
