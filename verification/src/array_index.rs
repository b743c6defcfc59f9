//! Array-index keys: which property names denote array indices in a range,
//! and relative index clamping.
use vstd::prelude::*;
use vstd::string::*;

verus! {

/// `c` is an ASCII decimal digit.
pub open spec fn is_digit_char(c: char) -> bool {
    '0' <= c <= '9'
}

/// The value of the decimal digit `c`.
pub open spec fn digit_value(c: char) -> int {
    c as int - '0' as int
}

/// Every character of `s` is a decimal digit.
pub open spec fn all_digits(s: Seq<char>) -> bool {
    forall|i: int| 0 <= i < s.len() ==> is_digit_char(#[trigger] s[i])
}

/// The number the decimal digits `s` spell.
pub open spec fn decimal_value(s: Seq<char>) -> int
    decreases s.len(),
{
    if s.len() == 0 {
        0
    } else {
        decimal_value(s.drop_last()) * 10 + digit_value(s.last())
    }
}

/// `s` is the canonical decimal spelling of a number: non-empty, digits only,
/// no leading zero unless it is exactly `"0"`.
pub open spec fn canonical_decimal(s: Seq<char>) -> bool {
    s.len() > 0 && all_digits(s) && !(s.len() > 1 && s[0] == '0')
}

/// The index a property name denotes when it is the canonical spelling of a
/// number that fits in 64 bits and lies in `[lo, hi)`.
pub open spec fn sparse_key_spec(name: Seq<char>, lo: u64, hi: u64) -> Option<u64> {
    if canonical_decimal(name) && decimal_value(name) <= u64::MAX && lo <= decimal_value(name)
        < hi {
        Some(decimal_value(name) as u64)
    } else {
        None
    }
}

/// `n` taken relative to `len` (counted from the end when negative) and
/// clamped to `[0, len]`.
pub open spec fn relative_index_spec(n: int, len: int) -> int {
    let k = if n < 0 {
        len + n
    } else {
        n
    };
    if k < 0 {
        0
    } else if k > len {
        len
    } else {
        k
    }
}

pub proof fn lemma_decimal_nonneg(s: Seq<char>)
    requires
        all_digits(s),
    ensures
        decimal_value(s) >= 0,
    decreases s.len(),
{
    if s.len() > 0 {
        lemma_decimal_nonneg(s.drop_last());
    }
}

pub proof fn lemma_decimal_prefix_le(s: Seq<char>, j: int)
    requires
        all_digits(s),
        0 <= j <= s.len(),
    ensures
        decimal_value(s.take(j)) <= decimal_value(s),
    decreases s.len(),
{
    if j < s.len() {
        lemma_decimal_prefix_le(s.drop_last(), j);
        assert(s.drop_last().take(j) =~= s.take(j));
        lemma_decimal_nonneg(s.drop_last());
    } else {
        assert(s.take(j) =~= s);
    }
}

/// Property names that are canonical decimal numbers in `[lo, hi)` denote
/// their numeric value; every other name denotes no index.
pub fn sparse_key_in_range(name: &str, lo: u64, hi: u64) -> (r: Option<u64>)
    ensures
        r == sparse_key_spec(name@, lo, hi),
{
    let n = name.unicode_len();
    if n == 0 {
        return None;
    }
    if n > 1 && name.get_char(0) == '0' {
        return None;
    }
    let mut value: u64 = 0;
    let mut i: usize = 0;
    while i < n
        invariant
            n == name@.len(),
            n > 0,
            !(n > 1 && name@[0] == '0'),
            i <= n,
            all_digits(name@.take(i as int)),
            value as int == decimal_value(name@.take(i as int)),
        decreases n - i,
    {
        let c = name.get_char(i);
        proof {
            assert(name@.take(i + 1).drop_last() =~= name@.take(i as int));
        }
        if !('0' <= c && c <= '9') {
            assert(!all_digits(name@));
            return None;
        }
        let d = (c as u32 - '0' as u32) as u64;
        match value.checked_mul(10) {
            Some(v10) => match v10.checked_add(d) {
                Some(v) => {
                    value = v;
                },
                None => {
                    proof {
                        lemma_overflow_rejects(name@, i as int + 1);
                    }
                    return None;
                },
            },
            None => {
                proof {
                    lemma_decimal_nonneg(name@.take(i as int));
                    assert(decimal_value(name@.take(i + 1)) > u64::MAX);
                    lemma_overflow_rejects(name@, i as int + 1);
                }
                return None;
            },
        }
        i = i + 1;
    }
    assert(name@.take(n as int) =~= name@);
    if lo <= value && value < hi {
        Some(value)
    } else {
        None
    }
}

proof fn lemma_overflow_rejects(s: Seq<char>, j: int)
    requires
        0 <= j <= s.len(),
        all_digits(s.take(j)),
        decimal_value(s.take(j)) > u64::MAX,
    ensures
        !(all_digits(s) && decimal_value(s) <= u64::MAX),
{
    if all_digits(s) {
        lemma_decimal_prefix_le(s, j);
    }
}

/// An index argument taken relative to `len`: negative values count back from
/// `len`; the result is clamped to `[0, len]`.
pub fn relative_index(n: i64, len: i64) -> (r: i64)
    requires
        len >= 0,
    ensures
        r as int == relative_index_spec(n as int, len as int),
{
    if n < 0 {
        let k = len + n;
        if k < 0 {
            0
        } else {
            k
        }
    } else if n > len {
        len
    } else {
        n
    }
}

/// A clamped relative index always lies in `[0, len]`, and a non-negative
/// index within the length is kept as it is.
pub proof fn law_relative_index_in_range(n: int, len: int)
    requires
        len >= 0,
    ensures
        0 <= relative_index_spec(n, len) <= len,
        0 <= n <= len ==> relative_index_spec(n, len) == n,
        -len <= n < 0 ==> relative_index_spec(n, len) == len + n,
{
}

/// Where `indexOf`/`includes` (forward) or `lastIndexOf` (backward) start
/// searching a length-`len` array, from the integer `from` (`None` when the
/// argument is absent, or undefined for a backward search): `None` when the
/// range to search is empty. Forward, a negative start counts from the end
/// (clamped at 0); backward, a start past the end is clamped to the last
/// index and a negative one counts from the end.
pub open spec fn search_start_spec(len: int, from: Option<int>, backward: bool) -> Option<int> {
    if backward {
        if len == 0 {
            None
        } else {
            match from {
                None => Some(len - 1),
                Some(n) => if n >= 0 {
                    Some(if n < len - 1 { n } else { len - 1 })
                } else if len + n < 0 {
                    None
                } else {
                    Some(len + n)
                },
            }
        }
    } else {
        let n = match from {
            None => 0,
            Some(n) => n,
        };
        if n >= len {
            None
        } else if n < 0 {
            Some(if len + n < 0 { 0 } else { len + n })
        } else {
            Some(n)
        }
    }
}

/// The first index a search visits, as `search_start_spec` says.
pub fn search_start(len: u64, from: Option<i64>, backward: bool) -> (r: Option<u64>)
    requires
        len <= 9007199254740991,
    ensures
        match (
            r,
            search_start_spec(
                len as int,
                match from {
                    Some(n) => Some(n as int),
                    None => None,
                },
                backward,
            ),
        ) {
            (None, None) => true,
            (Some(k), Some(j)) => k == j,
            _ => false,
        },
{
    let l = len as i64;
    if backward {
        if len == 0 {
            return None;
        }
        match from {
            None => Some(len - 1),
            Some(n) => {
                if n >= 0 {
                    if n < l - 1 {
                        Some(n as u64)
                    } else {
                        Some(len - 1)
                    }
                } else if l + n < 0 {
                    None
                } else {
                    Some((l + n) as u64)
                }
            },
        }
    } else {
        let n: i64 = match from {
            None => 0,
            Some(n) => n,
        };
        if n >= l {
            None
        } else if n < 0 {
            if l + n < 0 {
                Some(0)
            } else {
                Some((l + n) as u64)
            }
        } else {
            Some(n as u64)
        }
    }
}

/// A search of a non-empty array starts inside it.
pub proof fn law_search_start_in_range(len: int, from: Option<int>, backward: bool)
    requires
        len > 0,
    ensures
        search_start_spec(len, from, backward) matches Some(k) ==> 0 <= k < len,
{
}

} // verus!
