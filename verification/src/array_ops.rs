//! The element moves of `Array.prototype.splice`, `slice`, `copyWithin`,
//! `reverse`, `shift`, `unshift` and `with`, on an array modelled as its
//! index properties: `Some(v)` for an element, `None` for a hole.
use vstd::prelude::*;
use crate::array_index::{relative_index, relative_index_spec};
use crate::text::push_range;

verus! {

/// The largest integer a Number holds exactly, the bound on array-like
/// lengths.
pub const MAX_SAFE_INTEGER: u64 = 9007199254740991;

/// The largest length of an array.
pub const MAX_ARRAY_LENGTH: u64 = 4294967295;

/// What a splice will do: where it starts, how many elements it removes,
/// how many it inserts, and the length it leaves.
#[derive(Clone, Copy, Debug, PartialEq, Eq, Structural)]
pub struct SplicePlan {
    pub start: u64,
    pub delete: u64,
    pub items: u64,
    pub new_len: u64,
}

/// Why a splice is refused before it changes anything.
#[derive(Clone, Copy, Debug, PartialEq, Eq, Structural)]
pub enum SpliceError {
    /// The new length would pass `MAX_SAFE_INTEGER` (a TypeError).
    TooLong,
    /// The array of removed elements would be longer than an array can be
    /// (a RangeError).
    InvalidLength,
}

/// The message of the error this refusal throws.
pub open spec fn splice_error_message(e: SpliceError) -> Seq<char> {
    match e {
        SpliceError::TooLong => "Splice exceeds the maximum array length"@,
        SpliceError::InvalidLength => "Invalid array length"@,
    }
}

impl SpliceError {
    /// The message of the error this refusal throws.
    pub fn message(&self) -> (r: &'static str)
        ensures
            r@ == splice_error_message(*self),
    {
        match self {
            SpliceError::TooLong => "Splice exceeds the maximum array length",
            SpliceError::InvalidLength => "Invalid array length",
        }
    }
}

/// `n` clamped to `[lo, hi]`.
pub open spec fn clamp_spec(n: int, lo: int, hi: int) -> int {
    if n < lo {
        lo
    } else if n > hi {
        hi
    } else {
        n
    }
}

/// The plan of `splice` on a length-`len` array called with `arg_count`
/// arguments, whose start and delete count are `start` and `delete_count`
/// as integers: the start is taken relative to the length; with no
/// arguments nothing is removed, with one everything from the start, else
/// the count clamped to what follows the start; every argument after the
/// second is an item to insert.
pub open spec fn splice_plan_spec(len: int, arg_count: int, start: int, delete_count: int) -> Result<SplicePlan, SpliceError> {
    let s = relative_index_spec(start, len);
    let del = if arg_count == 0 {
        0
    } else if arg_count == 1 {
        len - s
    } else {
        clamp_spec(delete_count, 0, len - s)
    };
    let items = if arg_count >= 2 {
        arg_count - 2
    } else {
        0
    };
    let new_len = len + items - del;
    if new_len > MAX_SAFE_INTEGER {
        Err(SpliceError::TooLong)
    } else if del > MAX_ARRAY_LENGTH {
        Err(SpliceError::InvalidLength)
    } else {
        Ok(SplicePlan { start: s as u64, delete: del as u64, items: items as u64, new_len: new_len as u64 })
    }
}

/// The elements of `s` with `delete` of them from `start` on replaced by
/// `items`.
pub open spec fn splice_spec<T>(s: Seq<Option<T>>, start: int, delete: int, items: Seq<T>) -> Seq<Option<T>> {
    s.subrange(0, start) + items.map_values(|x: T| Some(x)) + s.subrange(start + delete, s.len() as int)
}

/// The elements of `s` after copying the `count` elements from `from` on to
/// `to` on (holes included), as if through a snapshot.
pub open spec fn copy_within_spec<T>(s: Seq<Option<T>>, to: int, from: int, count: int) -> Seq<Option<T>> {
    Seq::new(s.len(), |t: int| if to <= t < to + count { s[from + t - to] } else { s[t] })
}

/// How many elements `copyWithin` copies: from `from` up to `end`, but not
/// past the end of the array from `to`.
pub open spec fn copy_count_spec(len: int, to: int, from: int, end: int) -> int {
    clamp_spec(end - from, 0, len - to)
}

/// A planned splice stays inside the array, and its new length is what
/// is left plus what is inserted.
pub proof fn law_splice_plan_fits(len: int, arg_count: int, start: int, delete_count: int)
    requires
        0 <= len <= MAX_SAFE_INTEGER,
        0 <= arg_count,
    ensures
        splice_plan_spec(len, arg_count, start, delete_count) matches Ok(p) ==> {
            &&& p.start + p.delete <= len
            &&& p.new_len == len - p.delete + p.items
            &&& p.items == (if arg_count >= 2 { arg_count - 2 } else { 0 })
        },
{
}

/// Splicing the removed elements back in (when none was a hole) in place
/// of the inserted ones restores the array.
pub proof fn law_splice_undo<T>(s: Seq<Option<T>>, start: int, delete: int, items: Seq<T>, removed: Seq<T>)
    requires
        0 <= start,
        0 <= delete,
        start + delete <= s.len(),
        removed.len() == delete,
        forall|k: int| 0 <= k < delete ==> s[start + k] == Some(#[trigger] removed[k]),
    ensures
        splice_spec(splice_spec(s, start, delete, items), start, items.len() as int, removed) == s,
{
    let once = splice_spec(s, start, delete, items);
    let twice = splice_spec(once, start, items.len() as int, removed);
    assert(once.len() == s.len() - delete + items.len());
    assert forall|p: int| 0 <= p < s.len() implies twice[p] == s[p] by {
        if p < start {
            assert(twice[p] == once[p]);
        } else if p < start + delete {
            assert(twice[p] == Some(removed[p - start]));
        } else {
            assert(twice[p] == once[p - delete + items.len()]);
        }
    }
    assert(twice =~= s);
}

/// The plan of `splice` (before anything moves).
pub fn splice_plan(len: u64, arg_count: usize, start: i64, delete_count: i64) -> (r: Result<SplicePlan, SpliceError>)
    requires
        len <= MAX_SAFE_INTEGER,
    ensures
        r == splice_plan_spec(len as int, arg_count as int, start as int, delete_count as int),
{
    let s = relative_index(start, len as i64) as u64;
    let rest = len - s;
    let del: u64 = if arg_count == 0 {
        0
    } else if arg_count == 1 {
        rest
    } else if delete_count < 0 {
        0
    } else if delete_count as u64 > rest {
        rest
    } else {
        delete_count as u64
    };
    let items: u64 = if arg_count >= 2 {
        (arg_count - 2) as u64
    } else {
        0
    };
    let keep = len - del;
    if items > MAX_SAFE_INTEGER - keep {
        return Err(SpliceError::TooLong);
    }
    if del > MAX_ARRAY_LENGTH {
        return Err(SpliceError::InvalidLength);
    }
    Ok(SplicePlan { start: s, delete: del, items, new_len: keep + items })
}

/// Splice the elements: remove `delete` elements from `start` on, moving
/// the rest left or right one by one (holes stay holes) to make room for
/// `items`, which are then written in. Returns the removed elements.
pub fn splice_elements<T: Copy>(elems: &mut Vec<Option<T>>, start: usize, delete: usize, items: &[T]) -> (deleted: Vec<Option<T>>)
    requires
        start <= old(elems).len(),
        delete <= old(elems).len() - start,
        old(elems).len() - delete + items.len() <= usize::MAX,
    ensures
        deleted@ == old(elems)@.subrange(start as int, start + delete),
        final(elems)@ == splice_spec(old(elems)@, start as int, delete as int, items@),
{
    let ghost s0 = elems@;
    let len = elems.len();
    let item_count = items.len();
    let mut deleted: Vec<Option<T>> = Vec::new();
    let mut t = start;
    while t < start + delete
        invariant
            elems@ == s0,
            len == s0.len(),
            start <= t <= start + delete <= len,
            deleted@ == s0.subrange(start as int, t as int),
        decreases start + delete - t,
    {
        deleted.push(elems[t]);
        t = t + 1;
        assert(deleted@ =~= s0.subrange(start as int, t as int));
    }
    let new_len = len - delete + item_count;
    let hi = len - delete;
    if item_count < delete {
        // Move the tail left, in increasing order.
        let mut k = start;
        while k < hi
            invariant
                start <= k <= hi,
                hi == len - delete,
                item_count < delete,
                elems.len() == len,
                len == s0.len(),
                forall|p: int| 0 <= p < start + item_count ==> #[trigger] elems@[p] == s0[p],
                forall|p: int| start + item_count <= p < k + item_count ==> #[trigger] elems@[p] == s0[p - item_count + delete],
                forall|p: int| k + item_count <= p < len ==> #[trigger] elems@[p] == s0[p],
            decreases hi - k,
        {
            let v = elems[k + delete];
            elems.set(k + item_count, v);
            k = k + 1;
        }
        elems.truncate(new_len);
    } else if item_count > delete {
        // Grow with holes, then move the tail right, in decreasing order.
        while elems.len() < new_len
            invariant
                len <= elems.len() <= new_len,
                len == s0.len(),
                forall|p: int| 0 <= p < len ==> #[trigger] elems@[p] == s0[p],
            decreases new_len - elems.len(),
        {
            elems.push(None);
        }
        let mut k = hi;
        while k > start
            invariant
                start <= k <= hi,
                hi == len - delete,
                item_count > delete,
                new_len == len - delete + item_count,
                elems.len() == new_len,
                len == s0.len(),
                forall|p: int| 0 <= p < k + item_count && p < len ==> #[trigger] elems@[p] == s0[p],
                forall|p: int| k + item_count <= p < new_len ==> #[trigger] elems@[p] == s0[p - item_count + delete],
            decreases k - start,
        {
            k = k - 1;
            let v = elems[k + delete];
            elems.set(k + item_count, v);
        }
    }
    let mut i: usize = 0;
    while i < item_count
        invariant
            i <= item_count,
            start + delete <= len,
            item_count == items@.len(),
            new_len == len - delete + item_count,
            elems.len() == new_len,
            len == s0.len(),
            forall|p: int| 0 <= p < start ==> #[trigger] elems@[p] == s0[p],
            forall|p: int| start <= p < start + i ==> #[trigger] elems@[p] == Some(items@[p - start]),
            forall|p: int| start + item_count <= p < new_len ==> #[trigger] elems@[p] == s0[p - item_count + delete],
        decreases item_count - i,
    {
        elems.set(start + i, Some(items[i]));
        i = i + 1;
    }
    assert(elems@ =~= splice_spec(s0, start as int, delete as int, items@));
    deleted
}

/// `Array.prototype.shift` on the elements: nothing for an empty array;
/// otherwise the first element (`None` for a hole) is removed and the rest
/// move down by one.
pub fn shift_elements<T: Copy>(elems: &mut Vec<Option<T>>) -> (r: Option<Option<T>>)
    ensures
        old(elems)@.len() == 0 ==> r is None && final(elems)@ == old(elems)@,
        old(elems)@.len() > 0 ==> r == Some(old(elems)@[0]) && final(elems)@ == old(elems)@.skip(1),
{
    if elems.len() == 0 {
        return None;
    }
    let ghost s0 = elems@;
    let empty: [T; 0] = [];
    let removed = splice_elements(elems, 0, 1, &empty);
    proof {
        assert(empty@.map_values(|x: T| Some(x)) =~= Seq::<Option<T>>::empty());
        assert(elems@ =~= s0.skip(1));
    }
    Some(removed[0])
}

/// Why `unshift` is refused (a TypeError, "Unshifting elements exceeds the
/// maximum array length").
#[derive(Clone, Copy, Debug, PartialEq, Eq, Structural)]
pub enum UnshiftError {
    TooLong,
}

/// The message of the error this refusal throws.
pub open spec fn unshift_error_message(e: UnshiftError) -> Seq<char> {
    match e {
        UnshiftError::TooLong => "Unshifting elements exceeds the maximum array length"@,
    }
}

impl UnshiftError {
    /// The message of the error this refusal throws.
    pub fn message(&self) -> (r: &'static str)
        ensures
            r@ == unshift_error_message(*self),
    {
        match self {
            UnshiftError::TooLong => "Unshifting elements exceeds the maximum array length",
        }
    }
}

/// `Array.prototype.unshift` on the elements: `items` go in front, unless
/// there are some and the new length would pass `MAX_SAFE_INTEGER`.
pub fn unshift_elements<T: Copy>(elems: &mut Vec<Option<T>>, items: &[T]) -> (r: Result<(), UnshiftError>)
    requires
        old(elems)@.len() + items@.len() <= usize::MAX,
    ensures
        (r is Err) == (items@.len() > 0 && old(elems)@.len() + items@.len() > MAX_SAFE_INTEGER),
        r is Ok ==> final(elems)@ == items@.map_values(|x: T| Some(x)) + old(elems)@,
        r is Err ==> final(elems)@ == old(elems)@,
{
    let len = elems.len();
    if items.len() > 0 && (len as u64) + (items.len() as u64) > MAX_SAFE_INTEGER {
        return Err(UnshiftError::TooLong);
    }
    let ghost s0 = elems@;
    let _ = splice_elements(elems, 0, 0, items);
    proof {
        assert(elems@ =~= items@.map_values(|x: T| Some(x)) + s0);
    }
    Ok(())
}

/// Why `with` is refused (a RangeError, "Invalid array index").
#[derive(Clone, Copy, Debug, PartialEq, Eq, Structural)]
pub enum WithError {
    InvalidIndex,
}

/// The message of the error this refusal throws.
pub open spec fn with_error_message(e: WithError) -> Seq<char> {
    match e {
        WithError::InvalidIndex => "Invalid array index"@,
    }
}

impl WithError {
    /// The message of the error this refusal throws.
    pub fn message(&self) -> (r: &'static str)
        ensures
            r@ == with_error_message(*self),
    {
        match self {
            WithError::InvalidIndex => "Invalid array index",
        }
    }
}

/// `Array.prototype.with`: a copy of the elements with the one at the
/// relative index `index` (negative counts from the end) replaced; an index
/// outside the array is refused.
pub fn with_element<T: Copy>(elems: &[T], index: i64, value: T) -> (r: Result<Vec<T>, WithError>)
    requires
        elems@.len() <= MAX_SAFE_INTEGER,
    ensures
        ({
            let k = if index < 0 { elems@.len() + index } else { index as int };
            &&& (r is Err) == (k < 0 || k >= elems@.len())
            &&& r matches Ok(v) ==> v@ == elems@.update(k, value)
        }),
{
    let len = elems.len() as i64;
    let k = if index < 0 { len + index } else { index };
    if k < 0 || k >= len {
        return Err(WithError::InvalidIndex);
    }
    let mut out: Vec<T> = Vec::new();
    let mut i: usize = 0;
    while i < elems.len()
        invariant
            i <= elems@.len(),
            elems@.len() <= MAX_SAFE_INTEGER,
            0 <= k < elems@.len(),
            out@ == elems@.update(k as int, value).take(i as int),
        decreases elems.len() - i,
    {
        if i as i64 == k {
            out.push(value);
        } else {
            out.push(elems[i]);
        }
        i = i + 1;
        assert(out@ =~= elems@.update(k as int, value).take(i as int));
    }
    assert(out@ =~= elems@.update(k as int, value));
    Ok(out)
}

/// The range `slice(start, end)` copies from a length-`len` array: both
/// ends taken relative to the length (the end defaulting to `len`), and
/// empty when the end comes first.
pub open spec fn slice_bounds_spec(len: int, start: int, end: Option<int>) -> (int, int) {
    let k = relative_index_spec(start, len);
    let f = match end {
        Some(e) => relative_index_spec(e, len),
        None => len,
    };
    (k, if f < k { k } else { f })
}

/// The range of `slice`, from integer arguments.
pub fn slice_bounds(len: u64, start: i64, end: Option<i64>) -> (r: (u64, u64))
    requires
        len <= MAX_SAFE_INTEGER,
    ensures
        r.0 as int == slice_bounds_spec(len as int, start as int, match end {
            Some(e) => Some(e as int),
            None => None,
        }).0,
        r.1 as int == slice_bounds_spec(len as int, start as int, match end {
            Some(e) => Some(e as int),
            None => None,
        }).1,
{
    let k = relative_index(start, len as i64) as u64;
    let f = match end {
        Some(e) => relative_index(e, len as i64) as u64,
        None => len,
    };
    if f < k {
        (k, k)
    } else {
        (k, f)
    }
}

/// Why `slice` is refused (a RangeError, "Invalid array length").
#[derive(Clone, Copy, Debug, PartialEq, Eq, Structural)]
pub enum SliceError {
    InvalidLength,
}

/// The message of the error this refusal throws.
pub open spec fn slice_error_message(e: SliceError) -> Seq<char> {
    match e {
        SliceError::InvalidLength => "Invalid array length"@,
    }
}

impl SliceError {
    /// The message of the error this refusal throws.
    pub fn message(&self) -> (r: &'static str)
        ensures
            r@ == slice_error_message(*self),
    {
        match self {
            SliceError::InvalidLength => "Invalid array length",
        }
    }
}

/// `Array.prototype.slice` on the elements: the elements of the range
/// (holes stay holes), refused when the copy would be longer than an array
/// can be.
pub fn slice_elements<T: Copy>(elems: &[Option<T>], start: i64, end: Option<i64>) -> (r: Result<Vec<Option<T>>, SliceError>)
    requires
        elems@.len() <= MAX_SAFE_INTEGER,
    ensures
        ({
            let (k, f) = slice_bounds_spec(elems@.len() as int, start as int, match end {
                Some(e) => Some(e as int),
                None => None,
            });
            &&& (r is Err) == (f - k > MAX_ARRAY_LENGTH)
            &&& r matches Ok(v) ==> v@ == elems@.subrange(k, f)
        }),
{
    let (k, f) = slice_bounds(elems.len() as u64, start, end);
    if f - k > MAX_ARRAY_LENGTH {
        return Err(SliceError::InvalidLength);
    }
    let mut out: Vec<Option<T>> = Vec::new();
    push_range(&mut out, elems, k as usize, f as usize);
    Ok(out)
}

/// The number of elements `copyWithin` copies, from clamped positions.
pub fn copy_count(len: i64, to: i64, from: i64, end: i64) -> (r: i64)
    requires
        0 <= to <= len,
        0 <= from <= len,
        0 <= end <= len,
    ensures
        r as int == copy_count_spec(len as int, to as int, from as int, end as int),
{
    let c = end - from;
    if c < 0 {
        0
    } else if c > len - to {
        len - to
    } else {
        c
    }
}

/// Copy `count` elements from `from` on to `to` on, reading them all
/// first so that overlapping ranges copy the original elements; a hole
/// copies as a hole.
pub fn copy_within_elements<T: Copy>(elems: &mut Vec<Option<T>>, to: usize, from: usize, count: usize)
    requires
        to <= old(elems).len(),
        from <= old(elems).len(),
        count <= old(elems).len() - to,
        count <= old(elems).len() - from,
    ensures
        final(elems)@ == copy_within_spec(old(elems)@, to as int, from as int, count as int),
{
    let ghost s0 = elems@;
    let mut snapshot: Vec<Option<T>> = Vec::new();
    let mut k: usize = 0;
    while k < count
        invariant
            k <= count,
            from <= s0.len(),
            count <= s0.len() - from,
            elems@ == s0,
            elems.len() == s0.len(),
            snapshot@ == s0.subrange(from as int, from + k),
        decreases count - k,
    {
        snapshot.push(elems[from + k]);
        k = k + 1;
        assert(snapshot@ =~= s0.subrange(from as int, from + k));
    }
    let mut k: usize = 0;
    while k < count
        invariant
            k <= count,
            count <= s0.len() - to,
            count <= s0.len() - from,
            snapshot@ == s0.subrange(from as int, from + count),
            elems.len() == s0.len(),
            forall|p: int| 0 <= p < s0.len() ==> #[trigger] elems@[p] == (if to <= p < to + k {
                s0[from + p - to]
            } else {
                s0[p]
            }),
        decreases count - k,
    {
        elems.set(to + k, snapshot[k]);
        k = k + 1;
    }
    assert(elems@ =~= copy_within_spec(s0, to as int, from as int, count as int));
}

/// Reverse the elements in place, pairing each position in the lower half
/// with its mirror: both present swap, one present moves across leaving a
/// hole, neither present stays as it is.
pub fn reverse_elements<T: Copy>(elems: &mut Vec<Option<T>>)
    ensures
        final(elems)@ == old(elems)@.reverse(),
{
    let ghost s0 = elems@;
    let len = elems.len();
    let middle = len / 2;
    let mut lower: usize = 0;
    while lower != middle
        invariant
            lower <= middle,
            middle == len / 2,
            elems.len() == len,
            len == s0.len(),
            forall|p: int|
                0 <= p < len ==> #[trigger] elems@[p] == (if p < lower || p >= len - lower {
                    s0[len - 1 - p]
                } else {
                    s0[p]
                }),
        decreases middle - lower,
    {
        let upper = len - lower - 1;
        let lower_val = elems[lower];
        let upper_val = elems[upper];
        match (lower_val, upper_val) {
            (Some(_), Some(_)) => {
                elems.set(lower, upper_val);
                elems.set(upper, lower_val);
            },
            (None, Some(_)) => {
                elems.set(lower, upper_val);
                elems.set(upper, None);
            },
            (Some(_), None) => {
                elems.set(lower, None);
                elems.set(upper, lower_val);
            },
            (None, None) => {},
        }
        lower = lower + 1;
    }
    assert(elems@ =~= s0.reverse());
}

/// Reversing twice gives back the array.
pub proof fn law_reverse_twice<T>(s: Seq<Option<T>>)
    ensures
        s.reverse().reverse() == s,
{
    assert(s.reverse().reverse() =~= s);
}

} // verus!
