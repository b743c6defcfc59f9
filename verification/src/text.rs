//! String splitting and literal-pattern replacement over character sequences.
//!
//! These are the string-separator and string-pattern paths of
//! `String.prototype.split`, `replace` and `replaceAll`.
use vstd::prelude::*;

verus! {

/// `t` occurs in `s` starting at position `p`.
pub open spec fn occurs_at<A>(s: Seq<A>, p: int, t: Seq<A>) -> bool {
    0 <= p && p + t.len() <= s.len() && s.subrange(p, p + t.len()) =~= t
}

/// The first position at or after `p` where `t` occurs in `s`, or -1.
pub open spec fn find_from<A>(s: Seq<A>, t: Seq<A>, p: int) -> int
    decreases s.len() + 1 - p,
{
    if p < 0 || p + t.len() > s.len() {
        -1
    } else if occurs_at(s, p, t) {
        p
    } else {
        find_from(s, t, p + 1)
    }
}

/// The pieces of `s` from position `start` on, cut at each non-overlapping
/// occurrence of the non-empty separator `sep`, scanning left to right.
pub open spec fn split_from<A>(s: Seq<A>, sep: Seq<A>, start: int) -> Seq<Seq<A>>
    decreases s.len() + 1 - start,
{
    let p = find_from(s, sep, start);
    if sep.len() > 0 && 0 <= start <= p && p + sep.len() <= s.len() {
        seq![s.subrange(start, p)] + split_from(s, sep, p + sep.len())
    } else {
        seq![s.subrange(start, s.len() as int)]
    }
}

/// The pieces `split` cuts `s` into: one piece per element when the separator
/// is empty, else the parts between non-overlapping occurrences of `sep`.
pub open spec fn split_spec<A>(s: Seq<A>, sep: Seq<A>) -> Seq<Seq<A>> {
    if sep.len() == 0 {
        Seq::new(s.len(), |i: int| seq![s[i]])
    } else {
        split_from(s, sep, 0)
    }
}

/// The pieces of `parts` with `sep` between each two neighbours.
pub open spec fn join<A>(parts: Seq<Seq<A>>, sep: Seq<A>) -> Seq<A>
    decreases parts.len(),
{
    if parts.len() == 0 {
        Seq::empty()
    } else if parts.len() == 1 {
        parts[0]
    } else {
        parts[0] + sep + join(parts.skip(1), sep)
    }
}

/// `s` from position `start` on with every non-overlapping occurrence of the
/// non-empty pattern `t`, scanning left to right, replaced by `r`.
pub open spec fn replace_all_from<A>(s: Seq<A>, t: Seq<A>, r: Seq<A>, start: int) -> Seq<A>
    decreases s.len() + 1 - start,
{
    let p = find_from(s, t, start);
    if t.len() > 0 && 0 <= start <= p && p + t.len() <= s.len() {
        s.subrange(start, p) + r + replace_all_from(s, t, r, p + t.len())
    } else {
        s.subrange(start, s.len() as int)
    }
}

/// `r` inserted before every element of `s` and once more at its end (what
/// replacing every match of an empty pattern gives).
pub open spec fn interleave<A>(s: Seq<A>, r: Seq<A>) -> Seq<A>
    decreases s.len(),
{
    if s.len() == 0 {
        r
    } else {
        r + seq![s[0]] + interleave(s.skip(1), r)
    }
}

/// `s` with every match of `t` replaced by `r`.
pub open spec fn replace_all_spec<A>(s: Seq<A>, t: Seq<A>, r: Seq<A>) -> Seq<A> {
    if t.len() == 0 {
        interleave(s, r)
    } else {
        replace_all_from(s, t, r, 0)
    }
}

/// `s` with its first match of `t` replaced by `r` (an empty pattern matches
/// at the start); `s` itself when `t` does not occur.
pub open spec fn replace_first_spec<A>(s: Seq<A>, t: Seq<A>, r: Seq<A>) -> Seq<A> {
    let p = find_from(s, t, 0);
    if t.len() == 0 {
        r + s
    } else if p >= 0 {
        s.subrange(0, p) + r + s.subrange(p + t.len(), s.len() as int)
    } else {
        s
    }
}

/// The views of a list of character vectors.
pub open spec fn pieces_view(v: Seq<Vec<char>>) -> Seq<Seq<char>> {
    v.map_values(|p: Vec<char>| p@)
}

/// What `find_from` returns: -1, or the first position at or after `p` where
/// `t` occurs.
pub proof fn lemma_find_from<A>(s: Seq<A>, t: Seq<A>, p: int)
    requires
        p >= 0,
    ensures
        find_from(s, t, p) == -1 ==> forall|q: int| p <= q ==> !occurs_at(s, q, t),
        find_from(s, t, p) != -1 ==> {
            &&& p <= find_from(s, t, p)
            &&& occurs_at(s, find_from(s, t, p), t)
            &&& forall|q: int| p <= q < find_from(s, t, p) ==> !occurs_at(s, q, t)
        },
    decreases s.len() + 1 - p,
{
    if p + t.len() > s.len() {
    } else if occurs_at(s, p, t) {
    } else {
        lemma_find_from(s, t, p + 1);
    }
}

/// Splitting at a non-empty separator and joining the pieces with it gives
/// back the original sequence.
pub proof fn law_split_join<A>(s: Seq<A>, sep: Seq<A>)
    requires
        sep.len() > 0,
    ensures
        join(split_spec(s, sep), sep) == s,
{
    lemma_split_join_from(s, sep, 0);
    assert(s.subrange(0, s.len() as int) =~= s);
}

/// The number of non-overlapping occurrences of `sep` in `s` from `start`
/// on, scanning left to right.
pub open spec fn count_from<A>(s: Seq<A>, sep: Seq<A>, start: int) -> nat
    decreases s.len() + 1 - start,
{
    let p = find_from(s, sep, start);
    if sep.len() > 0 && 0 <= start <= p && p + sep.len() <= s.len() {
        1 + count_from(s, sep, p + sep.len())
    } else {
        0
    }
}

proof fn lemma_occurs_in_subrange<A>(s: Seq<A>, a: int, b: int, q: int, t: Seq<A>)
    requires
        0 <= a <= b <= s.len(),
        occurs_at(s.subrange(a, b), q, t),
    ensures
        occurs_at(s, a + q, t),
{
    let piece = s.subrange(a, b);
    assert forall|j: int| 0 <= j < t.len() implies s.subrange(a + q, a + q + t.len())[j] == t[j] by {
        assert(piece.subrange(q, q + t.len())[j] == t[j]);
        assert(piece[q + j] == s[a + q + j]);
    }
    assert(s.subrange(a + q, a + q + t.len()) =~= t);
}

proof fn lemma_split_pieces_from<A>(s: Seq<A>, sep: Seq<A>, start: int)
    requires
        sep.len() > 0,
        0 <= start <= s.len(),
    ensures
        split_from(s, sep, start).len() == count_from(s, sep, start) + 1,
        forall|i: int, q: int|
            0 <= i < split_from(s, sep, start).len() ==> !#[trigger] occurs_at(split_from(s, sep, start)[i], q, sep),
    decreases s.len() + 1 - start,
{
    let p = find_from(s, sep, start);
    lemma_find_from(s, sep, start);
    let parts = split_from(s, sep, start);
    if 0 <= start <= p && p + sep.len() <= s.len() {
        lemma_split_pieces_from(s, sep, p + sep.len());
        let rest = split_from(s, sep, p + sep.len());
        assert(parts == seq![s.subrange(start, p)] + rest);
        assert forall|i: int, q: int| 0 <= i < parts.len() implies !#[trigger] occurs_at(parts[i], q, sep) by {
            if i == 0 {
                if occurs_at(parts[0], q, sep) {
                    lemma_occurs_in_subrange(s, start, p, q, sep);
                    assert(start + q < p);
                }
            } else {
                assert(parts[i] == rest[i - 1]);
            }
        }
    } else {
        assert forall|i: int, q: int| 0 <= i < parts.len() implies !#[trigger] occurs_at(parts[i], q, sep) by {
            assert(i == 0);
            if occurs_at(parts[0], q, sep) {
                lemma_occurs_in_subrange(s, start, s.len() as int, q, sep);
            }
        }
    }
}

/// Splitting at a non-empty separator gives one piece more than there are
/// (non-overlapping, left to right) occurrences of it, and no piece holds
/// the separator.
pub proof fn law_split_pieces<A>(s: Seq<A>, sep: Seq<A>)
    requires
        sep.len() > 0,
    ensures
        split_spec(s, sep).len() == count_from(s, sep, 0) + 1,
        forall|i: int, q: int| 0 <= i < split_spec(s, sep).len() ==> !#[trigger] occurs_at(split_spec(s, sep)[i], q, sep),
{
    lemma_split_pieces_from(s, sep, 0);
}

proof fn lemma_split_nonempty<A>(s: Seq<A>, sep: Seq<A>, start: int)
    ensures
        split_from(s, sep, start).len() >= 1,
    decreases s.len() + 1 - start,
{
    let p = find_from(s, sep, start);
    if sep.len() > 0 && 0 <= start <= p && p + sep.len() <= s.len() {
        lemma_split_nonempty(s, sep, p + sep.len());
    }
}

proof fn lemma_split_join_from<A>(s: Seq<A>, sep: Seq<A>, start: int)
    requires
        sep.len() > 0,
        0 <= start <= s.len(),
    ensures
        join(split_from(s, sep, start), sep) == s.subrange(start, s.len() as int),
    decreases s.len() + 1 - start,
{
    let p = find_from(s, sep, start);
    lemma_find_from(s, sep, start);
    if 0 <= start <= p && p + sep.len() <= s.len() {
        let rest = split_from(s, sep, p + sep.len());
        lemma_split_join_from(s, sep, p + sep.len());
        lemma_split_nonempty(s, sep, p + sep.len());
        let parts = split_from(s, sep, start);
        assert(parts == seq![s.subrange(start, p)] + rest);
        assert(parts.skip(1) =~= rest);
        assert(parts[0] == s.subrange(start, p));
        assert(s.subrange(p, p + sep.len()) =~= sep);
        assert(s.subrange(start, s.len() as int) =~= s.subrange(start, p) + sep + s.subrange(
            p + sep.len(),
            s.len() as int,
        ));
    }
}

/// Joining one more piece adds the separator and that piece at the end.
pub proof fn lemma_join_push<A>(parts: Seq<Seq<A>>, x: Seq<A>, sep: Seq<A>)
    ensures
        parts.len() == 0 ==> join(parts.push(x), sep) == x,
        parts.len() > 0 ==> join(parts.push(x), sep) == join(parts, sep) + sep + x,
    decreases parts.len(),
{
    if parts.len() == 0 {
        assert(parts.push(x).len() == 1);
    } else if parts.len() == 1 {
        assert(parts.push(x).skip(1) =~= seq![x]);
        assert(join(seq![x], sep) == x);
        assert(parts.push(x)[0] == parts[0]);
        assert(join(parts, sep) == parts[0]);
    } else {
        lemma_join_push(parts.skip(1), x, sep);
        assert(parts.push(x).skip(1) =~= parts.skip(1).push(x));
        assert(parts.push(x)[0] == parts[0]);
        assert(join(parts, sep) == parts[0] + sep + join(parts.skip(1), sep));
        assert(parts[0] + sep + (join(parts.skip(1), sep) + sep + x) =~= (parts[0] + sep + join(
            parts.skip(1),
            sep,
        )) + sep + x);
    }
}

/// Replacing every match of a non-empty pattern is splitting at the pattern
/// and joining the pieces with the replacement.
pub proof fn law_replace_all_is_split_join<A>(s: Seq<A>, t: Seq<A>, r: Seq<A>)
    requires
        t.len() > 0,
    ensures
        replace_all_spec(s, t, r) == join(split_spec(s, t), r),
{
    lemma_replace_all_split_from(s, t, r, 0);
}

proof fn lemma_replace_all_split_from<A>(s: Seq<A>, t: Seq<A>, r: Seq<A>, start: int)
    requires
        t.len() > 0,
        0 <= start <= s.len(),
    ensures
        replace_all_from(s, t, r, start) == join(split_from(s, t, start), r),
    decreases s.len() + 1 - start,
{
    let p = find_from(s, t, start);
    lemma_find_from(s, t, start);
    if 0 <= start <= p && p + t.len() <= s.len() {
        lemma_replace_all_split_from(s, t, r, p + t.len());
        lemma_split_nonempty(s, t, p + t.len());
        let rest = split_from(s, t, p + t.len());
        let parts = split_from(s, t, start);
        assert(parts.skip(1) =~= rest);
    }
}

/// Replacing every match of a non-empty pattern by the pattern itself leaves
/// the sequence unchanged.
pub proof fn law_replace_all_identity<A>(s: Seq<A>, t: Seq<A>)
    requires
        t.len() > 0,
    ensures
        replace_all_spec(s, t, t) == s,
{
    law_replace_all_is_split_join(s, t, t);
    law_split_join(s, t);
}

/// Whether `t` occurs in `s` at position `p`.
fn chars_match_at(s: &[char], p: usize, t: &[char]) -> (r: bool)
    requires
        p + t@.len() <= s@.len(),
    ensures
        r == occurs_at(s@, p as int, t@),
{
    let n = t.len();
    let sl = s.len();
    let mut j: usize = 0;
    while j < n
        invariant
            n == t@.len(),
            sl == s@.len(),
            p + n <= s@.len(),
            j <= n,
            forall|k: int| 0 <= k < j ==> s@[p + k] == t@[k],
        decreases n - j,
    {
        if s[p + j] != t[j] {
            assert(s@.subrange(p as int, p + n)[j as int] != t@[j as int]);
            return false;
        }
        j = j + 1;
    }
    assert(s@.subrange(p as int, p + n) =~= t@);
    true
}

/// The first position at or after `start` where `t` occurs in `s`.
pub fn find_chars(s: &[char], t: &[char], start: usize) -> (r: Option<usize>)
    requires
        start <= s@.len(),
    ensures
        match r {
            Some(p) => p as int == find_from(s@, t@, start as int),
            None => find_from(s@, t@, start as int) == -1,
        },
{
    let n = s.len();
    let m = t.len();
    let mut p = start;
    while p <= n && m <= n - p
        invariant
            n == s@.len(),
            m == t@.len(),
            start <= p,
            find_from(s@, t@, start as int) == find_from(s@, t@, p as int),
        decreases n + 1 - p,
    {
        if chars_match_at(s, p, t) {
            return Some(p);
        }
        p = p + 1;
    }
    None
}

/// Append `s[lo..hi]` to `out`.
pub fn push_range<T: Copy>(out: &mut Vec<T>, s: &[T], lo: usize, hi: usize)
    requires
        lo <= hi <= s@.len(),
    ensures
        final(out)@ == old(out)@ + s@.subrange(lo as int, hi as int),
{
    let mut i = lo;
    while i < hi
        invariant
            lo <= i <= hi,
            hi <= s@.len(),
            out@ == old(out)@ + s@.subrange(lo as int, i as int),
        decreases hi - i,
    {
        out.push(s[i]);
        i = i + 1;
        assert(s@.subrange(lo as int, i as int) =~= s@.subrange(lo as int, i - 1) + seq![s@[i - 1]]);
    }
}

/// `s[lo..hi]` as a new vector.
fn range_vec(s: &[char], lo: usize, hi: usize) -> (r: Vec<char>)
    requires
        lo <= hi <= s@.len(),
    ensures
        r@ == s@.subrange(lo as int, hi as int),
{
    let mut out: Vec<char> = Vec::new();
    push_range(&mut out, s, lo, hi);
    out
}

/// The string-separator path of `split`: the pieces `split_spec` gives, at
/// most `limit` of them.
pub fn split_text(s: &[char], sep: &[char], limit: u32) -> (r: Vec<Vec<char>>)
    ensures
        pieces_view(r@) == split_spec(s@, sep@).take(
            if split_spec(s@, sep@).len() <= limit as int {
                split_spec(s@, sep@).len() as int
            } else {
                limit as int
            },
        ),
{
    let n = s.len();
    let mut out: Vec<Vec<char>> = Vec::new();
    if sep.len() == 0 {
        let mut i: usize = 0;
        while i < n
            invariant
                n == s@.len(),
                sep@.len() == 0,
                i <= n,
                pieces_view(out@) =~= split_spec(s@, sep@).take(i as int),
            decreases n - i,
        {
            let ghost before = pieces_view(out@);
            out.push(range_vec(s, i, i + 1));
            assert(s@.subrange(i as int, i + 1) =~= seq![s@[i as int]]);
            assert(pieces_view(out@) =~= before.push(seq![s@[i as int]]));
            assert(split_spec(s@, sep@)[i as int] == seq![s@[i as int]]);
            assert(split_spec(s@, sep@).take(i + 1) =~= split_spec(s@, sep@).take(i as int).push(
                seq![s@[i as int]],
            ));
            i = i + 1;
        }
    } else {
        let mut start: usize = 0;
        loop
            invariant_except_break
                n == s@.len(),
                sep@.len() > 0,
                start <= n,
                pieces_view(out@) + split_from(s@, sep@, start as int) =~= split_spec(s@, sep@),
            ensures
                pieces_view(out@) =~= split_spec(s@, sep@),
            decreases n + 1 - start,
        {
            proof {
                lemma_find_from(s@, sep@, start as int);
            }
            match find_chars(s, sep, start) {
                Some(p) => {
                    let ghost before = pieces_view(out@);
                    let ghost rest = split_from(s@, sep@, p + sep@.len());
                    assert(split_from(s@, sep@, start as int) == seq![s@.subrange(start as int, p as int)]
                        + rest);
                    out.push(range_vec(s, start, p));
                    assert(pieces_view(out@) =~= before + seq![s@.subrange(start as int, p as int)]);
                    start = p + sep.len();
                },
                None => {
                    let ghost before = pieces_view(out@);
                    assert(split_from(s@, sep@, start as int) == seq![s@.subrange(start as int, n as int)]);
                    out.push(range_vec(s, start, n));
                    assert(pieces_view(out@) =~= before + seq![s@.subrange(start as int, n as int)]);
                    break ;
                },
            }
        }
    }
    let ghost all = pieces_view(out@);
    assert(all =~= split_spec(s@, sep@));
    let limit_usize = limit as usize;
    out.truncate(limit_usize);
    assert(pieces_view(out@) =~= all.take(
        if all.len() <= limit as int {
            all.len() as int
        } else {
            limit as int
        },
    ));
    out
}

/// The string-pattern path of `replace`: the first match of `t` replaced by
/// `r` (an empty pattern matches at the start).
pub fn replace_first_text(s: &[char], t: &[char], r: &[char]) -> (out: Vec<char>)
    ensures
        out@ == replace_first_spec(s@, t@, r@),
{
    let n = s.len();
    let mut out: Vec<char> = Vec::new();
    if t.len() == 0 {
        push_range(&mut out, r, 0, r.len());
        push_range(&mut out, s, 0, s.len());
        assert(r@.subrange(0, r@.len() as int) =~= r@);
        assert(s@.subrange(0, s@.len() as int) =~= s@);
        return out;
    }
    match find_chars(s, t, 0) {
        Some(p) => {
            proof {
                lemma_find_from(s@, t@, 0);
                assert(occurs_at(s@, p as int, t@));
            }
            push_range(&mut out, s, 0, p);
            push_range(&mut out, r, 0, r.len());
            push_range(&mut out, s, p + t.len(), n);
            assert(r@.subrange(0, r@.len() as int) =~= r@);
        },
        None => {
            push_range(&mut out, s, 0, s.len());
            assert(s@.subrange(0, s@.len() as int) =~= s@);
        },
    }
    out
}

/// The string-pattern path of `replaceAll`: every match of `t` replaced by `r`.
pub fn replace_all_text(s: &[char], t: &[char], r: &[char]) -> (out: Vec<char>)
    ensures
        out@ == replace_all_spec(s@, t@, r@),
{
    let n = s.len();
    let mut out: Vec<char> = Vec::new();
    proof {
        assert(r@.subrange(0, r@.len() as int) =~= r@);
    }
    if t.len() == 0 {
        let mut i: usize = 0;
        assert(s@.skip(0) =~= s@);
        while i < n
            invariant
                n == s@.len(),
                i <= n,
                out@ + interleave(s@.skip(i as int), r@) =~= interleave(s@, r@),
                r@.subrange(0, r@.len() as int) =~= r@,
            decreases n - i,
        {
            let ghost before = out@;
            proof {
                assert(s@.skip(i as int).skip(1) =~= s@.skip(i + 1));
            }
            push_range(&mut out, r, 0, r.len());
            out.push(s[i]);
            i = i + 1;
            assert(out@ =~= before + r@ + seq![s@[i - 1]]);
        }
        push_range(&mut out, r, 0, r.len());
        assert(s@.skip(n as int).len() == 0);
        return out;
    }
    let mut start: usize = 0;
    loop
        invariant_except_break
            n == s@.len(),
            t@.len() > 0,
            start <= n,
            out@ + replace_all_from(s@, t@, r@, start as int) =~= replace_all_spec(s@, t@, r@),
            r@.subrange(0, r@.len() as int) =~= r@,
        ensures
            out@ =~= replace_all_spec(s@, t@, r@),
        decreases n + 1 - start,
    {
        proof {
            lemma_find_from(s@, t@, start as int);
        }
        match find_chars(s, t, start) {
            Some(p) => {
                assert(occurs_at(s@, p as int, t@));
                push_range(&mut out, s, start, p);
                push_range(&mut out, r, 0, r.len());
                start = p + t.len();
            },
            None => {
                push_range(&mut out, s, start, n);
                break ;
            },
        }
    }
    out
}

/// The text of an element of a joined array: the element's string, or
/// nothing for `undefined`, `null` and holes.
pub open spec fn element_text(p: Option<Vec<char>>) -> Seq<char> {
    match p {
        Some(v) => v@,
        None => Seq::empty(),
    }
}

/// `Array.prototype.join`: the elements' strings (`None` for `undefined`,
/// `null` and holes, which give nothing) with `sep` between neighbours,
/// or `","` when no separator is given.
pub fn join_elements(parts: &[Option<Vec<char>>], sep: Option<&[char]>) -> (r: Vec<char>)
    ensures
        r@ == join(
            parts@.map_values(|p: Option<Vec<char>>| element_text(p)),
            match sep {
                Some(t) => t@,
                None => seq![','],
            },
        ),
{
    let comma = [','];
    let sep: &[char] = match sep {
        Some(t) => t,
        None => &comma,
    };
    proof {
        assert(comma@ =~= seq![',']);
    }
    let ghost texts = parts@.map_values(|p: Option<Vec<char>>| element_text(p));
    let mut out: Vec<char> = Vec::new();
    let mut i: usize = 0;
    while i < parts.len()
        invariant
            i <= parts@.len(),
            texts == parts@.map_values(|p: Option<Vec<char>>| element_text(p)),
            out@ == join(texts.take(i as int), sep@),
        decreases parts.len() - i,
    {
        if i > 0 {
            push_range(&mut out, sep, 0, sep.len());
        }
        let ghost before = out@;
        match &parts[i] {
            Some(t) => {
                push_range(&mut out, t.as_slice(), 0, t.len());
            },
            None => {},
        }
        proof {
            assert(sep@.subrange(0, sep@.len() as int) =~= sep@);
            assert(texts.take(i + 1) =~= texts.take(i as int).push(texts[i as int]));
            lemma_join_push(texts.take(i as int), texts[i as int], sep@);
            match parts@[i as int] {
                Some(t) => {
                    assert(t@.subrange(0, t@.len() as int) =~= t@);
                },
                None => {
                    assert(before + Seq::<char>::empty() =~= before);
                },
            }
        }
        i = i + 1;
    }
    assert(texts.take(parts@.len() as int) =~= texts);
    out
}

} // verus!
