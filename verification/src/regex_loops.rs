//! The loops of `split` and `replaceAll` with a regular-expression
//! pattern, driven by the matches the caller's regex engine reports, and
//! the first step of a `replaceAll` whose replacement is a function.
//! Positions are byte offsets in the UTF-8 text; a match is given by its
//! group ranges, group 0 the whole match.
use vstd::prelude::*;
use crate::replacement::{expansion, expand_replacement};
use crate::text::{find_from, occurs_at, push_range};

verus! {

/// The state of a regex `split` of a `size`-byte text into at most
/// `limit` pieces: the end of the last match, where the next search
/// starts, the pieces so far (byte ranges: the text between matches and
/// the captures), and whether the split is over.
pub struct RegexSplit {
    pub size: usize,
    pub limit: u32,
    pub last_match_end: usize,
    pub search_index: usize,
    pub pieces: Vec<(usize, usize)>,
    pub done: bool,
}

/// The state of a regex split as plain values.
pub struct SplitModel {
    pub size: int,
    pub limit: int,
    pub last: int,
    pub search: int,
    pub pieces: Seq<(usize, usize)>,
    pub done: bool,
}

impl RegexSplit {
    /// The state as plain values.
    pub open spec fn model(&self) -> SplitModel {
        SplitModel {
            size: self.size as int,
            limit: self.limit as int,
            last: self.last_match_end as int,
            search: self.search_index as int,
            pieces: self.pieces@,
            done: self.done,
        }
    }
}

/// Every range of `r` lies in a `size`-byte text.
pub open spec fn ranges_fit(r: Seq<(usize, usize)>, size: int) -> bool {
    forall|k: int| 0 <= k < r.len() ==> #[trigger] r[k].0 <= r[k].1 <= size
}

proof fn lemma_ranges_concat(a: Seq<(usize, usize)>, b: Seq<(usize, usize)>, size: int)
    requires
        ranges_fit(a, size),
        ranges_fit(b, size),
    ensures
        ranges_fit(a + b, size),
{
    assert forall|k: int| 0 <= k < (a + b).len() implies #[trigger] (a + b)[k].0 <= (a + b)[k].1 <= size by {
        if k < a.len() {
            assert((a + b)[k] == a[k]);
        } else {
            assert((a + b)[k] == b[k - a.len()]);
        }
    }
}

proof fn lemma_ranges_push(a: Seq<(usize, usize)>, x: (usize, usize), size: int)
    requires
        ranges_fit(a, size),
        x.0 <= x.1 <= size,
    ensures
        ranges_fit(a.push(x), size),
{
    assert forall|k: int| 0 <= k < a.push(x).len() implies #[trigger] a.push(x)[k].0 <= a.push(x)[k].1 <= size by {
        if k < a.len() {
            assert(a.push(x)[k] == a[k]);
        }
    }
}

proof fn lemma_ranges_sub(g: Seq<(usize, usize)>, size: int, n: int)
    requires
        ranges_fit(g, size),
        g.len() >= 1,
        0 <= n <= g.len() - 1,
    ensures
        ranges_fit(g.skip(1), size),
        ranges_fit(g.skip(1).take(n), size),
{
    assert forall|k: int| 0 <= k < g.skip(1).len() implies #[trigger] g.skip(1)[k].0 <= g.skip(1)[k].1 <= size by {
        assert(g.skip(1)[k] == g[k + 1]);
        assert(0 <= k + 1 < g.len());
        assert(g[k + 1].0 <= g[k + 1].1 <= size);
    }
    assert forall|k: int| 0 <= k < g.skip(1).take(n).len() implies #[trigger] g.skip(1).take(n)[k].0 <= g.skip(1).take(n)[k].1 <= size by {
        assert(g.skip(1).take(n)[k] == g[k + 1]);
    }
}

/// The ranges of a match lie in the text, and the match starts at or after
/// `from`.
pub open spec fn match_fits(g: Seq<(usize, usize)>, size: int, from: int) -> bool {
    &&& g.len() >= 1
    &&& ranges_fit(g, size)
    &&& g[0].0 >= from
}

impl SplitModel {
    /// A split that is not over: the next search runs at `search`.
    pub open spec fn wf(self) -> bool {
        &&& 0 <= self.size <= usize::MAX
        &&& 0 <= self.limit <= u32::MAX
        &&& ranges_fit(self.pieces, self.size)
        &&& self.pieces.len() <= self.limit
        &&& !self.done ==> {
            &&& 0 <= self.last <= self.search
            &&& (self.size > 0 ==> self.search < self.size)
            &&& (self.size == 0 ==> self.search == 0 && self.pieces.len() == 0)
            &&& self.pieces.len() < self.limit
        }
    }

    /// After the search position moved to `search`: the split ends, with
    /// the text after the last match as the final piece, once the search
    /// reaches the end of the text.
    pub open spec fn moved_to(self, search: int) -> SplitModel {
        if search >= self.size {
            SplitModel {
                search,
                pieces: self.pieces.push((self.last as usize, self.size as usize)),
                done: true,
                ..self
            }
        } else {
            SplitModel { search, ..self }
        }
    }

    /// The state after the search at `search` found no match.
    pub open spec fn after_no_match(self) -> SplitModel {
        if self.size == 0 {
            SplitModel { pieces: seq![(0usize, 0usize)], done: true, ..self }
        } else {
            self.moved_to(self.search + 1)
        }
    }

    /// The state after the search at `search` found the match `g`. A match
    /// ending where the last one ended only moves the search on by one
    /// byte; otherwise the text before the match, then each capture, become
    /// pieces (the split ends as soon as there are `limit` of them), and
    /// the search goes on at the end of the match.
    pub open spec fn after_match(self, g: Seq<(usize, usize)>) -> SplitModel {
        let (ms, me) = (g[0].0 as int, g[0].1 as int);
        if self.size == 0 {
            SplitModel { done: true, ..self }
        } else if me == self.last {
            self.moved_to(self.search + 1)
        } else {
            let p1 = self.pieces.push((self.last as usize, ms as usize));
            let caps = g.skip(1);
            if p1.len() >= self.limit {
                SplitModel { pieces: p1, done: true, ..self }
            } else if caps.len() >= self.limit - p1.len() {
                SplitModel { pieces: p1 + caps.take(self.limit - p1.len()), done: true, ..self }
            } else {
                SplitModel { pieces: p1 + caps, last: me, ..self }.moved_to(me)
            }
        }
    }

    /// `self` is further along than `other`: over where `other` was not, or
    /// searching further on, or at the same place after a later match.
    pub open spec fn ahead_of(self, other: SplitModel) -> bool {
        ||| (!other.done && self.done)
        ||| (!other.done && !self.done && self.search > other.search)
        ||| (!other.done && !self.done && self.search == other.search && self.last > other.last)
    }
}

/// The state in which a split of a `size`-byte text into at most `limit`
/// pieces starts: over at once, with no pieces, when the limit is 0.
pub open spec fn split_start(size: int, limit: int) -> SplitModel {
    SplitModel { size, limit, last: 0, search: 0, pieces: Seq::empty(), done: limit == 0 }
}

impl RegexSplit {
    /// Start a split of a `size`-byte text into at most `limit` pieces.
    pub fn new(size: usize, limit: u32) -> (r: RegexSplit)
        ensures
            r.model() == split_start(size as int, limit as int),
            r.model().wf(),
    {
        RegexSplit { size, limit, last_match_end: 0, search_index: 0, pieces: Vec::new(), done: limit == 0 }
    }

    /// Where the regex must be run next, or `None` once the split is over.
    pub fn next_search(&self) -> (r: Option<usize>)
        ensures
            r == (if self.done { None } else { Some(self.search_index) }),
    {
        if self.done {
            None
        } else {
            Some(self.search_index)
        }
    }

    /// Move the search to `search` (one past the current position, or the
    /// end of a match), ending the split at the end of the text.
    fn move_to(&mut self, search: usize)
        requires
            old(self).model().pieces.len() < old(self).model().limit,
            ranges_fit(old(self).model().pieces, old(self).size as int),
            old(self).last_match_end <= search,
            old(self).last_match_end <= old(self).size,
            old(self).size > 0,
            !old(self).done,
        ensures
            final(self).model() == old(self).model().moved_to(search as int),
            final(self).model().wf(),
    {
        proof {
            lemma_ranges_push(self.pieces@, (self.last_match_end, self.size), self.size as int);
        }
        self.search_index = search;
        if search >= self.size {
            self.pieces.push((self.last_match_end, self.size));
            self.done = true;
        }
    }

    /// Report that the regex found no match from `next_search` on.
    pub fn report_no_match(&mut self)
        requires
            old(self).model().wf(),
            !old(self).done,
        ensures
            final(self).model() == old(self).model().after_no_match(),
            final(self).model().wf(),
            final(self).model().ahead_of(old(self).model()),
    {
        if self.size == 0 {
            self.pieces = vec![(0usize, 0usize)];
            self.done = true;
            assert(self.pieces@ =~= seq![(0usize, 0usize)]);
            assert(ranges_fit(self.pieces@, 0));
        } else {
            let s = self.search_index + 1;
            self.move_to(s);
        }
    }

    /// Report the match `groups` that the regex found from `next_search`
    /// on.
    pub fn report_match(&mut self, groups: &[(usize, usize)])
        requires
            old(self).model().wf(),
            !old(self).done,
            match_fits(groups@, old(self).size as int, old(self).search_index as int),
        ensures
            final(self).model() == old(self).model().after_match(groups@),
            final(self).model().wf(),
            final(self).model().ahead_of(old(self).model()),
    {
        let ghost m0 = self.model();
        let (ms, me) = groups[0];
        if self.size == 0 {
            self.done = true;
            return;
        }
        if me == self.last_match_end {
            let s = self.search_index + 1;
            self.move_to(s);
            return;
        }
        let lim = self.limit as usize;
        proof {
            assert(ranges_fit(groups@, self.size as int));
            assert(groups@[0].0 <= groups@[0].1 <= self.size);
            lemma_ranges_push(self.pieces@, (self.last_match_end, ms), self.size as int);
        }
        self.pieces.push((self.last_match_end, ms));
        let ghost p1 = self.pieces@;
        assert(p1 == m0.pieces.push((m0.last as usize, ms)));
        if self.pieces.len() >= lim {
            self.done = true;
            return;
        }
        let mut k: usize = 1;
        while k < groups.len()
            invariant
                1 <= k <= groups@.len(),
                lim == m0.limit,
                self.pieces.len() < lim,
                self.pieces@ == p1 + groups@.skip(1).take(k - 1),
                p1.len() < lim,
                p1 == m0.pieces.push((m0.last as usize, ms)),
                m0 == old(self).model(),
                match_fits(groups@, m0.size, m0.search),
                ranges_fit(p1, m0.size),
                m0.wf(),
                !m0.done,
                m0.size > 0,
                me != m0.last,
                groups@[0] == (ms, me),
                self.size == m0.size,
                self.limit == m0.limit,
                self.last_match_end == m0.last,
                self.search_index == m0.search,
                !self.done,
            decreases groups.len() - k,
        {
            self.pieces.push(groups[k]);
            proof {
                assert(groups@.skip(1).take(k as int) =~= groups@.skip(1).take(k - 1).push(groups@[k as int]));
            }
            k = k + 1;
            proof {
                lemma_ranges_sub(groups@, m0.size, k - 1);
                lemma_ranges_concat(p1, groups@.skip(1).take(k - 1), m0.size);
            }
            if self.pieces.len() >= lim {
                self.done = true;
                proof {
                    let caps = groups@.skip(1);
                    assert(caps.len() >= lim - p1.len());
                    assert(k - 1 == lim - p1.len());
                }
                return;
            }
        }
        proof {
            assert(groups@.skip(1).take(groups@.len() - 1) =~= groups@.skip(1));
            lemma_ranges_sub(groups@, m0.size, 0);
            lemma_ranges_concat(p1, groups@.skip(1), m0.size);
        }
        self.last_match_end = me;
        self.move_to(me);
    }

    /// The pieces of the split, as byte ranges of the text.
    pub fn pieces(&self) -> (r: &Vec<(usize, usize)>)
        ensures
            r@ == self.pieces@,
    {
        &self.pieces
    }
}

/// Every piece of a split lies in the text, and there are never more
/// pieces than the limit.
pub proof fn law_split_pieces_fit(m: SplitModel)
    requires
        m.wf(),
    ensures
        m.pieces.len() <= m.limit,
        forall|k: int| 0 <= k < m.pieces.len() ==> #[trigger] m.pieces[k].0 <= m.pieces[k].1 <= m.size,
{
}

/// A regex that matches nowhere splits a non-empty text into the text
/// itself (given a limit of at least one).
pub proof fn law_split_without_matches(size: int, limit: int)
    requires
        0 < size <= usize::MAX,
        1 <= limit <= u32::MAX,
    ensures
        ({
            let s0 = split_start(size, limit);
            let end = SplitModel { search: size, pieces: seq![(0usize, size as usize)], done: true, ..s0 };
            forall|k: nat| k <= size ==> #[trigger] no_match_from(s0, k) == (if k < size {
                SplitModel { search: k as int, ..s0 }
            } else {
                end
            })
        }),
{
    let s0 = split_start(size, limit);
    assert forall|k: nat| k <= size implies #[trigger] no_match_from(s0, k) == (if k < size {
        SplitModel { search: k as int, ..s0 }
    } else {
        SplitModel { search: size, pieces: seq![(0usize, size as usize)], done: true, ..s0 }
    }) by {
        lemma_no_match_from(s0, k as int);
    }
}

/// The state after `k` searches that found no match.
pub open spec fn no_match_from(m: SplitModel, k: nat) -> SplitModel
    decreases k,
{
    if k == 0 {
        m
    } else {
        no_match_from(m, (k - 1) as nat).after_no_match()
    }
}

proof fn lemma_no_match_from(s0: SplitModel, k: int)
    requires
        s0 == split_start(s0.size, s0.limit),
        0 < s0.size,
        1 <= s0.limit,
        0 <= k <= s0.size,
    ensures
        no_match_from(s0, k as nat) == (if k < s0.size {
            SplitModel { search: k as int, ..s0 }
        } else {
            SplitModel { search: s0.size, pieces: seq![(0usize, s0.size as usize)], done: true, ..s0 }
        }),
    decreases k,
{
    if k > 0 {
        lemma_no_match_from(s0, k - 1);
        assert(Seq::<(usize, usize)>::empty().push((0usize, s0.size as usize)) =~= seq![(0usize, s0.size as usize)]);
    }
}

// ---------------------------------------------------------------- replaceAll

/// One step of a regex `replaceAll`: the output gains the text from
/// `last_end` to the match, then the expanded replacement; after an empty
/// match the byte after it is copied too, so that the next search starts
/// past it. Returns where the next search starts.
pub open spec fn replace_step_spec(
    s: Seq<u8>,
    out: Seq<u8>,
    last_end: int,
    g: Seq<(usize, usize)>,
    r: Seq<u8>,
) -> (Seq<u8>, int) {
    let (ms, me) = (g[0].0 as int, g[0].1 as int);
    let base = out + s.subrange(last_end, ms) + expansion(s, g, r)->0;
    if ms == me {
        (base + s.subrange(me, me + 1), me + 1)
    } else {
        (base, me)
    }
}

/// One step of a regex `replaceAll` with the replacement pattern
/// `replacement`, for the match `groups` found from `last_end` on.
pub fn replace_all_step(s: &[u8], out: &mut Vec<u8>, last_end: usize, groups: &[(usize, usize)], replacement: &[u8]) -> (next: usize)
    requires
        match_fits(groups@, s@.len() as int, last_end as int),
        expansion(s@, groups@, replacement@) is Some,
        groups@[0].0 == groups@[0].1 ==> groups@[0].1 < s@.len(),
    ensures
        (final(out)@, next as int) == replace_step_spec(s@, old(out)@, last_end as int, groups@, replacement@),
{
    let (ms, me) = groups[0];
    push_range(out, s, last_end, ms);
    let e = expand_replacement(s, groups, replacement);
    let ghost mid = out@;
    let mut ev = e;
    out.append(&mut ev);
    if ms == me {
        assert(me < s.len());
        push_range(out, s, me, me + 1);
        me + 1
    } else {
        me
    }
}

/// The end of a regex `replaceAll`: the text after the last match.
pub fn replace_all_finish(s: &[u8], out: &mut Vec<u8>, last_end: usize)
    requires
        last_end <= s@.len(),
    ensures
        final(out)@ == old(out)@ + s@.subrange(last_end as int, s@.len() as int),
{
    push_range(out, s, last_end, s.len());
}

// ------------------------------------------------- replaceAll with a function

/// Where a `replaceAll` whose replacement is a function stands after its
/// first match, before the function is called: the match runs from
/// `start` to `end` (`start` is the position handed to the function),
/// the next search begins at `next_pos`, and `accumulated` is the text
/// before the match, the start of the result.
#[derive(Clone, Debug, PartialEq, Eq)]
pub struct CallbackStart {
    pub start: usize,
    pub end: usize,
    pub next_pos: usize,
    pub accumulated: Vec<u8>,
}

/// The state after a regex match `g` found from the start of `s`: past an
/// empty match the next search starts one byte further on.
pub open spec fn regex_callback_spec(s: Seq<u8>, g: Seq<(usize, usize)>) -> (int, int, int, Seq<u8>) {
    let (ms, me) = (g[0].0 as int, g[0].1 as int);
    (ms, me, if ms == me { ms + 1 } else { me }, s.subrange(0, ms))
}

/// The byte length of the UTF-8 character whose first byte is `b`.
pub open spec fn utf8_width(b: u8) -> int {
    if b < 0x80 {
        1
    } else if b < 0xE0 {
        2
    } else if b < 0xF0 {
        3
    } else {
        4
    }
}

/// The state after the first occurrence of `search` in the UTF-8 text
/// `s`, or `None` when there is none. The empty search matches at 0 and
/// the next search starts after the first character (one byte on when the
/// text is empty); another search string starts the next search after its
/// occurrence.
pub open spec fn string_callback_spec(s: Seq<u8>, search: Seq<u8>) -> Option<(int, int, int, Seq<u8>)> {
    if search.len() == 0 {
        Some((0, 0, if s.len() == 0 { 1 } else { utf8_width(s[0]) }, Seq::empty()))
    } else {
        let p = find_from(s, search, 0);
        if p < 0 {
            None
        } else {
            Some((p, p + search.len(), p + search.len(), s.subrange(0, p)))
        }
    }
}

impl CallbackStart {
    /// The state as a tuple: start, end, next search, accumulated text.
    pub open spec fn parts(&self) -> (int, int, int, Seq<u8>) {
        (self.start as int, self.end as int, self.next_pos as int, self.accumulated@)
    }
}

/// The first step of a regex `replaceAll` with a function replacement,
/// for the first match `groups` of the pattern in `s`.
pub fn regex_callback_start(s: &[u8], groups: &[(usize, usize)]) -> (r: CallbackStart)
    requires
        match_fits(groups@, s@.len() as int, 0),
        s@.len() < usize::MAX,
    ensures
        r.parts() == regex_callback_spec(s@, groups@),
{
    let (ms, me) = groups[0];
    let mut accumulated: Vec<u8> = Vec::new();
    push_range(&mut accumulated, s, 0, ms);
    let next_pos = if ms == me { ms + 1 } else { me };
    CallbackStart { start: ms, end: me, next_pos, accumulated }
}

/// Whether `t` occurs in `s` at byte position `p`.
fn bytes_match_at(s: &[u8], p: usize, t: &[u8]) -> (r: bool)
    requires
        p + t@.len() <= s@.len(),
    ensures
        r == occurs_at(s@, p as int, t@),
{
    let n = t.len();
    let sl = s.len();
    let mut j: usize = 0;
    while j < n
        invariant
            n == t@.len(),
            sl == s@.len(),
            p + n <= s@.len(),
            j <= n,
            forall|k: int| 0 <= k < j ==> s@[p + k] == t@[k],
        decreases n - j,
    {
        if s[p + j] != t[j] {
            assert(s@.subrange(p as int, p + n)[j as int] != t@[j as int]);
            return false;
        }
        j = j + 1;
    }
    assert(s@.subrange(p as int, p + n) =~= t@);
    true
}

/// The first byte position where `t` occurs in `s`.
fn find_bytes(s: &[u8], t: &[u8]) -> (r: Option<usize>)
    ensures
        match r {
            Some(p) => p as int == find_from(s@, t@, 0),
            None => find_from(s@, t@, 0) == -1,
        },
{
    let n = s.len();
    let m = t.len();
    let mut p: usize = 0;
    while p <= n && m <= n - p
        invariant
            n == s@.len(),
            m == t@.len(),
            find_from(s@, t@, 0) == find_from(s@, t@, p as int),
        decreases n + 1 - p,
    {
        if bytes_match_at(s, p, t) {
            return Some(p);
        }
        p = p + 1;
    }
    None
}

/// The first step of a string-search `replaceAll` with a function
/// replacement: the first occurrence of `search` in the UTF-8 text `s`,
/// or `None` when the text is returned unchanged.
pub fn string_callback_start(s: &[u8], search: &[u8]) -> (r: Option<CallbackStart>)
    ensures
        match r {
            Some(c) => string_callback_spec(s@, search@) == Some(c.parts()),
            None => string_callback_spec(s@, search@) is None,
        },
{
    if search.len() == 0 {
        let next_pos: usize = if s.len() == 0 {
            1
        } else if s[0] < 0x80 {
            1
        } else if s[0] < 0xE0 {
            2
        } else if s[0] < 0xF0 {
            3
        } else {
            4
        };
        return Some(CallbackStart { start: 0, end: 0, next_pos, accumulated: Vec::new() });
    }
    match find_bytes(s, search) {
        None => None,
        Some(p) => {
            proof {
                crate::text::lemma_find_from(s@, search@, 0);
            }
            let n = s.len();
            let mut accumulated: Vec<u8> = Vec::new();
            push_range(&mut accumulated, s, 0, p);
            assert(p + search@.len() <= n);
            let e = p + search.len();
            Some(CallbackStart { start: p, end: e, next_pos: e, accumulated })
        },
    }
}

} // verus!
