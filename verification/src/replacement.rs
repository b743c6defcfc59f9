//! Expansion of replacement patterns (`$&`, `` $` ``, `$'`, `$1`..`$99`) for a
//! regular-expression match, over UTF-8 bytes.
use vstd::prelude::*;
use crate::text::push_range;

verus! {

/// `b` is an ASCII decimal digit.
pub open spec fn is_ascii_digit(b: u8) -> bool {
    48 <= b <= 57
}

/// Both parts are defined: their concatenation; else undefined.
pub open spec fn cat(a: Option<Seq<u8>>, b: Option<Seq<u8>>) -> Option<Seq<u8>> {
    match (a, b) {
        (Some(x), Some(y)) => Some(x + y),
        _ => None,
    }
}

/// The text of capture group `n` of a match in `s`, when the group exists and
/// its bounds lie in `s`.
pub open spec fn group_text(s: Seq<u8>, g: Seq<(usize, usize)>, n: int) -> Option<Seq<u8>> {
    if 0 <= n < g.len() && g[n].0 <= g[n].1 && g[n].1 <= s.len() {
        Some(s.subrange(g[n].0 as int, g[n].1 as int))
    } else {
        None
    }
}

/// The text of `s` before the match.
pub open spec fn before_match(s: Seq<u8>, g: Seq<(usize, usize)>) -> Option<Seq<u8>> {
    if g.len() >= 1 && g[0].0 <= s.len() {
        Some(s.take(g[0].0 as int))
    } else {
        None
    }
}

/// The text of `s` after the match.
pub open spec fn after_match(s: Seq<u8>, g: Seq<(usize, usize)>) -> Option<Seq<u8>> {
    if g.len() >= 1 && g[0].1 <= s.len() {
        Some(s.skip(g[0].1 as int))
    } else {
        None
    }
}

/// The expansion of the replacement pattern `r` from position `i` on, for the
/// match with groups `g` in `s`. `$&` is the match, `` $` `` the text before
/// it, `$'` the text after it, `$n` / `$nn` a capture group numbered from 1
/// (two digits when they name an existing group); any other `$x`, `$0` among
/// them, stays as written, and a final `$` stands for itself. Undefined where a named part of `s` does not exist.
pub open spec fn expand_from(s: Seq<u8>, g: Seq<(usize, usize)>, r: Seq<u8>, i: int) -> Option<Seq<u8>>
    decreases r.len() - i,
{
    if i < 0 || i >= r.len() {
        Some(Seq::empty())
    } else if r[i] != 36 {
        cat(Some(seq![r[i]]), expand_from(s, g, r, i + 1))
    } else if i + 1 >= r.len() {
        Some(seq![36u8])
    } else {
        let c = r[i + 1];
        if c == 38 {
            cat(group_text(s, g, 0), expand_from(s, g, r, i + 2))
        } else if c == 96 {
            cat(before_match(s, g), expand_from(s, g, r, i + 2))
        } else if c == 39 {
            cat(after_match(s, g), expand_from(s, g, r, i + 2))
        } else if is_ascii_digit(c) {
            let d = c - 48;
            if i + 2 < r.len() && is_ascii_digit(r[i + 2]) && 1 <= d * 10 + (r[i + 2] - 48) < g.len() {
                cat(group_text(s, g, d * 10 + (r[i + 2] - 48)), expand_from(s, g, r, i + 3))
            } else if 1 <= d < g.len() {
                cat(group_text(s, g, d), expand_from(s, g, r, i + 2))
            } else {
                cat(Some(seq![36u8, c]), expand_from(s, g, r, i + 2))
            }
        } else {
            cat(Some(seq![36u8, c]), expand_from(s, g, r, i + 2))
        }
    }
}

/// The expansion of the whole replacement pattern `r`.
pub open spec fn expansion(s: Seq<u8>, g: Seq<(usize, usize)>, r: Seq<u8>) -> Option<Seq<u8>> {
    expand_from(s, g, r, 0)
}

proof fn lemma_cat_assoc(a: Seq<u8>, b: Seq<u8>, x: Option<Seq<u8>>)
    ensures
        cat(Some(a), cat(Some(b), x)) == cat(Some(a + b), x),
{
    if x is Some {
        assert(a + (b + x->0) =~= (a + b) + x->0);
    }
}

/// A pattern without `$` expands to itself, whatever the match.
pub proof fn law_plain_pattern(s: Seq<u8>, g: Seq<(usize, usize)>, r: Seq<u8>)
    requires
        forall|k: int| 0 <= k < r.len() ==> r[k] != 36,
    ensures
        expansion(s, g, r) == Some(r),
{
    lemma_plain_from(s, g, r, 0);
    assert(r.skip(0) =~= r);
}

proof fn lemma_plain_from(s: Seq<u8>, g: Seq<(usize, usize)>, r: Seq<u8>, i: int)
    requires
        0 <= i <= r.len(),
        forall|k: int| 0 <= k < r.len() ==> r[k] != 36,
    ensures
        expand_from(s, g, r, i) == Some(r.skip(i)),
    decreases r.len() - i,
{
    if i < r.len() {
        lemma_plain_from(s, g, r, i + 1);
        assert(seq![r[i]] + r.skip(i + 1) =~= r.skip(i));
    } else {
        assert(r.skip(i) =~= Seq::<u8>::empty());
    }
}

/// Expand the replacement pattern `replacement` for the match with capture
/// groups `groups` (byte ranges, group 0 the whole match) in `s`.
pub fn expand_replacement(s: &[u8], groups: &[(usize, usize)], replacement: &[u8]) -> (r: Vec<u8>)
    requires
        expansion(s@, groups@, replacement@) is Some,
    ensures
        Some(r@) == expansion(s@, groups@, replacement@),
{
    let n = replacement.len();
    let sl = s.len();
    let gl = groups.len();
    let mut out: Vec<u8> = Vec::new();
    let mut i: usize = 0;
    while i < n
        invariant
            n == replacement@.len(),
            sl == s@.len(),
            gl == groups@.len(),
            i <= n,
            expansion(s@, groups@, replacement@) == cat(
                Some(out@),
                expand_from(s@, groups@, replacement@, i as int),
            ),
            expansion(s@, groups@, replacement@) is Some,
        decreases n - i,
    {
        let ghost before = out@;
        let c = replacement[i];
        if c != 36 {
            proof {
                lemma_cat_assoc(before, seq![c], expand_from(s@, groups@, replacement@, i + 1));
            }
            out.push(c);
            i = i + 1;
        } else if i + 1 >= n {
            out.push(36u8);
            i = i + 1;
        } else {
            let d = replacement[i + 1];
            let ghost rest2 = expand_from(s@, groups@, replacement@, i + 2);
            if d == 38 {
                let (gs, ge) = groups[0];
                proof {
                    lemma_cat_assoc(before, s@.subrange(gs as int, ge as int), rest2);
                }
                push_range(&mut out, s, gs, ge);
                i = i + 2;
            } else if d == 96 {
                let (gs, _ge) = groups[0];
                proof {
                    lemma_cat_assoc(before, s@.take(gs as int), rest2);
                    assert(s@.subrange(0, gs as int) =~= s@.take(gs as int));
                }
                push_range(&mut out, s, 0, gs);
                i = i + 2;
            } else if d == 39 {
                let (_gs, ge) = groups[0];
                proof {
                    lemma_cat_assoc(before, s@.skip(ge as int), rest2);
                    assert(s@.subrange(ge as int, sl as int) =~= s@.skip(ge as int));
                }
                push_range(&mut out, s, ge, sl);
                i = i + 2;
            } else if 48 <= d && d <= 57 {
                let first = (d - 48) as usize;
                let mut two_digit = false;
                if i + 2 < n {
                    let d2 = replacement[i + 2];
                    if 48 <= d2 && d2 <= 57 {
                        let combined = first * 10 + (d2 - 48) as usize;
                        if 1 <= combined && combined < gl {
                            let (gs, ge) = groups[combined];
                            proof {
                                lemma_cat_assoc(
                                    before,
                                    s@.subrange(gs as int, ge as int),
                                    expand_from(s@, groups@, replacement@, i + 3),
                                );
                            }
                            push_range(&mut out, s, gs, ge);
                            i = i + 3;
                            two_digit = true;
                        }
                    }
                }
                if !two_digit {
                    if 1 <= first && first < gl {
                        let (gs, ge) = groups[first];
                        proof {
                            lemma_cat_assoc(before, s@.subrange(gs as int, ge as int), rest2);
                        }
                        push_range(&mut out, s, gs, ge);
                    } else {
                        proof {
                            lemma_cat_assoc(before, seq![36u8, d], rest2);
                        }
                        out.push(36u8);
                        out.push(d);
                        assert(out@ =~= before + seq![36u8, d]);
                    }
                    i = i + 2;
                }
            } else {
                proof {
                    lemma_cat_assoc(before, seq![36u8, d], rest2);
                }
                out.push(36u8);
                out.push(d);
                assert(out@ =~= before + seq![36u8, d]);
                i = i + 2;
            }
        }
    }
    assert(out@ + Seq::<u8>::empty() =~= out@);
    out
}

} // verus!
