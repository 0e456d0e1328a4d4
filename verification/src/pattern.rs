//! Pattern and path segmentation.
//!
//! A pattern or request path is split on `/` into segments; empty segments
//! are dropped.  Splitting a pattern stops after the first wildcard segment
//! (`*name`): a wildcard consumes everything that follows, so later
//! segments are never registered.  A `:name` segment binds one path
//! segment; a `*name` segment binds the join of all remaining ones.

use vstd::prelude::*;
use crate::text::{SLASH, COLON, STAR, copy_range, push_all};

verus! {

/// The mathematical value of a sequence of byte vectors.
pub open spec fn views(s: Seq<Vec<u8>>) -> Seq<Seq<u8>> {
    s.map_values(|v: Vec<u8>| v@)
}

/// The segment binds one path segment (`:name`).
pub open spec fn seg_is_param(s: Seq<u8>) -> bool {
    s.len() > 0 && s[0] == COLON
}

/// The segment is a wildcard (`*name`).
pub open spec fn seg_is_wild(s: Seq<u8>) -> bool {
    s.len() > 0 && s[0] == STAR
}

/// The segment binds a parameter, either one segment or the rest.
pub open spec fn seg_is_binding(s: Seq<u8>) -> bool {
    seg_is_param(s) || seg_is_wild(s)
}

/// Index of the first `/` at or after `i`, or the length of `s`.
pub open spec fn token_end(s: Seq<u8>, i: int) -> int
    decreases s.len() - i when 0 <= i <= s.len()
{
    if i >= s.len() {
        s.len() as int
    } else if s[i] == SLASH {
        i
    } else {
        token_end(s, i + 1)
    }
}

pub proof fn lemma_token_end(s: Seq<u8>, i: int)
    requires
        0 <= i <= s.len(),
    ensures
        i <= token_end(s, i) <= s.len(),
        forall|k: int| i <= k < token_end(s, i) ==> s[k] != SLASH,
        token_end(s, i) < s.len() ==> s[token_end(s, i)] == SLASH,
    decreases s.len() - i,
{
    if i < s.len() && s[i] != SLASH {
        lemma_token_end(s, i + 1);
    }
}

/// The segments of `s` from position `i` on: `/`-separated tokens, empty
/// tokens dropped, cut short after the first wildcard token.
pub open spec fn spec_segments_from(s: Seq<u8>, i: int) -> Seq<Seq<u8>>
    decreases s.len() - i when 0 <= i <= s.len() via spec_segments_from_decreases
{
    if i >= s.len() {
        Seq::empty()
    } else if s[i] == SLASH {
        spec_segments_from(s, i + 1)
    } else {
        let tok = s.subrange(i, token_end(s, i));
        if seg_is_wild(tok) {
            seq![tok]
        } else {
            seq![tok] + spec_segments_from(s, token_end(s, i))
        }
    }
}

#[via_fn]
proof fn spec_segments_from_decreases(s: Seq<u8>, i: int) {
    if 0 <= i < s.len() && s[i] != SLASH {
        lemma_token_end(s, i + 1);
    }
}

/// The segments of a whole pattern or path.
pub open spec fn spec_segments(s: Seq<u8>) -> Seq<Seq<u8>> {
    spec_segments_from(s, 0)
}

/// Finds the end of the token that starts at `i`.
fn find_token_end(s: &[u8], i: usize) -> (j: usize)
    requires
        i <= s@.len(),
    ensures
        j == token_end(s@, i as int),
        i <= j <= s@.len(),
{
    let mut j: usize = i;
    while j < s.len() && s[j] != SLASH
        invariant
            i <= j <= s@.len(),
            token_end(s@, i as int) == token_end(s@, j as int),
        decreases s@.len() - j,
    {
        j = j + 1;
    }
    proof {
        lemma_token_end(s@, j as int);
    }
    j
}

/// Splits from position `i` on, mirroring [`spec_segments_from`].
fn split_segments_from(s: &[u8], i: usize) -> (r: Vec<Vec<u8>>)
    requires
        i <= s@.len(),
    ensures
        views(r@) == spec_segments_from(s@, i as int),
    decreases s@.len() - i,
{
    if i >= s.len() {
        let r: Vec<Vec<u8>> = Vec::new();
        assert(views(r@) =~= spec_segments_from(s@, i as int));
        r
    } else if s[i] == SLASH {
        split_segments_from(s, i + 1)
    } else {
        let j = find_token_end(s, i);
        proof {
            lemma_token_end(s@, i as int + 1);
            assert(token_end(s@, i as int) == token_end(s@, i as int + 1));
        }
        let tok = copy_range(s, i, j);
        if tok[0] == STAR {
            assert(seg_is_wild(tok@));
            let mut r: Vec<Vec<u8>> = Vec::new();
            r.push(tok);
            assert(views(r@) =~= spec_segments_from(s@, i as int));
            r
        } else {
            assert(!seg_is_wild(tok@));
            let mut r = split_segments_from(s, j);
            let ghost rest = views(r@);
            r.insert(0, tok);
            assert(views(r@) =~= seq![tok@] + rest);
            r
        }
    }
}

/// Splitting stops after the first wildcard token: only the last
/// segment of a split can be a wildcard.
pub proof fn lemma_segments_wild_only_last(s: Seq<u8>, i: int)
    requires
        0 <= i <= s.len(),
    ensures
        forall|k: int|
            0 <= k < spec_segments_from(s, i).len() - 1 ==> !seg_is_wild(
                #[trigger] spec_segments_from(s, i)[k],
            ),
    decreases s.len() - i,
{
    if i < s.len() {
        if s[i] == SLASH {
            lemma_segments_wild_only_last(s, i + 1);
            assert forall|k: int|
                0 <= k < spec_segments_from(s, i).len() - 1 implies !seg_is_wild(
                #[trigger] spec_segments_from(s, i)[k],
            ) by {
                assert(spec_segments_from(s, i)[k] == spec_segments_from(s, i + 1)[k]);
                assert(!seg_is_wild(spec_segments_from(s, i + 1)[k]));
            }
        } else {
            lemma_token_end(s, i);
            assert(token_end(s, i) > i) by {
                assert(token_end(s, i) == token_end(s, i + 1));
                lemma_token_end(s, i + 1);
            }
            let tok = s.subrange(i, token_end(s, i));
            if !seg_is_wild(tok) {
                lemma_segments_wild_only_last(s, token_end(s, i));
                let rest = spec_segments_from(s, token_end(s, i));
                assert(spec_segments_from(s, i) == seq![tok] + rest);
                assert(spec_segments_from(s, i).len() == 1 + rest.len());
                assert forall|k: int|
                    0 <= k < spec_segments_from(s, i).len() - 1 implies !seg_is_wild(
                    #[trigger] spec_segments_from(s, i)[k],
                ) by {
                    if k > 0 {
                        assert(0 <= k - 1 < rest.len() - 1);
                        assert(spec_segments_from(s, i)[k] == rest[k - 1]);
                        assert(!seg_is_wild(rest[k - 1]));
                    } else {
                        assert(spec_segments_from(s, i)[0] == tok);
                    }
                }
            }
        }
    }
}

/// Splits a pattern or path into its segments.
pub fn split_segments(s: &[u8]) -> (r: Vec<Vec<u8>>)
    ensures
        views(r@) == spec_segments(s@),
{
    split_segments_from(s, 0)
}

/// The parameter bindings of a pattern's segments from position `i` on:
/// each binding segment, with the position it stands at.
pub open spec fn spec_bindings_from(parts: Seq<Seq<u8>>, i: int) -> Seq<(int, Seq<u8>)>
    decreases parts.len() - i when 0 <= i <= parts.len()
{
    if i >= parts.len() {
        Seq::empty()
    } else if seg_is_binding(parts[i]) {
        seq![(i, parts[i])] + spec_bindings_from(parts, i + 1)
    } else {
        spec_bindings_from(parts, i + 1)
    }
}

/// All parameter bindings of a pattern's segments.
pub open spec fn spec_bindings(parts: Seq<Seq<u8>>) -> Seq<(int, Seq<u8>)> {
    spec_bindings_from(parts, 0)
}

/// The mathematical value of a vector of bindings.
pub open spec fn bindings_view(s: Seq<(usize, Vec<u8>)>) -> Seq<(int, Seq<u8>)> {
    s.map_values(|p: (usize, Vec<u8>)| (p.0 as int, p.1@))
}

/// Collects the bindings from position `i` on, mirroring
/// [`spec_bindings_from`].
fn compute_bindings_from(parts: &Vec<Vec<u8>>, i: usize) -> (r: Vec<(usize, Vec<u8>)>)
    requires
        i <= parts@.len(),
    ensures
        bindings_view(r@) == spec_bindings_from(views(parts@), i as int),
    decreases parts@.len() - i,
{
    if i >= parts.len() {
        let r: Vec<(usize, Vec<u8>)> = Vec::new();
        assert(bindings_view(r@) =~= spec_bindings_from(views(parts@), i as int));
        r
    } else {
        let seg = &parts[i];
        let is_binding = seg.len() > 0 && (seg[0] == COLON || seg[0] == STAR);
        assert(is_binding == seg_is_binding(views(parts@)[i as int]));
        let mut r = compute_bindings_from(parts, i + 1);
        if is_binding {
            let ghost rest = bindings_view(r@);
            let copy = copy_range(seg.as_slice(), 0, seg.len());
            proof {
                assert(copy@ =~= seg@);
                assert(copy@ == views(parts@)[i as int]);
            }
            r.insert(0, (i, copy));
            assert(bindings_view(r@) =~= seq![(i as int, copy@)] + rest);
            assert(spec_bindings_from(views(parts@), i as int) == seq![
                (i as int, views(parts@)[i as int]),
            ] + spec_bindings_from(views(parts@), i as int + 1));
        } else {
            assert(spec_bindings_from(views(parts@), i as int) == spec_bindings_from(
                views(parts@),
                i as int + 1,
            ));
        }
        r
    }
}

/// Collects the parameter bindings of a pattern's segments.
pub fn compute_bindings(parts: &Vec<Vec<u8>>) -> (r: Vec<(usize, Vec<u8>)>)
    ensures
        bindings_view(r@) == spec_bindings(views(parts@)),
{
    compute_bindings_from(parts, 0)
}

/// The segments from position `i` on, joined with `/`.  Zero segments
/// join to the empty string.
pub open spec fn spec_join_from(parts: Seq<Seq<u8>>, i: int) -> Seq<u8>
    decreases parts.len() - i when 0 <= i <= parts.len()
{
    if i >= parts.len() {
        Seq::empty()
    } else if i == parts.len() - 1 {
        parts[i]
    } else {
        parts[i] + seq![SLASH] + spec_join_from(parts, i + 1)
    }
}

/// What remains to be appended once the segments before `i` are already
/// joined: a `/` and a segment for each remaining position.
pub open spec fn spec_join_tail(parts: Seq<Seq<u8>>, i: int) -> Seq<u8>
    decreases parts.len() - i when 0 <= i <= parts.len()
{
    if i >= parts.len() {
        Seq::empty()
    } else {
        seq![SLASH] + parts[i] + spec_join_tail(parts, i + 1)
    }
}

proof fn lemma_join_unfold(parts: Seq<Seq<u8>>, i: int)
    requires
        0 <= i < parts.len(),
    ensures
        spec_join_from(parts, i) =~= parts[i] + spec_join_tail(parts, i + 1),
    decreases parts.len() - i,
{
    if i < parts.len() - 1 {
        lemma_join_unfold(parts, i + 1);
    }
}

/// Joins the segments from position `from` on with `/`, mirroring
/// [`spec_join_from`].
pub fn join_segments(parts: &Vec<Vec<u8>>, from: usize) -> (r: Vec<u8>)
    requires
        from <= parts@.len(),
    ensures
        r@ == spec_join_from(views(parts@), from as int),
{
    let ghost pdv = views(parts@);
    let mut r: Vec<u8> = Vec::new();
    if from >= parts.len() {
        assert(r@ =~= spec_join_from(pdv, from as int));
        return r;
    }
    push_all(&mut r, parts[from].as_slice());
    proof {
        lemma_join_unfold(pdv, from as int);
        assert(r@ =~= pdv[from as int]);
    }
    let mut i: usize = from + 1;
    while i < parts.len()
        invariant
            from < i <= parts@.len(),
            pdv == views(parts@),
            spec_join_from(pdv, from as int) =~= r@ + spec_join_tail(pdv, i as int),
        decreases parts@.len() - i,
    {
        let ghost r0 = r@;
        r.push(SLASH);
        push_all(&mut r, parts[i].as_slice());
        proof {
            assert(r@ =~= r0 + (seq![SLASH] + pdv[i as int]));
            assert(spec_join_tail(pdv, i as int) == seq![SLASH] + pdv[i as int] + spec_join_tail(
                pdv,
                i as int + 1,
            ));
            assert(r0 + spec_join_tail(pdv, i as int) =~= r@ + spec_join_tail(pdv, i as int + 1));
        }
        i = i + 1;
    }
    proof {
        assert(spec_join_tail(pdv, i as int) =~= Seq::empty());
        assert(r@ + spec_join_tail(pdv, i as int) =~= r@);
    }
    r
}

} // verus!
