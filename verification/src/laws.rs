//! Laws of the pattern trie.
//!
//! Properties of registration and search that hold for every pattern,
//! proved here once and for all: search succeeds only at registered
//! terminal nodes; a single registered pattern matches exactly the
//! paths that agree with it segment for segment (literals equal, a
//! `:name` segment free, a final `*name` consuming one or more
//! segments); and registering the same pattern twice leaves the trie
//! as if only the second registration had happened.

use vstd::prelude::*;
use crate::pattern::{seg_is_binding, seg_is_wild, spec_segments};
use crate::trie::{
    NodeView, new_node_view, child_matches, first_match_from, insert_matches, first_insert_match,
    first_insert_match_from, lemma_first_insert_match_some, spec_insert, spec_search,
    spec_search_children,
};
use crate::router::{spec_add_route, spec_route_lookup};

verus! {

/// Insertion never changes a node's own segment or wildcard flag.
proof fn lemma_insert_keeps_shape<T>(
    n: NodeView<T>,
    pattern: Seq<u8>,
    parts: Seq<Seq<u8>>,
    height: int,
    value: T,
)
    requires
        0 <= height <= parts.len(),
    ensures
        spec_insert(n, pattern, parts, height, value).part == n.part,
        spec_insert(n, pattern, parts, height, value).iswild == n.iswild,
{
}

/// Replacing child `j` with one that registration treats the same way
/// leaves the first walked-into index unchanged.
proof fn lemma_first_match_update<T>(
    cs: Seq<NodeView<T>>,
    j: int,
    c: NodeView<T>,
    seg: Seq<u8>,
    i: int,
)
    requires
        0 <= i <= cs.len(),
        0 <= j < cs.len(),
        insert_matches(c, seg) == insert_matches(cs[j], seg),
    ensures
        first_insert_match_from(cs.update(j, c), seg, i) == first_insert_match_from(cs, seg, i),
    decreases cs.len() - i,
{
    if i < cs.len() {
        assert(cs.update(j, c).len() == cs.len());
        if i != j {
            assert(cs.update(j, c)[i] == cs[i]);
        }
        lemma_first_match_update(cs, j, c, seg, i + 1);
    }
}

/// Appending a child: registration walks into the old index if any,
/// else into the new child if it qualifies, else into none.
proof fn lemma_first_match_push<T>(cs: Seq<NodeView<T>>, c: NodeView<T>, seg: Seq<u8>, i: int)
    requires
        0 <= i <= cs.len(),
    ensures
        first_insert_match_from(cs.push(c), seg, i) == (match first_insert_match_from(
            cs,
            seg,
            i,
        ) {
            Some(j) => Some(j),
            None => if insert_matches(c, seg) {
                Some(cs.len() as int)
            } else {
                None
            },
        }),
    decreases cs.len() - i,
{
    assert(cs.push(c).len() == cs.len() + 1);
    if i < cs.len() {
        assert(cs.push(c)[i] == cs[i]);
        lemma_first_match_push(cs, c, seg, i + 1);
    } else {
        assert(cs.push(c)[cs.len() as int] == c);
    }
}

/// Registering the same pattern twice is the same as registering it
/// once with the second handler: the walk takes the same branch both
/// times and the second terminal write overwrites the first.
pub proof fn lemma_insert_twice_overwrites<T>(
    n: NodeView<T>,
    pattern: Seq<u8>,
    parts: Seq<Seq<u8>>,
    height: int,
    v1: T,
    v2: T,
)
    requires
        0 <= height <= parts.len(),
    ensures
        spec_insert(spec_insert(n, pattern, parts, height, v1), pattern, parts, height, v2)
            == spec_insert(n, pattern, parts, height, v2),
    decreases parts.len() - height,
{
    let n1 = spec_insert(n, pattern, parts, height, v1);
    if height >= parts.len() {
        assert(spec_insert(n1, pattern, parts, height, v2) =~= spec_insert(
            n,
            pattern,
            parts,
            height,
            v2,
        ));
    } else {
        let seg = parts[height];
        match first_insert_match(n.children, seg) {
            Some(j) => {
                lemma_first_insert_match_some(n.children, seg, 0, j);
                let c1 = spec_insert(n.children[j], pattern, parts, height + 1, v1);
                lemma_insert_keeps_shape(n.children[j], pattern, parts, height + 1, v1);
                lemma_first_match_update(n.children, j, c1, seg, 0);
                assert(first_insert_match(n1.children, seg) == Some(j));
                lemma_insert_twice_overwrites(n.children[j], pattern, parts, height + 1, v1, v2);
                assert(n1.children[j] == c1);
                assert(n1.children.update(
                    j,
                    spec_insert(c1, pattern, parts, height + 1, v2),
                ) =~= n.children.update(
                    j,
                    spec_insert(n.children[j], pattern, parts, height + 1, v2),
                ));
                assert(spec_insert(n1, pattern, parts, height, v2) =~= spec_insert(
                    n,
                    pattern,
                    parts,
                    height,
                    v2,
                ));
            },
            None => {
                let fresh = new_node_view::<T>(seg);
                let c1 = spec_insert(fresh, pattern, parts, height + 1, v1);
                lemma_insert_keeps_shape(fresh, pattern, parts, height + 1, v1);
                lemma_first_match_push(n.children, c1, seg, 0);
                assert(insert_matches(c1, seg));
                assert(first_insert_match(n1.children, seg) == Some(n.children.len() as int));
                lemma_insert_twice_overwrites(fresh, pattern, parts, height + 1, v1, v2);
                assert(n1.children[n.children.len() as int] == c1);
                assert(n1.children.update(
                    n.children.len() as int,
                    spec_insert(c1, pattern, parts, height + 1, v2),
                ) =~= n.children.push(spec_insert(fresh, pattern, parts, height + 1, v2)));
                assert(spec_insert(n1, pattern, parts, height, v2) =~= spec_insert(
                    n,
                    pattern,
                    parts,
                    height,
                    v2,
                ));
            },
        }
    }
}

/// The route-map face of [`lemma_insert_twice_overwrites`]: adding the
/// same `(method, pattern)` twice with different handlers leaves the
/// routes as if only the second registration had happened.
pub proof fn lemma_add_route_twice_overwrites<T>(
    rm: Map<Seq<u8>, NodeView<T>>,
    method: Seq<u8>,
    pattern: Seq<u8>,
    v1: T,
    v2: T,
)
    ensures
        spec_add_route(spec_add_route(rm, method, pattern, v1), method, pattern, v2)
            == spec_add_route(rm, method, pattern, v2),
{
    let root = if rm.contains_key(method) {
        rm[method]
    } else {
        new_node_view::<T>(Seq::empty())
    };
    let parts = spec_segments(pattern);
    lemma_insert_twice_overwrites(root, pattern, parts, 0, v1, v2);
    assert(spec_add_route(spec_add_route(rm, method, pattern, v1), method, pattern, v2)
        =~= spec_add_route(rm, method, pattern, v2));
}

/// A successful search always stops at a registered terminal node:
/// the node it hands back carries a non-empty pattern.
pub proof fn lemma_search_finds_terminal<T>(n: NodeView<T>, parts: Seq<Seq<u8>>, height: int)
    requires
        0 <= height <= parts.len(),
    ensures
        spec_search(n, parts, height) matches Some(t) ==> t.pattern.len() > 0,
    decreases parts.len() - height, 1int, 0int,
{
    if height < parts.len() && !seg_is_wild(n.part) {
        lemma_search_children_finds_terminal(n.children, parts, height, 0);
    }
}

proof fn lemma_search_children_finds_terminal<T>(
    cs: Seq<NodeView<T>>,
    parts: Seq<Seq<u8>>,
    height: int,
    i: int,
)
    requires
        0 <= height < parts.len(),
        0 <= i <= cs.len(),
    ensures
        spec_search_children(cs, parts, height, i) matches Some(t) ==> t.pattern.len() > 0,
    decreases parts.len() - height, 0int, cs.len() - i,
{
    if i < cs.len() {
        if child_matches(cs[i], parts[height]) {
            lemma_search_finds_terminal(cs[i], parts, height + 1);
        }
        lemma_search_children_finds_terminal(cs, parts, height, i + 1);
    }
}

/// Does `path` agree with the registered pattern `parts` from depth
/// `h` on?  Literal segments must be equal, `:name` segments accept
/// any one path segment, and a final `*name` segment accepts one or
/// more remaining segments.
pub open spec fn pattern_accepts(parts: Seq<Seq<u8>>, path: Seq<Seq<u8>>, h: int) -> bool {
    if parts.len() > h && seg_is_wild(parts[parts.len() - 1]) {
        path.len() >= parts.len() && (forall|i: int|
            h <= i < parts.len() - 1 && !seg_is_binding(#[trigger] parts[i]) ==> path[i]
                == parts[i])
    } else {
        path.len() == parts.len() && (forall|i: int|
            h <= i < parts.len() && !seg_is_binding(#[trigger] parts[i]) ==> path[i] == parts[i])
    }
}

/// Searching the trie that holds exactly one pattern from depth
/// `height` succeeds exactly when the path agrees with the pattern
/// from that depth on, and then finds the pattern's terminal node.
proof fn lemma_single_pattern_chain<T>(
    p: Seq<u8>,
    pattern: Seq<u8>,
    parts: Seq<Seq<u8>>,
    path: Seq<Seq<u8>>,
    height: int,
    v: T,
)
    requires
        0 <= height <= parts.len(),
        0 <= height <= path.len(),
        pattern.len() > 0,
        !seg_is_wild(p),
        forall|i: int| height <= i < parts.len() - 1 ==> !seg_is_wild(#[trigger] parts[i]),
    ensures
        ({
            let n = spec_insert(new_node_view::<T>(p), pattern, parts, height, v);
            let r = spec_search(n, path, height);
            &&& (r is Some <==> pattern_accepts(parts, path, height))
            &&& (r is Some ==> r.unwrap().pattern == pattern && r.unwrap().value == Some(v))
        }),
    decreases parts.len() - height,
{
    let n = spec_insert(new_node_view::<T>(p), pattern, parts, height, v);
    if height == parts.len() {
        if height == path.len() {
        } else {
            assert(spec_search_children(n.children, path, height, 0) is None);
        }
    } else {
        let fresh = new_node_view::<T>(parts[height]);
        let c = spec_insert(fresh, pattern, parts, height + 1, v);
        lemma_insert_keeps_shape(fresh, pattern, parts, height + 1, v);
        assert(first_insert_match(Seq::<NodeView<T>>::empty(), parts[height]) is None);
        assert(n.children =~= seq![c]);
        assert(n.pattern.len() == 0);
        assert(c.part == parts[height]);
        assert(c.iswild == seg_is_binding(parts[height]));
        if seg_is_wild(parts[height]) {
            assert(height == parts.len() - 1);
            if height == path.len() {
                assert(spec_search(n, path, height) is None);
                assert(!pattern_accepts(parts, path, height));
            } else {
                assert(child_matches(c, path[height]));
                assert(seg_is_wild(c.part));
                assert(c.pattern == pattern && c.value == Some(v));
                assert(spec_search(c, path, height + 1) == Some(c));
                assert(spec_search_children(n.children, path, height, 0) == Some(c));
                assert(pattern_accepts(parts, path, height));
            }
        } else {
            if height == path.len() {
                assert(spec_search(n, path, height) is None);
                assert(!pattern_accepts(parts, path, height));
            } else {
                let matched = seg_is_binding(parts[height]) || path[height] == parts[height];
                assert(child_matches(c, path[height]) == matched);
                if matched {
                    lemma_single_pattern_chain(parts[height], pattern, parts, path, height + 1, v);
                    let rr = spec_search(c, path, height + 1);
                    assert(spec_search_children(n.children, path, height, 1) is None);
                    assert(spec_search_children(n.children, path, height, 0) == (match rr {
                        Some(found) => Some(found),
                        None => spec_search_children(n.children, path, height, 1),
                    }));
                    if pattern_accepts(parts, path, height + 1) {
                        assert(pattern_accepts(parts, path, height)) by {
                            if parts.len() > height && seg_is_wild(parts[parts.len() - 1]) {
                                assert forall|i: int|
                                    height <= i < parts.len() - 1 && !seg_is_binding(
                                        #[trigger] parts[i],
                                    ) implies path[i] == parts[i] by {
                                    if i == height {
                                    }
                                }
                            } else {
                                assert forall|i: int|
                                    height <= i < parts.len() && !seg_is_binding(
                                        #[trigger] parts[i],
                                    ) implies path[i] == parts[i] by {
                                    if i == height {
                                    }
                                }
                            }
                        }
                    }
                    if pattern_accepts(parts, path, height) {
                        assert(pattern_accepts(parts, path, height + 1));
                    }
                } else {
                    assert(!child_matches(c, path[height]));
                    assert(spec_search_children(n.children, path, height, 1) is None);
                    assert(spec_search_children(n.children, path, height, 0) is None);
                    assert(spec_search(n, path, height) is None);
                    assert(!pattern_accepts(parts, path, height)) by {
                        if parts.len() > height && seg_is_wild(parts[parts.len() - 1]) {
                            assert(height < parts.len() - 1);
                        }
                    }
                }
            }
        }
    }
}

/// A single registered pattern matches exactly the paths that agree
/// with it segment for segment: a literal segment accepts only its own
/// text, a `:name` segment accepts any one path segment, and a final
/// `*name` segment accepts one or more remaining segments.  The match
/// is the pattern's terminal node with its bound handler.
pub proof fn lemma_single_pattern_exact<T>(
    pattern: Seq<u8>,
    parts: Seq<Seq<u8>>,
    path: Seq<Seq<u8>>,
    v: T,
)
    requires
        pattern.len() > 0,
        forall|i: int| 0 <= i < parts.len() - 1 ==> !seg_is_wild(#[trigger] parts[i]),
    ensures
        ({
            let n = spec_insert(new_node_view::<T>(Seq::empty()), pattern, parts, 0, v);
            let r = spec_search(n, path, 0);
            &&& (r is Some <==> pattern_accepts(parts, path, 0))
            &&& (r is Some ==> r.unwrap().pattern == pattern && r.unwrap().value == Some(v))
        }),
{
    lemma_single_pattern_chain(Seq::empty(), pattern, parts, path, 0, v);
}

/// A pattern with only literal segments matches a path exactly when
/// the path's segments equal the pattern's, segment for segment; the
/// match is the pattern's terminal node with its bound handler.  Any
/// path of different length or content does not match.
pub proof fn lemma_literal_pattern_exact<T>(
    pattern: Seq<u8>,
    parts: Seq<Seq<u8>>,
    path: Seq<Seq<u8>>,
    v: T,
)
    requires
        pattern.len() > 0,
        forall|i: int| 0 <= i < parts.len() ==> !seg_is_binding(#[trigger] parts[i]),
    ensures
        ({
            let n = spec_insert(new_node_view::<T>(Seq::empty()), pattern, parts, 0, v);
            let r = spec_search(n, path, 0);
            &&& (r is Some <==> path == parts)
            &&& (r is Some ==> r.unwrap().pattern == pattern && r.unwrap().value == Some(v))
        }),
{
    lemma_single_pattern_exact(pattern, parts, path, v);
    if parts.len() > 0 {
        assert(!seg_is_binding(parts[parts.len() - 1]));
    }
    if pattern_accepts(parts, path, 0) {
        assert(path =~= parts);
    }
    if path == parts {
        assert(pattern_accepts(parts, path, 0));
    }
}

/// The route-map face of [`lemma_single_pattern_exact`]: a route map
/// holding exactly one registered route resolves a request exactly
/// when the method is the route's and the path agrees with its
/// pattern, and then hands back the registered handler.
pub proof fn lemma_single_route_exact<T>(
    method: Seq<u8>,
    pattern: Seq<u8>,
    lookup_method: Seq<u8>,
    path: Seq<u8>,
    v: T,
)
    requires
        pattern.len() > 0,
    ensures
        ({
            let rm = spec_add_route(Map::<Seq<u8>, NodeView<T>>::empty(), method, pattern, v);
            let r = spec_route_lookup(rm, lookup_method, path);
            &&& lookup_method != method ==> r is None
            &&& lookup_method == method ==> (r is Some <==> pattern_accepts(
                spec_segments(pattern),
                spec_segments(path),
                0,
            ))
            &&& (r is Some ==> r.unwrap().pattern == pattern && r.unwrap().value == Some(v))
        }),
{
    let rm = spec_add_route(Map::<Seq<u8>, NodeView<T>>::empty(), method, pattern, v);
    crate::pattern::lemma_segments_wild_only_last(pattern, 0);
    lemma_single_pattern_exact(pattern, spec_segments(pattern), spec_segments(path), v);
}

} // verus!
