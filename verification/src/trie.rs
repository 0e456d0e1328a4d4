//! Trie of path segments for route matching.
//!
//! Each node carries one segment (`part`); a node whose registered
//! pattern (`pattern`) is non-empty is a terminal node and holds the
//! bound handler value together with the pattern's precomputed parameter
//! bindings.  Children are kept in insertion order; a `:name` or `*name`
//! child is marked `iswild` and matches any path segment, so siblings
//! are tried in order with backtracking.

use vstd::prelude::*;
use crate::text::{COLON, STAR, bytes_eq, copy_range};
use crate::pattern::{
    seg_is_binding, seg_is_wild, spec_bindings, bindings_view, views, compute_bindings,
};

verus! {

/// One trie node.
pub struct Node<T> {
    /// The registered pattern; empty at non-terminal nodes.
    pub pattern: Vec<u8>,
    /// The path segment this node stands for; empty at the root.
    pub part: Vec<u8>,
    /// Child nodes, in insertion order.
    pub children: Vec<Node<T>>,
    /// The segment is `:name` or `*name` and matches any path segment.
    pub iswild: bool,
    /// The bound handler; present only at terminal nodes.
    pub value: Option<T>,
    /// Parameter bindings of `pattern`, precomputed at registration.
    pub params: Vec<(usize, Vec<u8>)>,
}

/// The mathematical value of a [`Node`].
#[verifier::ext_equal]
pub struct NodeView<T> {
    pub pattern: Seq<u8>,
    pub part: Seq<u8>,
    pub children: Seq<NodeView<T>>,
    pub iswild: bool,
    pub value: Option<T>,
    pub params: Seq<(int, Seq<u8>)>,
}

impl<T> Node<T> {
    /// The mathematical value of this node and its subtree.
    pub open spec fn view(self) -> NodeView<T>
        decreases self, 0int,
    {
        NodeView {
            pattern: self.pattern@,
            part: self.part@,
            children: children_views(self.children@, 0),
            iswild: self.iswild,
            value: self.value,
            params: bindings_view(self.params@),
        }
    }
}

/// The mathematical values of the nodes of `cs` from position `i` on.
pub open spec fn children_views<T>(cs: Seq<Node<T>>, i: int) -> Seq<NodeView<T>>
    decreases cs, cs.len() - i when 0 <= i <= cs.len()
{
    if i >= cs.len() {
        Seq::empty()
    } else {
        seq![cs[i].view()] + children_views(cs, i + 1)
    }
}

/// `children_views` is the element-wise view of `cs`.
pub proof fn lemma_children_views_from<T>(cs: Seq<Node<T>>, i: int)
    requires
        0 <= i <= cs.len(),
    ensures
        children_views(cs, i).len() == cs.len() - i,
        forall|k: int| i <= k < cs.len() ==> children_views(cs, i)[k - i] == cs[k].view(),
    decreases cs.len() - i,
{
    if i < cs.len() {
        lemma_children_views_from(cs, i + 1);
    }
}

/// The whole-children case of [`lemma_children_views_from`].
pub proof fn lemma_children_views<T>(cs: Seq<Node<T>>)
    ensures
        children_views(cs, 0).len() == cs.len(),
        forall|k: int| 0 <= k < cs.len() ==> children_views(cs, 0)[k] == cs[k].view(),
{
    lemma_children_views_from(cs, 0);
    assert forall|k: int| 0 <= k < cs.len() implies children_views(cs, 0)[k] == cs[k].view() by {
        assert(children_views(cs, 0)[k - 0] == cs[k].view());
    }
}

/// A fresh node for segment `seg`: nothing registered below it yet.
pub open spec fn new_node_view<T>(seg: Seq<u8>) -> NodeView<T> {
    NodeView {
        pattern: Seq::empty(),
        part: seg,
        children: Seq::empty(),
        iswild: seg_is_binding(seg),
        value: None,
        params: Seq::empty(),
    }
}

/// Does child `c` accept path segment `seg` during a search?  A
/// wildcard-flagged child (`:name` or `*name`) accepts any segment.
pub open spec fn child_matches<T>(c: NodeView<T>, seg: Seq<u8>) -> bool {
    c.part == seg || c.iswild
}

/// Does registration walk into child `c` for pattern segment `seg`?  A
/// literal segment walks only into the child with the same segment; a
/// `:name` or `*name` segment also walks into an existing
/// wildcard-flagged child, whatever its name — patterns at the same
/// depth with different parameter names share one child node, and the
/// last registration wins there.
pub open spec fn insert_matches<T>(c: NodeView<T>, seg: Seq<u8>) -> bool {
    c.part == seg || (c.iswild && seg_is_binding(seg))
}

/// Index of the first child at or after `i` that a search for `seg`
/// tries.
pub open spec fn first_match_from<T>(cs: Seq<NodeView<T>>, seg: Seq<u8>, i: int) -> Option<int>
    decreases cs.len() - i when 0 <= i <= cs.len()
{
    if i >= cs.len() {
        None
    } else if child_matches(cs[i], seg) {
        Some(i)
    } else {
        first_match_from(cs, seg, i + 1)
    }
}

/// Index of the first child that registration walks into for `seg`.
pub open spec fn first_insert_match_from<T>(
    cs: Seq<NodeView<T>>,
    seg: Seq<u8>,
    i: int,
) -> Option<int>
    decreases cs.len() - i when 0 <= i <= cs.len()
{
    if i >= cs.len() {
        None
    } else if insert_matches(cs[i], seg) {
        Some(i)
    } else {
        first_insert_match_from(cs, seg, i + 1)
    }
}

/// Index of the first child that registration walks into for `seg`.
pub open spec fn first_insert_match<T>(cs: Seq<NodeView<T>>, seg: Seq<u8>) -> Option<int> {
    first_insert_match_from(cs, seg, 0)
}

/// What registering `pattern` (already split into `parts`) below `n`,
/// starting at depth `height`, makes of `n`.
///
/// At the final depth the node becomes terminal: pattern, value and
/// bindings are overwritten.  Otherwise the walk descends into the first
/// child that accepts the current segment, creating a fresh child when
/// none does.
pub open spec fn spec_insert<T>(
    n: NodeView<T>,
    pattern: Seq<u8>,
    parts: Seq<Seq<u8>>,
    height: int,
    value: T,
) -> NodeView<T>
    decreases parts.len() - height when 0 <= height <= parts.len()
{
    if height >= parts.len() {
        NodeView { pattern: pattern, value: Some(value), params: spec_bindings(parts), ..n }
    } else {
        match first_insert_match(n.children, parts[height]) {
            Some(j) => NodeView {
                children: n.children.update(
                    j,
                    spec_insert(n.children[j], pattern, parts, height + 1, value),
                ),
                ..n
            },
            None => NodeView {
                children: n.children.push(
                    spec_insert(new_node_view(parts[height]), pattern, parts, height + 1, value),
                ),
                ..n
            },
        }
    }
}

/// The terminal node that searching `parts` from depth `height` below
/// `n` finds, if any.
///
/// The search ends at `n` when all segments are consumed or `n` is a
/// wildcard node; it succeeds only at terminal nodes.  Otherwise the
/// children that accept the current segment are tried in insertion
/// order, backtracking on failure.
pub open spec fn spec_search<T>(n: NodeView<T>, parts: Seq<Seq<u8>>, height: int) -> Option<
    NodeView<T>,
>
    decreases parts.len() - height, 1int, 0int when 0 <= height <= parts.len()
{
    if height >= parts.len() || seg_is_wild(n.part) {
        if n.pattern.len() == 0 {
            None
        } else {
            Some(n)
        }
    } else {
        spec_search_children(n.children, parts, height, 0)
    }
}

/// Tries the children at or after `i` in order.
pub open spec fn spec_search_children<T>(
    cs: Seq<NodeView<T>>,
    parts: Seq<Seq<u8>>,
    height: int,
    i: int,
) -> Option<NodeView<T>>
    decreases parts.len() - height, 0int, cs.len() - i when 0 <= height < parts.len() && 0 <= i
        <= cs.len()
{
    if i >= cs.len() {
        None
    } else if child_matches(cs[i], parts[height]) {
        match spec_search(cs[i], parts, height + 1) {
            Some(found) => Some(found),
            None => spec_search_children(cs, parts, height, i + 1),
        }
    } else {
        spec_search_children(cs, parts, height, i + 1)
    }
}

/// All patterns registered at or below `n`, in pre-order.
pub open spec fn spec_patterns<T>(n: NodeView<T>) -> Seq<Seq<u8>>
    decreases n, 0int,
{
    let own: Seq<Seq<u8>> = if n.pattern.len() > 0 {
        seq![n.pattern]
    } else {
        Seq::empty()
    };
    own + spec_patterns_children(n.children, 0)
}

/// The patterns registered below the children of `cs` from position `i`.
pub open spec fn spec_patterns_children<T>(cs: Seq<NodeView<T>>, i: int) -> Seq<Seq<u8>>
    decreases cs, cs.len() - i when 0 <= i <= cs.len()
{
    if i >= cs.len() {
        Seq::empty()
    } else {
        spec_patterns(cs[i]) + spec_patterns_children(cs, i + 1)
    }
}

/// Finds the first child of `cs` at or after `i` that registration
/// walks into for `seg`, mirroring [`first_insert_match_from`].
fn find_child<T>(cs: &Vec<Node<T>>, seg: &[u8], i: usize) -> (r: Option<usize>)
    requires
        i <= cs@.len(),
    ensures
        match r {
            Some(j) => first_insert_match_from(children_views(cs@, 0), seg@, i as int) == Some(
                j as int,
            ) && i <= j < cs@.len(),
            None => first_insert_match_from(children_views(cs@, 0), seg@, i as int) is None,
        },
    decreases cs@.len() - i,
{
    proof {
        lemma_children_views(cs@);
    }
    let seg_binding = seg.len() > 0 && (seg[0] == COLON || seg[0] == STAR);
    assert(seg_binding == seg_is_binding(seg@));
    if i >= cs.len() {
        None
    } else {
        let c = &cs[i];
        if (c.iswild && seg_binding) || bytes_eq(c.part.as_slice(), seg) {
            assert(insert_matches(children_views(cs@, 0)[i as int], seg@));
            Some(i)
        } else {
            assert(!insert_matches(children_views(cs@, 0)[i as int], seg@));
            find_child(cs, seg, i + 1)
        }
    }
}

impl<T> Node<T> {
    /// A node with nothing registered: the root of an empty trie.
    pub fn new() -> (r: Self)
        ensures
            r.view() == new_node_view::<T>(Seq::empty()),
    {
        let r = Node {
            pattern: Vec::new(),
            part: Vec::new(),
            children: Vec::new(),
            iswild: false,
            value: None,
            params: Vec::new(),
        };
        assert(r.view() =~= new_node_view::<T>(Seq::empty()));
        r
    }

    /// Registers `pattern` (split into `parts`) below this node, walking
    /// from depth `height`.  Re-registering a pattern overwrites the
    /// terminal node's handler, pattern and bindings.
    pub fn insert(&mut self, pattern: &[u8], parts: &Vec<Vec<u8>>, height: usize, value: T)
        requires
            height <= parts@.len(),
        ensures
            final(self).view() == spec_insert(
                old(self).view(),
                pattern@,
                views(parts@),
                height as int,
                value,
            ),
        decreases parts@.len() - height,
    {
        if height == parts.len() {
            self.pattern = copy_range(pattern, 0, pattern.len());
            self.value = Some(value);
            self.params = compute_bindings(parts);
            proof {
                assert(self.pattern@ =~= pattern@);
                assert(final(self).view() =~= spec_insert(
                    old(self).view(),
                    pattern@,
                    views(parts@),
                    height as int,
                    value,
                ));
            }
            return;
        }
        let plen = parts.len();
        let seg = parts[height].as_slice();
        assert(seg@ == views(parts@)[height as int]);
        match find_child(&self.children, seg, 0) {
            Some(j) => {
                let ghost old_children = self.children@;
                let mut child = self.children.remove(j);
                child.insert(pattern, parts, height + 1, value);
                let ghost new_child = child;
                self.children.insert(j, child);
                proof {
                    lemma_children_views(old_children);
                    lemma_children_views(self.children@);
                    assert(self.children@ =~= old_children.update(j as int, new_child));
                    assert(children_views(self.children@, 0) =~= old(self).view().children.update(
                        j as int,
                        spec_insert(
                            old(self).view().children[j as int],
                            pattern@,
                            views(parts@),
                            height as int + 1,
                            value,
                        ),
                    ));
                    assert(final(self).view() =~= spec_insert(
                        old(self).view(),
                        pattern@,
                        views(parts@),
                        height as int,
                        value,
                    ));
                }
            },
            None => {
                let is_binding = seg.len() > 0 && (seg[0] == COLON || seg[0] == STAR);
                let mut child = Node {
                    pattern: Vec::new(),
                    part: copy_range(seg, 0, seg.len()),
                    children: Vec::new(),
                    iswild: is_binding,
                    value: None,
                    params: Vec::new(),
                };
                proof {
                    assert(child.part@ =~= seg@);
                    assert(bindings_view(child.params@) =~= Seq::<(int, Seq<u8>)>::empty());
                    assert(child.view() =~= new_node_view::<T>(seg@));
                }
                let ghost old_children = self.children@;
                child.insert(pattern, parts, height + 1, value);
                let ghost new_child = child;
                self.children.push(child);
                proof {
                    lemma_children_views(old_children);
                    lemma_children_views(self.children@);
                    assert(self.children@ =~= old_children.push(new_child));
                    assert(children_views(self.children@, 0) =~= old(self).view().children.push(
                        spec_insert(
                            new_node_view(views(parts@)[height as int]),
                            pattern@,
                            views(parts@),
                            height as int + 1,
                            value,
                        ),
                    ));
                    assert(final(self).view() =~= spec_insert(
                        old(self).view(),
                        pattern@,
                        views(parts@),
                        height as int,
                        value,
                    ));
                }
            },
        }
    }

    /// Searches for the terminal node matching `parts` from depth
    /// `height`, mirroring [`spec_search`].
    pub fn search(&self, parts: &Vec<Vec<u8>>, height: usize) -> (r: Option<&Node<T>>)
        requires
            height <= parts@.len(),
        ensures
            match r {
                Some(n) => spec_search(self.view(), views(parts@), height as int) == Some(n.view()),
                None => spec_search(self.view(), views(parts@), height as int) is None,
            },
        decreases parts@.len() - height, 1int, 0int,
    {
        let is_wild = self.part.len() > 0 && self.part[0] == STAR;
        assert(is_wild == seg_is_wild(self.view().part));
        if height == parts.len() || is_wild {
            if self.pattern.len() == 0 {
                None
            } else {
                Some(self)
            }
        } else {
            search_children(&self.children, parts, height, 0)
        }
    }
}

/// Tries the children at or after `i` in order, mirroring
/// [`spec_search_children`].
fn search_children<'a, T>(
    cs: &'a Vec<Node<T>>,
    parts: &Vec<Vec<u8>>,
    height: usize,
    i: usize,
) -> (r: Option<&'a Node<T>>)
    requires
        height < parts@.len(),
        i <= cs@.len(),
    ensures
        match r {
            Some(n) => spec_search_children(
                children_views(cs@, 0),
                views(parts@),
                height as int,
                i as int,
            ) == Some(n.view()),
            None => spec_search_children(
                children_views(cs@, 0),
                views(parts@),
                height as int,
                i as int,
            ) is None,
        },
    decreases parts@.len() - height, 0int, cs@.len() - i,
{
    proof {
        lemma_children_views(cs@);
    }
    let plen = parts.len();
    if i >= cs.len() {
        None
    } else {
        let c = &cs[i];
        let m = c.iswild || bytes_eq(c.part.as_slice(), parts[height].as_slice());
        assert(m == child_matches(children_views(cs@, 0)[i as int], views(parts@)[height as int]));
        if m {
            match c.search(parts, height + 1) {
                Some(found) => Some(found),
                None => search_children(cs, parts, height, i + 1),
            }
        } else {
            search_children(cs, parts, height, i + 1)
        }
    }
}

/// Every terminal node at or below `n` carries a handler, and its
/// precomputed bindings are exactly those of its own pattern's
/// segments.  Tries built by registration alone satisfy this.
pub open spec fn bindings_consistent<T>(n: NodeView<T>) -> bool
    decreases n, 0int,
{
    &&& (n.pattern.len() > 0 ==> n.params == crate::pattern::spec_bindings(
        crate::pattern::spec_segments(n.pattern),
    ) && n.value is Some)
    &&& children_consistent(n.children, 0)
}

/// [`bindings_consistent`] of the children from position `i` on.
pub open spec fn children_consistent<T>(cs: Seq<NodeView<T>>, i: int) -> bool
    decreases cs, cs.len() - i when 0 <= i <= cs.len()
{
    i >= cs.len() || (bindings_consistent(cs[i]) && children_consistent(cs, i + 1))
}

proof fn lemma_children_consistent_from<T>(cs: Seq<NodeView<T>>, i: int)
    requires
        0 <= i <= cs.len(),
    ensures
        children_consistent(cs, i) <==> (forall|k: int|
            i <= k < cs.len() ==> bindings_consistent(#[trigger] cs[k])),
    decreases cs.len() - i,
{
    if i < cs.len() {
        lemma_children_consistent_from(cs, i + 1);
    }
}

/// The whole-children case of the index characterization.
pub proof fn lemma_children_consistent<T>(cs: Seq<NodeView<T>>)
    ensures
        children_consistent(cs, 0) <==> (forall|k: int|
            0 <= k < cs.len() ==> bindings_consistent(#[trigger] cs[k])),
{
    lemma_children_consistent_from(cs, 0);
}

/// What a successful first insert-match means: the index is in range,
/// that child is walked into, and no earlier one is.
pub proof fn lemma_first_insert_match_some<T>(cs: Seq<NodeView<T>>, seg: Seq<u8>, i: int, j: int)
    requires
        0 <= i <= cs.len(),
        first_insert_match_from(cs, seg, i) == Some(j),
    ensures
        i <= j < cs.len(),
        insert_matches(cs[j], seg),
        forall|k: int| i <= k < j ==> !insert_matches(#[trigger] cs[k], seg),
    decreases cs.len() - i,
{
    if i < cs.len() && !insert_matches(cs[i], seg) {
        lemma_first_insert_match_some(cs, seg, i + 1, j);
    }
}

/// Registration keeps the trie binding-consistent, provided the parts
/// it walks are the pattern's own segments.
pub proof fn lemma_insert_keeps_consistent<T>(
    n: NodeView<T>,
    pattern: Seq<u8>,
    parts: Seq<Seq<u8>>,
    height: int,
    v: T,
)
    requires
        0 <= height <= parts.len(),
        parts == crate::pattern::spec_segments(pattern),
        bindings_consistent(n),
    ensures
        bindings_consistent(spec_insert(n, pattern, parts, height, v)),
    decreases parts.len() - height,
{
    let r = spec_insert(n, pattern, parts, height, v);
    if height >= parts.len() {
        assert(r.children == n.children);
        assert(bindings_consistent(r));
    } else {
        let seg = parts[height];
        match first_insert_match(n.children, seg) {
            Some(j) => {
                lemma_first_insert_match_some(n.children, seg, 0, j);
                lemma_children_consistent(n.children);
                assert(bindings_consistent(n.children[j]));
                lemma_insert_keeps_consistent(n.children[j], pattern, parts, height + 1, v);
                lemma_children_consistent(r.children);
                assert forall|k: int|
                    0 <= k < r.children.len() implies bindings_consistent(
                    #[trigger] r.children[k],
                ) by {
                    if k != j {
                        assert(r.children[k] == n.children[k]);
                    }
                }
                assert(bindings_consistent(r));
            },
            None => {
                let fresh = new_node_view::<T>(seg);
                assert(children_consistent(fresh.children, 0));
                assert(bindings_consistent(fresh));
                lemma_insert_keeps_consistent(fresh, pattern, parts, height + 1, v);
                lemma_children_consistent(n.children);
                lemma_children_consistent(r.children);
                assert forall|k: int|
                    0 <= k < r.children.len() implies bindings_consistent(
                    #[trigger] r.children[k],
                ) by {
                    if k < n.children.len() {
                        assert(r.children[k] == n.children[k]);
                    } else {
                        assert(r.children[k] == spec_insert(fresh, pattern, parts, height + 1, v));
                    }
                }
                assert(bindings_consistent(r));
            },
        }
    }
}

/// In a binding-consistent trie, whatever search finds is a terminal
/// node with a handler whose bindings are its own pattern's.
pub proof fn lemma_search_consistent<T>(n: NodeView<T>, parts: Seq<Seq<u8>>, height: int)
    requires
        0 <= height <= parts.len(),
        bindings_consistent(n),
    ensures
        spec_search(n, parts, height) matches Some(t) ==> t.pattern.len() > 0 && t.value is Some
            && t.params == crate::pattern::spec_bindings(
            crate::pattern::spec_segments(t.pattern),
        ),
    decreases parts.len() - height, 1int, 0int,
{
    if height < parts.len() && !seg_is_wild(n.part) {
        lemma_children_consistent(n.children);
        lemma_search_children_consistent(n.children, parts, height, 0);
    }
}

proof fn lemma_search_children_consistent<T>(
    cs: Seq<NodeView<T>>,
    parts: Seq<Seq<u8>>,
    height: int,
    i: int,
)
    requires
        0 <= height < parts.len(),
        0 <= i <= cs.len(),
        forall|k: int| 0 <= k < cs.len() ==> bindings_consistent(#[trigger] cs[k]),
    ensures
        spec_search_children(cs, parts, height, i) matches Some(t) ==> t.pattern.len() > 0
            && t.value is Some && t.params == crate::pattern::spec_bindings(
            crate::pattern::spec_segments(t.pattern),
        ),
    decreases parts.len() - height, 0int, cs.len() - i,
{
    if i < cs.len() {
        if child_matches(cs[i], parts[height]) {
            lemma_search_consistent(cs[i], parts, height + 1);
        }
        lemma_search_children_consistent(cs, parts, height, i + 1);
    }
}

impl<T> Node<T> {
    /// Appends every pattern registered at or below this node to
    /// `patterns`, in pre-order, mirroring [`spec_patterns`].
    pub fn collect_patterns(&self, patterns: &mut Vec<Vec<u8>>)
        ensures
            views(final(patterns)@) == views(old(patterns)@) + spec_patterns(self.view()),
        decreases *self, 0int,
    {
        let ghost old_ps = old(patterns)@;
        let ghost cs = children_views(self.children@, 0);
        if self.pattern.len() > 0 {
            let ghost before = patterns@;
            patterns.push(copy_range(self.pattern.as_slice(), 0, self.pattern.len()));
            proof {
                assert(patterns@.last()@ =~= self.pattern@);
                assert(views(patterns@) =~= views(before) + seq![self.pattern@]);
            }
        }
        proof {
            lemma_children_views(self.children@);
            assert(views(old_ps) + spec_patterns(self.view()) =~= views(patterns@)
                + spec_patterns_children(cs, 0));
        }
        let mut j: usize = 0;
        while j < self.children.len()
            invariant
                j <= self.children@.len(),
                cs == children_views(self.children@, 0),
                cs.len() == self.children@.len(),
                forall|k: int| 0 <= k < cs.len() ==> cs[k] == self.children@[k].view(),
                views(old_ps) + spec_patterns(self.view()) =~= views(patterns@)
                    + spec_patterns_children(cs, j as int),
            decreases self.children@.len() - j,
        {
            let ghost before = patterns@;
            self.children[j].collect_patterns(patterns);
            proof {
                assert(spec_patterns_children(cs, j as int) == spec_patterns(cs[j as int])
                    + spec_patterns_children(cs, j as int + 1));
                assert(views(patterns@) =~= views(before) + spec_patterns(cs[j as int]));
                assert(views(old_ps) + spec_patterns(self.view()) =~= views(patterns@)
                    + spec_patterns_children(cs, j as int + 1));
            }
            j = j + 1;
        }
        proof {
            assert(spec_patterns_children(cs, j as int) =~= Seq::<Seq<u8>>::empty());
            assert(views(patterns@) =~= views(patterns@) + spec_patterns_children(cs, j as int));
        }
    }
}

} // verus!
