//! Method router: one pattern trie per HTTP method.
//!
//! `(method, path)` resolves to a terminal trie node plus the parameter
//! values the matched pattern binds.  Route-derived parameter values
//! overwrite values of the same name already present in the request's
//! map: on a collision the route wins.

use vstd::prelude::*;
use vstd::string::{StrSliceExecFns, StringSliceAdditionalSpecFns};
use crate::text::{COLON, STAR, bytes_eq, copy_range};
use crate::pattern::{
    seg_is_param, seg_is_wild, spec_segments, spec_join_from, views, bindings_view, spec_bindings,
    split_segments, join_segments,
};
use crate::trie::{
    Node, NodeView, new_node_view, spec_insert, spec_search, spec_patterns, bindings_consistent,
    children_consistent, lemma_insert_keeps_consistent, lemma_search_consistent,
};
use crate::params::ParamMap;

verus! {

/// The mathematical value of the method-to-trie association list.
pub open spec fn roots_map<T>(s: Seq<(Vec<u8>, Node<T>)>) -> Map<Seq<u8>, NodeView<T>>
    decreases s.len(),
{
    if s.len() == 0 {
        Map::empty()
    } else {
        roots_map(s.drop_last()).insert(s.last().0@, s.last().1.view())
    }
}

proof fn lemma_roots_contains<T>(s: Seq<(Vec<u8>, Node<T>)>, k: Seq<u8>)
    ensures
        roots_map(s).contains_key(k) <==> exists|i: int| 0 <= i < s.len() && s[i].0@ == k,
    decreases s.len(),
{
    if s.len() > 0 {
        lemma_roots_contains(s.drop_last(), k);
        if roots_map(s).contains_key(k) && s.last().0@ != k {
            let i = choose|i: int| 0 <= i < s.drop_last().len() && s.drop_last()[i].0@ == k;
            assert(s[i].0@ == k);
        }
        if exists|i: int| 0 <= i < s.len() && s[i].0@ == k {
            let i = choose|i: int| 0 <= i < s.len() && s[i].0@ == k;
            if i < s.len() - 1 {
                assert(s.drop_last()[i].0@ == k);
            }
        }
    }
}

proof fn lemma_roots_get<T>(s: Seq<(Vec<u8>, Node<T>)>, i: int)
    requires
        0 <= i < s.len(),
        forall|j: int| i < j < s.len() ==> s[j].0@ != s[i].0@,
    ensures
        roots_map(s).contains_key(s[i].0@),
        roots_map(s)[s[i].0@] == s[i].1.view(),
    decreases s.len(),
{
    if i < s.len() - 1 {
        assert(s.drop_last()[i] == s[i]);
        lemma_roots_get(s.drop_last(), i);
    }
}

proof fn lemma_roots_update<T>(s: Seq<(Vec<u8>, Node<T>)>, i: int, e: (Vec<u8>, Node<T>))
    requires
        0 <= i < s.len(),
        e.0@ == s[i].0@,
        forall|j: int| i < j < s.len() ==> s[j].0@ != s[i].0@,
    ensures
        roots_map(s.update(i, e)) == roots_map(s).insert(e.0@, e.1.view()),
    decreases s.len(),
{
    if i == s.len() - 1 {
        assert(s.update(i, e).drop_last() =~= s.drop_last());
        assert(roots_map(s.update(i, e)) =~= roots_map(s).insert(e.0@, e.1.view()));
    } else {
        assert(s.update(i, e).drop_last() =~= s.drop_last().update(i, e));
        assert(s.drop_last()[i] == s[i]);
        lemma_roots_update(s.drop_last(), i, e);
        assert(roots_map(s.update(i, e)) =~= roots_map(s).insert(e.0@, e.1.view()));
    }
}

proof fn lemma_roots_dom_len<T>(s: Seq<(Vec<u8>, Node<T>)>)
    requires
        forall|i: int, j: int| 0 <= i < j < s.len() ==> s[i].0@ != s[j].0@,
    ensures
        roots_map(s).dom().finite(),
        roots_map(s).dom().len() == s.len(),
    decreases s.len(),
{
    if s.len() > 0 {
        assert forall|i: int, j: int|
            0 <= i < j < s.drop_last().len() implies s.drop_last()[i].0@ != s.drop_last()[j].0@ by {
            assert(s.drop_last()[i] == s[i]);
            assert(s.drop_last()[j] == s[j]);
        }
        lemma_roots_dom_len(s.drop_last());
        lemma_roots_contains(s.drop_last(), s.last().0@);
        if roots_map(s.drop_last()).contains_key(s.last().0@) {
            let i = choose|i: int|
                0 <= i < s.drop_last().len() && s.drop_last()[i].0@ == s.last().0@;
            assert(s[i].0@ == s[s.len() - 1].0@);
            assert(false);
        }
    }
}

/// What registering `(method, pattern, value)` makes of a route map:
/// the pattern is inserted into the method's trie, an empty trie where
/// the method had none.
pub open spec fn spec_add_route<T>(
    rm: Map<Seq<u8>, NodeView<T>>,
    method: Seq<u8>,
    pattern: Seq<u8>,
    value: T,
) -> Map<Seq<u8>, NodeView<T>> {
    let root = if rm.contains_key(method) {
        rm[method]
    } else {
        new_node_view(Seq::empty())
    };
    rm.insert(method, spec_insert(root, pattern, spec_segments(pattern), 0, value))
}

/// The terminal node that `(method, path)` resolves to, if any.
pub open spec fn spec_route_lookup<T>(
    rm: Map<Seq<u8>, NodeView<T>>,
    method: Seq<u8>,
    path: Seq<u8>,
) -> Option<NodeView<T>> {
    if rm.contains_key(method) {
        spec_search(rm[method], spec_segments(path), 0)
    } else {
        None
    }
}

/// The parameter values a matched pattern's bindings extract from the
/// path's segments: a `:name` binding takes the segment at its
/// position, a `*name` binding the join of all segments from its
/// position on.  Later bindings win on equal names.
pub open spec fn spec_extract(bindings: Seq<(int, Seq<u8>)>, segs: Seq<Seq<u8>>) -> Map<
    Seq<u8>,
    Seq<u8>,
>
    decreases bindings.len(),
{
    if bindings.len() == 0 {
        Map::empty()
    } else {
        let m0 = spec_extract(bindings.drop_last(), segs);
        let pos = bindings.last().0;
        let name = bindings.last().1;
        if seg_is_param(name) && 0 <= pos < segs.len() {
            m0.insert(name.drop_first(), segs[pos])
        } else if seg_is_wild(name) && 0 <= pos <= segs.len() {
            m0.insert(name.drop_first(), spec_join_from(segs, pos))
        } else {
            m0
        }
    }
}

/// Extracts the parameter values of `bindings` from `segs`, mirroring
/// [`spec_extract`].
fn extract_params(bindings: &Vec<(usize, Vec<u8>)>, segs: &Vec<Vec<u8>>) -> (r: ParamMap)
    ensures
        r.wf(),
        r@ == spec_extract(bindings_view(bindings@), views(segs@)),
{
    let ghost bv = bindings_view(bindings@);
    let ghost sv = views(segs@);
    let mut r = ParamMap::new();
    let mut i: usize = 0;
    assert(bv.subrange(0, 0) =~= Seq::<(int, Seq<u8>)>::empty());
    while i < bindings.len()
        invariant
            i <= bindings@.len(),
            bv == bindings_view(bindings@),
            sv == views(segs@),
            r.wf(),
            r@ == spec_extract(bv.subrange(0, i as int), sv),
        decreases bindings@.len() - i,
    {
        let ghost sub0 = bv.subrange(0, i as int);
        let ghost sub1 = bv.subrange(0, i as int + 1);
        proof {
            assert(sub1.drop_last() =~= sub0);
            assert(sub1.last() == bv[i as int]);
        }
        let pos = bindings[i].0;
        let name = &bindings[i].1;
        if name.len() > 0 && name[0] == COLON {
            if pos < segs.len() {
                let key = copy_range(name.as_slice(), 1, name.len());
                let val = copy_range(segs[pos].as_slice(), 0, segs[pos].len());
                proof {
                    assert(key@ =~= bv[i as int].1.drop_first());
                    assert(val@ =~= sv[pos as int]);
                }
                r.insert(key, val);
            }
        } else if name.len() > 0 && name[0] == STAR {
            if pos <= segs.len() {
                let key = copy_range(name.as_slice(), 1, name.len());
                let val = join_segments(segs, pos);
                proof {
                    assert(key@ =~= bv[i as int].1.drop_first());
                }
                r.insert(key, val);
            }
        }
        assert(r@ == spec_extract(sub1, sv));
        i = i + 1;
    }
    proof {
        assert(bv.subrange(0, i as int) =~= bv);
    }
    r
}

/// What resolving a request makes of it: either no route matched, or a
/// handler was selected and the request's parameter map was updated
/// with the route-derived values.
pub enum RouteOutcome<'a, T> {
    /// No pattern matches: the caller produces a "not found" response,
    /// and no handler is involved.
    NotFound,
    /// The matched handler and the updated parameter map.
    Found(&'a T, ParamMap),
}

/// One pattern trie per HTTP method.
pub struct Router<T> {
    roots: Vec<(Vec<u8>, Node<T>)>,
}

impl<T> View for Router<T> {
    type V = Map<Seq<u8>, NodeView<T>>;

    closed spec fn view(&self) -> Map<Seq<u8>, NodeView<T>> {
        roots_map(self.roots@)
    }
}

impl<T> Router<T> {
    /// Method keys are pairwise distinct, and every trie is
    /// binding-consistent: a registered pattern's terminal node holds
    /// its handler and the bindings of that very pattern.
    pub closed spec fn wf(self) -> bool {
        &&& forall|i: int, j: int|
            0 <= i < j < self.roots@.len() ==> self.roots@[i].0@ != self.roots@[j].0@
        &&& forall|i: int|
            0 <= i < self.roots@.len() ==> bindings_consistent(
                (#[trigger] self.roots@[i]).1.view(),
            )
    }

    /// A router with no routes.
    pub fn new() -> (r: Self)
        ensures
            r.wf(),
            r@ == Map::<Seq<u8>, NodeView<T>>::empty(),
    {
        Router { roots: Vec::new() }
    }

    /// Splits a pattern or path into its segments: `/`-separated, empty
    /// segments dropped, cut short after the first `*` segment.
    pub fn parse_pattern(pattern: &str) -> (r: Vec<Vec<u8>>)
        ensures
            views(r@) == spec_segments(pattern.spec_bytes()),
    {
        split_segments(pattern.as_bytes())
    }

    /// How many methods have at least one route registered.
    pub fn method_count(&self) -> (n: usize)
        requires
            self.wf(),
        ensures
            n == self@.dom().len(),
    {
        proof {
            lemma_roots_dom_len(self.roots@);
        }
        self.roots.len()
    }

    /// Index of the trie registered for `method`, if any.
    fn find_root(&self, method: &[u8]) -> (r: Option<usize>)
        requires
            self.wf(),
        ensures
            match r {
                Some(i) => i < self.roots@.len() && self.roots@[i as int].0@ == method@
                    && self@.contains_key(method@) && self@[method@] == self.roots@[i as int].1.view(),
                None => !self@.contains_key(method@),
            },
    {
        let mut i: usize = 0;
        while i < self.roots.len()
            invariant
                i <= self.roots@.len(),
                self.wf(),
                forall|j: int| 0 <= j < i ==> self.roots@[j].0@ != method@,
            decreases self.roots@.len() - i,
        {
            if bytes_eq(self.roots[i].0.as_slice(), method) {
                proof {
                    lemma_roots_get(self.roots@, i as int);
                }
                return Some(i);
            }
            i = i + 1;
        }
        proof {
            lemma_roots_contains(self.roots@, method@);
        }
        None
    }

    /// Registers `pattern` under `method`, with method and pattern given
    /// as byte strings.
    pub fn add_route_bytes(&mut self, method: &[u8], pattern: &[u8], handler: T)
        requires
            old(self).wf(),
        ensures
            final(self).wf(),
            final(self)@ == spec_add_route(old(self)@, method@, pattern@, handler),
    {
        let parts = split_segments(pattern);
        let plen = parts.len();
        match self.find_root(method) {
            Some(i) => {
                let ghost olds = self.roots@;
                let mut entry = self.roots.remove(i);
                entry.1.insert(pattern, &parts, 0, handler);
                let ghost newe = entry;
                self.roots.insert(i, entry);
                proof {
                    assert(self.roots@ =~= olds.update(i as int, newe));
                    lemma_roots_update(olds, i as int, newe);
                    assert(final(self)@ =~= spec_add_route(old(self)@, method@, pattern@, handler));
                    assert(bindings_consistent(olds[i as int].1.view()));
                    lemma_insert_keeps_consistent(
                        olds[i as int].1.view(),
                        pattern@,
                        views(parts@),
                        0,
                        handler,
                    );
                    assert forall|k: int|
                        0 <= k < self.roots@.len() implies bindings_consistent(
                        (#[trigger] self.roots@[k]).1.view(),
                    ) by {
                        if k != i {
                            assert(self.roots@[k] == olds[k]);
                        }
                    }
                }
            },
            None => {
                let mut node = Node::new();
                node.insert(pattern, &parts, 0, handler);
                let key = copy_range(method, 0, method.len());
                proof {
                    assert(key@ =~= method@);
                }
                self.roots.push((key, node));
                proof {
                    lemma_roots_contains(old(self).roots@, method@);
                    assert(self.roots@.drop_last() =~= old(self).roots@);
                    assert(final(self)@ =~= spec_add_route(old(self)@, method@, pattern@, handler));
                    let fresh = new_node_view::<T>(Seq::empty());
                    assert(children_consistent(fresh.children, 0));
                    assert(bindings_consistent(fresh));
                    lemma_insert_keeps_consistent(fresh, pattern@, views(parts@), 0, handler);
                    assert forall|k: int|
                        0 <= k < self.roots@.len() implies bindings_consistent(
                        (#[trigger] self.roots@[k]).1.view(),
                    ) by {
                        if k < old(self).roots@.len() {
                            assert(self.roots@[k] == old(self).roots@[k]);
                        }
                    }
                }
            },
        }
    }

    /// Registers `pattern` under `method`.  Re-registering the same
    /// pattern overwrites the previously bound handler.
    pub fn add_route(&mut self, method: &str, pattern: &str, handler: T)
        requires
            old(self).wf(),
        ensures
            final(self).wf(),
            final(self)@ == spec_add_route(
                old(self)@,
                method.spec_bytes(),
                pattern.spec_bytes(),
                handler,
            ),
    {
        self.add_route_bytes(method.as_bytes(), pattern.as_bytes(), handler)
    }

    /// Resolves `(method, path)` to the matching terminal node and the
    /// parameter values its pattern binds; no match leaves both empty.
    pub fn get_route(&self, method: &str, path: &str) -> (r: (Option<&Node<T>>, ParamMap))
        requires
            self.wf(),
        ensures
            r.1.wf(),
            match spec_route_lookup(self@, method.spec_bytes(), path.spec_bytes()) {
                Some(nv) => r.0 is Some && r.0.unwrap().view() == nv && r.1@ == spec_extract(
                    nv.params,
                    spec_segments(path.spec_bytes()),
                ) && nv.pattern.len() > 0 && nv.value is Some && nv.params == spec_bindings(
                    spec_segments(nv.pattern),
                ),
                None => r.0 is None && r.1@ == Map::<Seq<u8>, Seq<u8>>::empty(),
            },
    {
        self.get_route_bytes(method.as_bytes(), path.as_bytes())
    }

    /// [`Router::get_route`], with method and path as byte strings.
    pub fn get_route_bytes(&self, method: &[u8], path: &[u8]) -> (r: (Option<&Node<T>>, ParamMap))
        requires
            self.wf(),
        ensures
            r.1.wf(),
            match spec_route_lookup(self@, method@, path@) {
                Some(nv) => r.0 is Some && r.0.unwrap().view() == nv && r.1@ == spec_extract(
                    nv.params,
                    spec_segments(path@),
                ) && nv.pattern.len() > 0 && nv.value is Some && nv.params == spec_bindings(
                    spec_segments(nv.pattern),
                ),
                None => r.0 is None && r.1@ == Map::<Seq<u8>, Seq<u8>>::empty(),
            },
    {
        let segs = split_segments(path);
        match self.find_root(method) {
            Some(i) => {
                proof {
                    assert(bindings_consistent(self.roots@[i as int].1.view()));
                    lemma_search_consistent(self.roots@[i as int].1.view(), views(segs@), 0);
                }
                match self.roots[i].1.search(&segs, 0) {
                    Some(node) => {
                        let params = extract_params(&node.params, &segs);
                        (Some(node), params)
                    },
                    None => (None, ParamMap::new()),
                }
            },
            None => (None, ParamMap::new()),
        }
    }

    /// Every registered `(method, pattern)` pair, for the documentation
    /// generator: each returned pair is registered, and every
    /// registered pattern of every method is returned.
    pub fn get_all_routes(&self) -> (r: Vec<(Vec<u8>, Vec<u8>)>)
        requires
            self.wf(),
        ensures
            forall|k: int|
                0 <= k < r@.len() ==> self@.contains_key(#[trigger] r@[k].0@) && spec_patterns(
                    self@[r@[k].0@],
                ).contains(r@[k].1@),
            forall|m: Seq<u8>, p: Seq<u8>|
                self@.contains_key(m) && #[trigger] spec_patterns(self@[m]).contains(p)
                    ==> exists|k: int| 0 <= k < r@.len() && r@[k].0@ == m && r@[k].1@ == p,
    {
        let mut r: Vec<(Vec<u8>, Vec<u8>)> = Vec::new();
        let mut i: usize = 0;
        while i < self.roots.len()
            invariant
                i <= self.roots@.len(),
                self.wf(),
                forall|k: int|
                    0 <= k < r@.len() ==> self@.contains_key(#[trigger] r@[k].0@) && spec_patterns(
                        self@[r@[k].0@],
                    ).contains(r@[k].1@),
                forall|idx: int, p: Seq<u8>|
                    0 <= idx < i && #[trigger] spec_patterns(self.roots@[idx].1.view()).contains(p)
                        ==> exists|k: int|
                        0 <= k < r@.len() && r@[k].0@ == self.roots@[idx].0@ && r@[k].1@ == p,
            decreases self.roots@.len() - i,
        {
            proof {
                lemma_roots_get(self.roots@, i as int);
            }
            let mut pats: Vec<Vec<u8>> = Vec::new();
            self.roots[i].1.collect_patterns(&mut pats);
            proof {
                assert(views(Seq::<Vec<u8>>::empty()) =~= Seq::<Seq<u8>>::empty());
                assert(views(pats@) =~= spec_patterns(self.roots@[i as int].1.view()));
            }
            let mut j: usize = 0;
            while j < pats.len()
                invariant
                    j <= pats@.len(),
                    self.wf(),
                    i < self.roots@.len(),
                    views(pats@) == spec_patterns(self.roots@[i as int].1.view()),
                    self@.contains_key(self.roots@[i as int].0@),
                    self@[self.roots@[i as int].0@] == self.roots@[i as int].1.view(),
                    forall|k: int|
                        0 <= k < r@.len() ==> self@.contains_key(#[trigger] r@[k].0@)
                            && spec_patterns(self@[r@[k].0@]).contains(r@[k].1@),
                    forall|idx: int, p: Seq<u8>|
                        0 <= idx < i && #[trigger] spec_patterns(
                            self.roots@[idx].1.view(),
                        ).contains(p) ==> exists|k: int|
                            0 <= k < r@.len() && r@[k].0@ == self.roots@[idx].0@ && r@[k].1@ == p,
                    forall|jj: int|
                        0 <= jj < j ==> exists|k: int|
                            0 <= k < r@.len() && r@[k].0@ == self.roots@[i as int].0@ && r@[k].1@
                                == #[trigger] views(pats@)[jj],
                decreases pats@.len() - j,
            {
                let me = copy_range(self.roots[i].0.as_slice(), 0, self.roots[i].0.len());
                let pt = copy_range(pats[j].as_slice(), 0, pats[j].len());
                proof {
                    assert(me@ =~= self.roots@[i as int].0@);
                    assert(pt@ =~= pats@[j as int]@);
                    assert(views(pats@)[j as int] == pats@[j as int]@);
                }
                let ghost oldr = r@;
                r.push((me, pt));
                proof {
                    assert(r@.last() == (me, pt));
                    assert(self@.contains_key(me@));
                    assert(spec_patterns(self@[me@]).contains(pt@)) by {
                        assert(spec_patterns(self.roots@[i as int].1.view())[j as int] == pt@);
                    }
                    assert(forall|k: int| 0 <= k < oldr.len() ==> r@[k] == oldr[k]);
                    assert forall|k: int|
                        0 <= k < r@.len() implies self@.contains_key(#[trigger] r@[k].0@)
                        && spec_patterns(self@[r@[k].0@]).contains(r@[k].1@) by {
                        if k < oldr.len() {
                            assert(r@[k] == oldr[k]);
                        } else {
                            assert(r@[k] == (me, pt));
                        }
                    }
                }
                j = j + 1;
            }
            proof {
                assert forall|p: Seq<u8>|
                    #[trigger] spec_patterns(self.roots@[i as int].1.view()).contains(
                        p,
                    ) implies exists|k: int|
                    0 <= k < r@.len() && r@[k].0@ == self.roots@[i as int].0@ && r@[k].1@ == p by {
                    let jj = choose|jj: int|
                        0 <= jj < views(pats@).len() && views(pats@)[jj] == p;
                    assert(exists|k: int|
                        0 <= k < r@.len() && r@[k].0@ == self.roots@[i as int].0@ && r@[k].1@
                            == views(pats@)[jj]);
                }
            }
            i = i + 1;
        }
        proof {
            assert forall|m: Seq<u8>, p: Seq<u8>|
                self@.contains_key(m) && #[trigger] spec_patterns(self@[m]).contains(
                    p,
                ) implies exists|k: int| 0 <= k < r@.len() && r@[k].0@ == m && r@[k].1@ == p by {
                lemma_roots_contains(self.roots@, m);
                let idx = choose|idx: int| 0 <= idx < self.roots@.len() && self.roots@[idx].0@ == m;
                lemma_roots_get(self.roots@, idx);
                assert(spec_patterns(self.roots@[idx].1.view()).contains(p));
            }
        }
        r
    }

    /// Resolves a request and merges the route-derived parameters into
    /// the request's map, route values winning on name collisions; hands
    /// back the bound handler.  Without a match nothing is mutated and
    /// no handler is selected; a match always carries a handler, since
    /// registration stores one at every terminal node.
    pub fn handle_request(&self, method: &str, path: &str, params: ParamMap) -> (r: RouteOutcome<
        T,
    >)
        requires
            self.wf(),
            params.wf(),
        ensures
            match spec_route_lookup(self@, method.spec_bytes(), path.spec_bytes()) {
                Some(nv) => r is Found && r.arrow_Found_1().wf() && Some(*r.arrow_Found_0())
                    == nv.value && nv.params == spec_bindings(spec_segments(nv.pattern))
                    && r.arrow_Found_1()@ == params@.union_prefer_right(
                    spec_extract(nv.params, spec_segments(path.spec_bytes())),
                ),
                None => r is NotFound,
            },
    {
        let (node, route_params) = self.get_route(method, path);
        match node {
            None => RouteOutcome::NotFound,
            Some(node) => {
                match &node.value {
                    None => RouteOutcome::NotFound,
                    Some(handler) => {
                        let mut merged = params;
                        merged.extend(route_params);
                        RouteOutcome::Found(handler, merged)
                    },
                }
            },
        }
    }
}

} // verus!
