//! The dispatch engine: a top-level router, prefix-bounded route
//! scopes, and global middleware.
//!
//! Scopes are built during setup; each owns a router whose patterns are
//! registered with the scope's prefix already concatenated, plus its own
//! middleware stages.  A request is dispatched to the scope with the
//! longest prefix that is a string prefix of the request path (the
//! top-level router when none matches); its middleware chain is the
//! global stages followed by the scope's, so global stages wrap
//! outward.
//!
//! Scope prefixes are compared against the raw path text, not segment
//! by segment: a scope at `/api` also claims a path `/api2/x`.  This
//! mirrors how scope selection has always behaved and is kept
//! deliberately.

use vstd::prelude::*;
use vstd::string::{StrSliceExecFns, StringSliceAdditionalSpecFns};
use crate::text::{bytes_eq, copy_range, push_all, starts_with, is_prefix_of};
use crate::trie::NodeView;
use crate::router::{Router, RouteOutcome, spec_add_route, spec_route_lookup, spec_extract};
use crate::params::ParamMap;

verus! {

/// A path-prefix-bounded router with its own middleware stages.
pub struct RouterGroup<M, T> {
    prefix: Vec<u8>,
    router: Router<T>,
    middlewares: Vec<M>,
}

impl<M, T> RouterGroup<M, T> {
    /// The scope's path prefix.
    pub closed spec fn spec_prefix(self) -> Seq<u8> {
        self.prefix@
    }

    /// The scope's route map.
    pub closed spec fn spec_router(self) -> Map<Seq<u8>, NodeView<T>> {
        self.router@
    }

    /// The scope's middleware stages, in registration order.
    pub closed spec fn spec_middlewares(self) -> Seq<M> {
        self.middlewares@
    }

    pub closed spec fn wf(self) -> bool {
        self.router.wf()
    }

    /// An empty scope for `prefix`.
    pub fn new(prefix: &str) -> (r: Self)
        ensures
            r.wf(),
            r.spec_prefix() == prefix.spec_bytes(),
            r.spec_router() == Map::<Seq<u8>, NodeView<T>>::empty(),
            r.spec_middlewares() == Seq::<M>::empty(),
    {
        RouterGroup {
            prefix: prefix.as_bytes_vec(),
            router: Router::new(),
            middlewares: Vec::new(),
        }
    }

    /// Registers a route in this scope: the scope's prefix is
    /// concatenated onto the pattern before insertion.
    pub fn add_route(&mut self, method: &str, pattern: &str, handler: T)
        requires
            old(self).wf(),
        ensures
            final(self).wf(),
            final(self).spec_router() == spec_add_route(
                old(self).spec_router(),
                method.spec_bytes(),
                old(self).spec_prefix() + pattern.spec_bytes(),
                handler,
            ),
            final(self).spec_prefix() == old(self).spec_prefix(),
            final(self).spec_middlewares() == old(self).spec_middlewares(),
    {
        let mut full = copy_range(self.prefix.as_slice(), 0, self.prefix.len());
        push_all(&mut full, pattern.as_bytes());
        proof {
            assert(full@ =~= self.prefix@ + pattern.spec_bytes());
        }
        self.router.add_route_bytes(method.as_bytes(), full.as_slice(), handler);
    }

    /// Registers a `GET` route in this scope.
    pub fn get(&mut self, path: &str, handler: T)
        requires
            old(self).wf(),
        ensures
            final(self).wf(),
            final(self).spec_router() == spec_add_route(
                old(self).spec_router(),
                "GET".spec_bytes(),
                old(self).spec_prefix() + path.spec_bytes(),
                handler,
            ),
            final(self).spec_prefix() == old(self).spec_prefix(),
            final(self).spec_middlewares() == old(self).spec_middlewares(),
    {
        self.add_route("GET", path, handler)
    }

    /// Registers a `POST` route in this scope.
    pub fn post(&mut self, path: &str, handler: T)
        requires
            old(self).wf(),
        ensures
            final(self).wf(),
            final(self).spec_router() == spec_add_route(
                old(self).spec_router(),
                "POST".spec_bytes(),
                old(self).spec_prefix() + path.spec_bytes(),
                handler,
            ),
            final(self).spec_prefix() == old(self).spec_prefix(),
            final(self).spec_middlewares() == old(self).spec_middlewares(),
    {
        self.add_route("POST", path, handler)
    }

    /// Registers a `PUT` route in this scope.
    pub fn put(&mut self, path: &str, handler: T)
        requires
            old(self).wf(),
        ensures
            final(self).wf(),
            final(self).spec_router() == spec_add_route(
                old(self).spec_router(),
                "PUT".spec_bytes(),
                old(self).spec_prefix() + path.spec_bytes(),
                handler,
            ),
            final(self).spec_prefix() == old(self).spec_prefix(),
            final(self).spec_middlewares() == old(self).spec_middlewares(),
    {
        self.add_route("PUT", path, handler)
    }

    /// Registers a `DELETE` route in this scope.
    pub fn delete(&mut self, path: &str, handler: T)
        requires
            old(self).wf(),
        ensures
            final(self).wf(),
            final(self).spec_router() == spec_add_route(
                old(self).spec_router(),
                "DELETE".spec_bytes(),
                old(self).spec_prefix() + path.spec_bytes(),
                handler,
            ),
            final(self).spec_prefix() == old(self).spec_prefix(),
            final(self).spec_middlewares() == old(self).spec_middlewares(),
    {
        self.add_route("DELETE", path, handler)
    }

    /// Appends a middleware stage to this scope.
    pub fn use_middleware(&mut self, middleware: M)
        ensures
            final(self).spec_middlewares() == old(self).spec_middlewares().push(middleware),
            final(self).spec_prefix() == old(self).spec_prefix(),
            final(self).spec_router() == old(self).spec_router(),
            final(self).wf() == old(self).wf(),
    {
        self.middlewares.push(middleware);
    }

    /// The scope's middleware stages, for the caller that runs them.
    pub fn middlewares(&self) -> (r: &Vec<M>)
        ensures
            r@ == self.spec_middlewares(),
    {
        &self.middlewares
    }

    /// Every `(method, pattern)` pair registered in this scope; see
    /// [`Router::get_all_routes`].
    pub fn get_all_routes(&self) -> (r: Vec<(Vec<u8>, Vec<u8>)>)
        requires
            self.wf(),
        ensures
            forall|k: int|
                0 <= k < r@.len() ==> self.spec_router().contains_key(#[trigger] r@[k].0@)
                    && crate::trie::spec_patterns(self.spec_router()[r@[k].0@]).contains(r@[k].1@),
            forall|m: Seq<u8>, p: Seq<u8>|
                self.spec_router().contains_key(m) && #[trigger] crate::trie::spec_patterns(
                    self.spec_router()[m],
                ).contains(p) ==> exists|k: int| 0 <= k < r@.len() && r@[k].0@ == m && r@[k].1@ == p,
    {
        self.router.get_all_routes()
    }

    /// Resolves a request against this scope's router; see
    /// [`Router::handle_request`].
    pub fn handle_request(&self, method: &str, path: &str, params: ParamMap) -> (r: RouteOutcome<
        T,
    >)
        requires
            self.wf(),
            params.wf(),
        ensures
            match spec_route_lookup(self.spec_router(), method.spec_bytes(), path.spec_bytes()) {
                Some(nv) => r is Found && r.arrow_Found_1().wf() && Some(*r.arrow_Found_0())
                    == nv.value && nv.params == crate::pattern::spec_bindings(
                    crate::pattern::spec_segments(nv.pattern),
                ) && r.arrow_Found_1()@ == params@.union_prefer_right(
                    spec_extract(nv.params, crate::pattern::spec_segments(path.spec_bytes())),
                ),
                None => r is NotFound,
            },
    {
        self.router.handle_request(method, path, params)
    }
}

/// Scope `g` claims `path`: its prefix is a string prefix of the path.
pub open spec fn scope_matches<M, T>(g: RouterGroup<M, T>, path: Seq<u8>) -> bool {
    is_prefix_of(g.spec_prefix(), path)
}

/// The dispatch engine: top-level router, scopes, global middleware.
pub struct Engine<M, T> {
    router: Router<T>,
    groups: Vec<RouterGroup<M, T>>,
    middlewares: Vec<M>,
}

impl<M, T> Engine<M, T> {
    /// The top-level route map.
    pub closed spec fn spec_router(self) -> Map<Seq<u8>, NodeView<T>> {
        self.router@
    }

    /// The scopes, in registration order.
    pub closed spec fn spec_groups(self) -> Seq<RouterGroup<M, T>> {
        self.groups@
    }

    /// The global middleware stages, in registration order.
    pub closed spec fn spec_middlewares(self) -> Seq<M> {
        self.middlewares@
    }

    /// The routers are well-formed and scope prefixes are distinct.
    pub closed spec fn wf(self) -> bool {
        &&& self.router.wf()
        &&& forall|i: int| 0 <= i < self.groups@.len() ==> (#[trigger] self.groups@[i]).wf()
        &&& forall|i: int, j: int|
            0 <= i < j < self.groups@.len() ==> self.groups@[i].spec_prefix()
                != self.groups@[j].spec_prefix()
    }

    /// An engine with no routes, scopes or middleware.
    pub fn new() -> (r: Self)
        ensures
            r.wf(),
            r.spec_router() == Map::<Seq<u8>, NodeView<T>>::empty(),
            r.spec_groups() == Seq::<RouterGroup<M, T>>::empty(),
            r.spec_middlewares() == Seq::<M>::empty(),
    {
        Engine { router: Router::new(), groups: Vec::new(), middlewares: Vec::new() }
    }

    /// Appends a global middleware stage.
    pub fn use_middleware(&mut self, middleware: M)
        ensures
            final(self).spec_middlewares() == old(self).spec_middlewares().push(middleware),
            final(self).spec_router() == old(self).spec_router(),
            final(self).spec_groups() == old(self).spec_groups(),
            old(self).wf() ==> final(self).wf(),
    {
        self.middlewares.push(middleware);
    }

    /// The global middleware stages, for the caller that runs them.
    pub fn middlewares(&self) -> (r: &Vec<M>)
        ensures
            r@ == self.spec_middlewares(),
    {
        &self.middlewares
    }

    /// Registers a route on the top-level router.
    pub fn add_route(&mut self, method: &str, pattern: &str, handler: T)
        requires
            old(self).wf(),
        ensures
            final(self).wf(),
            final(self).spec_router() == spec_add_route(
                old(self).spec_router(),
                method.spec_bytes(),
                pattern.spec_bytes(),
                handler,
            ),
            final(self).spec_groups() == old(self).spec_groups(),
            final(self).spec_middlewares() == old(self).spec_middlewares(),
    {
        self.router.add_route(method, pattern, handler);
    }

    /// Registers a top-level `GET` route.
    pub fn get(&mut self, path: &str, handler: T)
        requires
            old(self).wf(),
        ensures
            final(self).wf(),
            final(self).spec_router() == spec_add_route(
                old(self).spec_router(),
                "GET".spec_bytes(),
                path.spec_bytes(),
                handler,
            ),
            final(self).spec_groups() == old(self).spec_groups(),
            final(self).spec_middlewares() == old(self).spec_middlewares(),
    {
        self.add_route("GET", path, handler)
    }

    /// Registers a top-level `POST` route.
    pub fn post(&mut self, path: &str, handler: T)
        requires
            old(self).wf(),
        ensures
            final(self).wf(),
            final(self).spec_router() == spec_add_route(
                old(self).spec_router(),
                "POST".spec_bytes(),
                path.spec_bytes(),
                handler,
            ),
            final(self).spec_groups() == old(self).spec_groups(),
            final(self).spec_middlewares() == old(self).spec_middlewares(),
    {
        self.add_route("POST", path, handler)
    }

    /// Registers a top-level `PUT` route.
    pub fn put(&mut self, path: &str, handler: T)
        requires
            old(self).wf(),
        ensures
            final(self).wf(),
            final(self).spec_router() == spec_add_route(
                old(self).spec_router(),
                "PUT".spec_bytes(),
                path.spec_bytes(),
                handler,
            ),
            final(self).spec_groups() == old(self).spec_groups(),
            final(self).spec_middlewares() == old(self).spec_middlewares(),
    {
        self.add_route("PUT", path, handler)
    }

    /// Registers a top-level `DELETE` route.
    pub fn delete(&mut self, path: &str, handler: T)
        requires
            old(self).wf(),
        ensures
            final(self).wf(),
            final(self).spec_router() == spec_add_route(
                old(self).spec_router(),
                "DELETE".spec_bytes(),
                path.spec_bytes(),
                handler,
            ),
            final(self).spec_groups() == old(self).spec_groups(),
            final(self).spec_middlewares() == old(self).spec_middlewares(),
    {
        self.add_route("DELETE", path, handler)
    }

    /// Creates an empty scope for `prefix` and hands back its index.
    /// A scope already registered at the same prefix is replaced.
    pub fn group(&mut self, prefix: &str) -> (h: usize)
        requires
            old(self).wf(),
        ensures
            final(self).wf(),
            h < final(self).spec_groups().len(),
            final(self).spec_groups()[h as int].spec_prefix() == prefix.spec_bytes(),
            final(self).spec_groups()[h as int].spec_router() == Map::<Seq<u8>, NodeView<T>>::empty(),
            final(self).spec_groups()[h as int].spec_middlewares() == Seq::<M>::empty(),
            final(self).spec_groups().len() <= old(self).spec_groups().len() + 1,
            forall|j: int|
                0 <= j < final(self).spec_groups().len() && j != h ==> j < old(
                    self,
                ).spec_groups().len() && final(self).spec_groups()[j] == old(self).spec_groups()[j],
            final(self).spec_router() == old(self).spec_router(),
            final(self).spec_middlewares() == old(self).spec_middlewares(),
    {
        let fresh: RouterGroup<M, T> = RouterGroup::new(prefix);
        let pb = prefix.as_bytes();
        let mut i: usize = 0;
        while i < self.groups.len()
            invariant
                i <= self.groups@.len(),
                self.wf(),
                forall|j: int| 0 <= j < i ==> self.groups@[j].spec_prefix() != pb@,
                self == old(self),
                fresh.wf(),
                fresh.spec_prefix() == prefix.spec_bytes(),
                fresh.spec_router() == Map::<Seq<u8>, NodeView<T>>::empty(),
                fresh.spec_middlewares() == Seq::<M>::empty(),
                pb@ == prefix.spec_bytes(),
            decreases self.groups@.len() - i,
        {
            if bytes_eq(self.groups[i].prefix.as_slice(), pb) {
                let ghost olde = *self;
                self.groups[i] = fresh;
                proof {
                    assert(olde.wf());
                    assert(self.groups@ =~= olde.groups@.update(i as int, fresh));
                    assert(fresh.spec_prefix() == olde.groups@[i as int].spec_prefix());
                    assert forall|k: int| 0 <= k < self.groups@.len() implies (
                    #[trigger] self.groups@[k]).wf() by {
                        if k != i {
                            assert(self.groups@[k] == olde.groups@[k]);
                        }
                    }
                    assert forall|p: int, q: int|
                        0 <= p < q < self.groups@.len() implies self.groups@[p].spec_prefix()
                        != self.groups@[q].spec_prefix() by {
                        assert(olde.groups@[p].spec_prefix() != olde.groups@[q].spec_prefix());
                        if p != i {
                            assert(self.groups@[p] == olde.groups@[p]);
                        }
                        if q != i {
                            assert(self.groups@[q] == olde.groups@[q]);
                        }
                    }
                }
                return i;
            }
            i = i + 1;
        }
        self.groups.push(fresh);
        proof {
            assert(self.groups@.drop_last() =~= old(self).groups@);
        }
        self.groups.len() - 1
    }

    /// Every `(method, pattern)` pair of the top-level router; see
    /// [`Router::get_all_routes`].
    pub fn get_all_routes(&self) -> (r: Vec<(Vec<u8>, Vec<u8>)>)
        requires
            self.wf(),
        ensures
            forall|k: int|
                0 <= k < r@.len() ==> self.spec_router().contains_key(#[trigger] r@[k].0@)
                    && crate::trie::spec_patterns(self.spec_router()[r@[k].0@]).contains(r@[k].1@),
            forall|m: Seq<u8>, p: Seq<u8>|
                self.spec_router().contains_key(m) && #[trigger] crate::trie::spec_patterns(
                    self.spec_router()[m],
                ).contains(p) ==> exists|k: int| 0 <= k < r@.len() && r@[k].0@ == m && r@[k].1@ == p,
    {
        self.router.get_all_routes()
    }

    /// How many scopes are registered.
    pub fn group_count(&self) -> (n: usize)
        ensures
            n == self.spec_groups().len(),
    {
        self.groups.len()
    }

    /// The scope at index `h`.
    pub fn group_at(&self, h: usize) -> (r: &RouterGroup<M, T>)
        requires
            h < self.spec_groups().len(),
        ensures
            *r == self.spec_groups()[h as int],
            self.wf() ==> r.wf(),
    {
        &self.groups[h]
    }

    /// Registers a route in the scope at index `h`; the scope's prefix
    /// is concatenated onto the pattern.
    pub fn group_add_route(&mut self, h: usize, method: &str, pattern: &str, handler: T)
        requires
            old(self).wf(),
            h < old(self).spec_groups().len(),
        ensures
            final(self).wf(),
            final(self).spec_groups().len() == old(self).spec_groups().len(),
            final(self).spec_groups()[h as int].spec_router() == spec_add_route(
                old(self).spec_groups()[h as int].spec_router(),
                method.spec_bytes(),
                old(self).spec_groups()[h as int].spec_prefix() + pattern.spec_bytes(),
                handler,
            ),
            final(self).spec_groups()[h as int].spec_prefix() == old(self).spec_groups()[
                h as int
            ].spec_prefix(),
            final(self).spec_groups()[h as int].spec_middlewares() == old(self).spec_groups()[
                h as int
            ].spec_middlewares(),
            forall|j: int|
                0 <= j < final(self).spec_groups().len() && j != h ==> final(self).spec_groups()[j]
                    == old(self).spec_groups()[j],
            final(self).spec_router() == old(self).spec_router(),
            final(self).spec_middlewares() == old(self).spec_middlewares(),
    {
        let ghost olds = self.groups@;
        let mut g = self.groups.remove(h);
        g.add_route(method, pattern, handler);
        let ghost newg = g;
        self.groups.insert(h, g);
        proof {
            assert(self.groups@ =~= olds.update(h as int, newg));
        }
    }

    /// Appends a middleware stage to the scope at index `h`.
    pub fn group_use_middleware(&mut self, h: usize, middleware: M)
        requires
            old(self).wf(),
            h < old(self).spec_groups().len(),
        ensures
            final(self).wf(),
            final(self).spec_groups().len() == old(self).spec_groups().len(),
            final(self).spec_groups()[h as int].spec_middlewares() == old(self).spec_groups()[
                h as int
            ].spec_middlewares().push(middleware),
            final(self).spec_groups()[h as int].spec_prefix() == old(self).spec_groups()[
                h as int
            ].spec_prefix(),
            final(self).spec_groups()[h as int].spec_router() == old(self).spec_groups()[
                h as int
            ].spec_router(),
            forall|j: int|
                0 <= j < final(self).spec_groups().len() && j != h ==> final(self).spec_groups()[j]
                    == old(self).spec_groups()[j],
            final(self).spec_router() == old(self).spec_router(),
            final(self).spec_middlewares() == old(self).spec_middlewares(),
    {
        let ghost olds = self.groups@;
        let mut g = self.groups.remove(h);
        g.use_middleware(middleware);
        let ghost newg = g;
        self.groups.insert(h, g);
        proof {
            assert(self.groups@ =~= olds.update(h as int, newg));
        }
    }

    /// Selects the scope for `path`: the one whose prefix is a string
    /// prefix of the path, longest prefix first.  `None` falls back to
    /// the top-level router.
    pub fn select_scope(&self, path: &str) -> (r: Option<usize>)
        requires
            self.wf(),
        ensures
            match r {
                Some(i) => i < self.spec_groups().len() && scope_matches(
                    self.spec_groups()[i as int],
                    path.spec_bytes(),
                ) && forall|j: int|
                    0 <= j < self.spec_groups().len() && j != i && scope_matches(
                        #[trigger] self.spec_groups()[j],
                        path.spec_bytes(),
                    ) ==> self.spec_groups()[j].spec_prefix().len() < self.spec_groups()[
                        i as int
                    ].spec_prefix().len(),
                None => forall|j: int|
                    0 <= j < self.spec_groups().len() ==> !scope_matches(
                        #[trigger] self.spec_groups()[j],
                        path.spec_bytes(),
                    ),
            },
    {
        let pb = path.as_bytes();
        let mut best: Option<usize> = None;
        let mut i: usize = 0;
        while i < self.groups.len()
            invariant
                i <= self.groups@.len(),
                self.wf(),
                pb@ == path.spec_bytes(),
                match best {
                    Some(b) => b < i && scope_matches(self.groups@[b as int], pb@) && forall|j: int|
                        0 <= j < i && j != b && scope_matches(#[trigger] self.groups@[j], pb@)
                            ==> self.groups@[j].spec_prefix().len() < self.groups@[
                            b as int
                        ].spec_prefix().len(),
                    None => forall|j: int|
                        0 <= j < i ==> !scope_matches(#[trigger] self.groups@[j], pb@),
                },
            decreases self.groups@.len() - i,
        {
            if starts_with(pb, self.groups[i].prefix.as_slice()) {
                match best {
                    None => {
                        best = Some(i);
                    },
                    Some(b) => {
                        if self.groups[i].prefix.len() > self.groups[b].prefix.len() {
                            best = Some(i);
                        } else {
                            proof {
                                if self.groups@[i as int].spec_prefix().len() == self.groups@[
                                    b as int
                                ].spec_prefix().len() {
                                    lemma_equal_prefixes(
                                        self.groups@[b as int].spec_prefix(),
                                        self.groups@[i as int].spec_prefix(),
                                        pb@,
                                    );
                                }
                            }
                        }
                    },
                }
            }
            i = i + 1;
        }
        best
    }

    /// Resolves a request against the top-level router; see
    /// [`Router::handle_request`].
    pub fn handle_request(&self, method: &str, path: &str, params: ParamMap) -> (r: RouteOutcome<
        T,
    >)
        requires
            self.wf(),
            params.wf(),
        ensures
            match spec_route_lookup(self.spec_router(), method.spec_bytes(), path.spec_bytes()) {
                Some(nv) => r is Found && r.arrow_Found_1().wf() && Some(*r.arrow_Found_0())
                    == nv.value && nv.params == crate::pattern::spec_bindings(
                    crate::pattern::spec_segments(nv.pattern),
                ) && r.arrow_Found_1()@ == params@.union_prefer_right(
                    spec_extract(nv.params, crate::pattern::spec_segments(path.spec_bytes())),
                ),
                None => r is NotFound,
            },
    {
        self.router.handle_request(method, path, params)
    }
}

/// Two prefixes of the same string that are equally long are the same
/// prefix.
proof fn lemma_equal_prefixes(a: Seq<u8>, b: Seq<u8>, s: Seq<u8>)
    requires
        is_prefix_of(a, s),
        is_prefix_of(b, s),
        a.len() == b.len(),
    ensures
        a == b,
{
    assert(a =~= b);
}

} // verus!
