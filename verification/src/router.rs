//! Routes and the path matcher.
//!
//! A route binds a method and a compiled pattern to a handler. Matching
//! resolves a method and path to the most specific matching route:
//! literal segments take priority over named parameters, and those over
//! the wildcard, position by position. A path that matches some route
//! only under other methods yields `MethodNotAllowed`, distinct from
//! `NoMatch`, so that a dedicated fallback can apply.

use vstd::prelude::*;
use crate::handler::Handler;
use crate::http::Method;
use crate::middleware::Hook;
use crate::pattern::all_literal;
use crate::pattern::lemma_literal_self_match;
use crate::pattern::lemma_params_literal;
use crate::pattern::lemma_top_rank_match;
use crate::pattern::lit_texts;
use crate::pattern::match_segments;
use crate::pattern::parse_pattern;
use crate::pattern::spec_parse_pattern;
use crate::pattern::twos;
use crate::pattern::more_specific;
use crate::pattern::pat_matches;
use crate::pattern::pat_more_specific;
use crate::pattern::pat_params;
use crate::pattern::path_pieces;
use crate::pattern::ranks;
use crate::pattern::lex_more;
use crate::pattern::spec_path_pieces;
use crate::pattern::wildcard_trailing;
use crate::pattern::SegShape;
use crate::pattern::Segment;

verus! {

/// A registered route: a method, a compiled pattern, and its handler.
pub struct Route {
    pub method: Method,
    pub pattern: Vec<crate::pattern::Segment>,
    pub handler: Handler,
}

/// What matching resolves to: a route (by index) with its extracted
/// parameters, no path match at all, or a path match under other methods
/// only.
pub enum MatchOutcome {
    Matched { route: usize, params: Vec<(Vec<u8>, Vec<u8>)> },
    NoMatch,
    MethodNotAllowed,
}

/// The ghost-level shape of a match outcome.
pub enum MatchKind {
    Found(int),
    NotFound,
    NotAllowed,
}

/// Whether a route accepts the given method and path pieces.
pub open spec fn route_matches(r: Route, method: Method, segs: Seq<Seq<u8>>) -> bool {
    r.method == method && pat_matches(r.pattern.deep_view(), segs)
}

/// The fold that picks the most specific matching route: route `i`
/// replaces the best so far only when it matches and is strictly more
/// specific (so the earliest registered wins a tie).
pub open spec fn spec_best_from(
    routes: Seq<Route>,
    method: Method,
    segs: Seq<Seq<u8>>,
    i: int,
    best: Option<int>,
) -> Option<int>
    decreases routes.len() - i when 0 <= i <= routes.len()
{
    if i >= routes.len() {
        best
    } else {
        let take_i = route_matches(routes[i], method, segs) && (best is None || more_specific(
            routes[i].pattern.deep_view(),
            routes[best->0].pattern.deep_view(),
        ));
        spec_best_from(routes, method, segs, i + 1, if take_i { Some(i) } else { best })
    }
}

/// The index of the most specific route matching `method` and `segs`.
pub open spec fn spec_best(routes: Seq<Route>, method: Method, segs: Seq<Seq<u8>>) -> Option<int> {
    spec_best_from(routes, method, segs, 0, None)
}

/// Whether any route's pattern (whatever its method) accepts the path.
pub open spec fn spec_any_path_match(routes: Seq<Route>, segs: Seq<Seq<u8>>) -> bool {
    exists|j: int| 0 <= j < routes.len() && pat_matches(#[trigger] routes[j].pattern.deep_view(), segs)
}

/// The matcher, as a function: the best route under the method; else
/// `NotAllowed` when the path matches under some other method; else
/// `NotFound`.
pub open spec fn spec_match(routes: Seq<Route>, method: Method, segs: Seq<Seq<u8>>) -> MatchKind {
    match spec_best(routes, method, segs) {
        Some(b) => MatchKind::Found(b),
        None => if spec_any_path_match(routes, segs) {
            MatchKind::NotAllowed
        } else {
            MatchKind::NotFound
        },
    }
}

/// No two routes share a method and a pattern, and wildcards stand only in
/// last position.
pub open spec fn wf_routes(routes: Seq<Route>) -> bool {
    &&& forall|i: int, j: int|
        0 <= i < j < routes.len() ==> !(#[trigger] routes[i].method == #[trigger] routes[j].method
            && routes[i].pattern.deep_view() == routes[j].pattern.deep_view())
    &&& forall|i: int| 0 <= i < routes.len() ==> wildcard_trailing(#[trigger] routes[i].pattern.deep_view())
}

/// Specificity is irreflexive.
pub proof fn lemma_lex_irrefl(a: Seq<int>)
    ensures
        !lex_more(a, a),
    decreases a.len(),
{
    if a.len() > 0 {
        lemma_lex_irrefl(a.drop_first());
    }
}

/// Specificity is transitive.
pub proof fn lemma_lex_trans(a: Seq<int>, b: Seq<int>, c: Seq<int>)
    requires
        lex_more(a, b),
        lex_more(b, c),
    ensures
        lex_more(a, c),
    decreases a.len(),
{
    if b.len() == 0 {
        // lex_more(b, c) would be false
    } else if a.len() > 0 && c.len() > 0 {
        if a[0] == b[0] && b[0] == c[0] {
            lemma_lex_trans(a.drop_first(), b.drop_first(), c.drop_first());
        }
    }
}

/// What the fold guarantees: the picked route matches and no matching
/// route is strictly more specific; and when nothing is picked, nothing
/// matches.
pub proof fn lemma_best_from_props(
    routes: Seq<Route>,
    method: Method,
    segs: Seq<Seq<u8>>,
    i: int,
    best: Option<int>,
)
    requires
        0 <= i <= routes.len(),
        match best {
            Some(b) => 0 <= b < i && route_matches(routes[b], method, segs) && forall|j: int|
                0 <= j < i && route_matches(#[trigger] routes[j], method, segs) ==> !more_specific(
                    routes[j].pattern.deep_view(),
                    routes[b].pattern.deep_view(),
                ),
            None => forall|j: int| 0 <= j < i ==> !route_matches(#[trigger] routes[j], method, segs),
        },
    ensures
        match spec_best_from(routes, method, segs, i, best) {
            Some(b) => 0 <= b < routes.len() && route_matches(routes[b], method, segs) && forall|
                j: int,
            |
                0 <= j < routes.len() && route_matches(#[trigger] routes[j], method, segs)
                    ==> !more_specific(
                    routes[j].pattern.deep_view(),
                    routes[b].pattern.deep_view(),
                ),
            None => forall|j: int|
                0 <= j < routes.len() ==> !route_matches(#[trigger] routes[j], method, segs),
        },
    decreases routes.len() - i,
{
    if i < routes.len() {
        let take_i = route_matches(routes[i], method, segs) && (best is None || more_specific(
            routes[i].pattern.deep_view(),
            routes[best->0].pattern.deep_view(),
        ));
        if take_i {
            assert forall|j: int|
                0 <= j < i + 1 && route_matches(#[trigger] routes[j], method, segs)
                    implies !more_specific(
                routes[j].pattern.deep_view(),
                routes[i].pattern.deep_view(),
            ) by {
                if j == i {
                    lemma_lex_irrefl(ranks(routes[i].pattern.deep_view()));
                } else if best is Some {
                    let b = best->0;
                    if more_specific(routes[j].pattern.deep_view(), routes[i].pattern.deep_view()) {
                        lemma_lex_trans(
                            ranks(routes[j].pattern.deep_view()),
                            ranks(routes[i].pattern.deep_view()),
                            ranks(routes[b].pattern.deep_view()),
                        );
                    }
                }
            }
            lemma_best_from_props(routes, method, segs, i + 1, Some(i));
        } else {
            match best {
                Some(b) => {
                    lemma_best_from_props(routes, method, segs, i + 1, best);
                },
                None => {
                    lemma_best_from_props(routes, method, segs, i + 1, best);
                },
            }
        }
    }
}

/// Matching the exact method and literal path of a registered all-literal
/// route resolves to that very route, with an empty parameter mapping.
pub proof fn lemma_literal_route_exact(routes: Seq<Route>, i: int)
    requires
        wf_routes(routes),
        0 <= i < routes.len(),
        all_literal(routes[i].pattern.deep_view()),
    ensures
        spec_match(routes, routes[i].method, lit_texts(routes[i].pattern.deep_view()))
            == MatchKind::Found(i),
        pat_params(routes[i].pattern.deep_view(), lit_texts(routes[i].pattern.deep_view()))
            == Seq::<(Seq<u8>, Seq<u8>)>::empty(),
{
    let pat = routes[i].pattern.deep_view();
    let segs = lit_texts(pat);
    let method = routes[i].method;
    lemma_literal_self_match(pat, 0);
    assert(route_matches(routes[i], method, segs));
    lemma_best_from_props(routes, method, segs, 0, None);
    match spec_best(routes, method, segs) {
        Some(b) => {
            let pb = routes[b].pattern.deep_view();
            assert(!more_specific(pat, pb));
            assert(ranks(pat) =~= twos(segs.len() as nat));
            assert(ranks(pb).skip(0) =~= ranks(pb));
            assert(twos((segs.len() - 0) as nat) == twos(segs.len() as nat));
            lemma_top_rank_match(pb, segs, 0);
            assert forall|m: int| 0 <= m < pat.len() implies pat[m] == SegShape::Literal(
                segs[m],
            ) by {
                assert(pat[m] is Literal);
            }
            assert(pb =~= pat);
            if b != i {
                let lo = if b < i {
                    b
                } else {
                    i
                };
                let hi = if b < i {
                    i
                } else {
                    b
                };
                assert(routes[lo].method == routes[hi].method && routes[lo].pattern.deep_view()
                    == routes[hi].pattern.deep_view());
                assert(false);
            }
        },
        None => {
            assert(!route_matches(routes[i], method, segs));
            assert(false);
        },
    }
    lemma_params_literal(pat, segs, 0);
    assert(pat_params(pat, segs) =~= Seq::<(Seq<u8>, Seq<u8>)>::empty());
}

/// A path that some route's pattern accepts, under a method no such route
/// carries, resolves to `MethodNotAllowed` -- never to `NotFound`.
pub proof fn lemma_method_mismatch_not_allowed(routes: Seq<Route>, method: Method, segs: Seq<Seq<u8>>)
    requires
        spec_any_path_match(routes, segs),
        forall|j: int| 0 <= j < routes.len() ==> !route_matches(#[trigger] routes[j], method, segs),
    ensures
        spec_match(routes, method, segs) == MatchKind::NotAllowed,
        spec_match(routes, method, segs) != MatchKind::NotFound,
{
    lemma_best_from_props(routes, method, segs, 0, None);
    if spec_best(routes, method, segs) is Some {
        let b = spec_best(routes, method, segs)->0;
        assert(route_matches(routes[b], method, segs));
        assert(false);
    }
}

/// Resolves a method and raw path against the routes. The result is
/// exactly what `spec_match` names: the most specific matching route with
/// its percent-decoded parameters, or the two distinct misses.
pub fn match_route(routes: &Vec<Route>, method: Method, path: &Vec<u8>) -> (r: MatchOutcome)
    ensures
        r is Matched ==> (r->route as int) < routes@.len(),
        ({
            let segs = spec_path_pieces(path@);
            match spec_match(routes@, method, segs) {
                MatchKind::Found(b) => r is Matched && r->route == b && r->params.deep_view()
                    == pat_params(routes@[b].pattern.deep_view(), segs),
                MatchKind::NotAllowed => r is MethodNotAllowed,
                MatchKind::NotFound => r is NoMatch,
            }
        }),
{
    let ghost rv = routes@;
    let segs = path_pieces(path);
    let ghost sv = spec_path_pieces(path@);
    let mut best: Option<(usize, Vec<(Vec<u8>, Vec<u8>)>)> = None;
    let mut any_path: bool = false;
    let mut i: usize = 0;
    while i < routes.len()
        invariant
            0 <= i <= rv.len(),
            rv == routes@,
            segs.deep_view() == sv,
            any_path == exists|j: int|
                0 <= j < i && pat_matches(#[trigger] rv[j].pattern.deep_view(), sv),
            match best {
                Some(p) => {
                    &&& 0 <= (p.0 as int) < i
                    &&& route_matches(rv[p.0 as int], method, sv)
                    &&& p.1.deep_view() == pat_params(rv[p.0 as int].pattern.deep_view(), sv)
                    &&& spec_best(rv, method, sv) == spec_best_from(
                        rv,
                        method,
                        sv,
                        i as int,
                        Some(p.0 as int),
                    )
                },
                None => spec_best(rv, method, sv) == spec_best_from(
                    rv,
                    method,
                    sv,
                    i as int,
                    None::<int>,
                ),
            },
        decreases routes.len() - i,
    {
        let matched = match_segments(&routes[i].pattern, &segs);
        match matched {
            Some(ps) => {
                proof {
                    assert(pat_matches(rv[i as int].pattern.deep_view(), sv));
                }
                any_path = true;
                if routes[i].method == method {
                    let replace = match &best {
                        None => true,
                        Some(p) => pat_more_specific(&routes[i].pattern, &routes[p.0].pattern),
                    };
                    if replace {
                        best = Some((i, ps));
                    }
                } else {
                    proof {
                        assert(!route_matches(rv[i as int], method, sv));
                    }
                }
            },
            None => {
                proof {
                    assert(!route_matches(rv[i as int], method, sv));
                }
            },
        }
        i += 1;
    }
    proof {
        match &best {
            Some(p) => {
                assert(spec_best(rv, method, sv) == Some(p.0 as int));
            },
            None => {
                assert(spec_best(rv, method, sv) is None);
            },
        }
    }
    match best {
        Some(p) => MatchOutcome::Matched { route: p.0, params: p.1 },
        None => {
            if any_path {
                MatchOutcome::MethodNotAllowed
            } else {
                MatchOutcome::NoMatch
            }
        },
    }
}

/// Why registration or composition was refused.
#[derive(Clone, Copy, PartialEq, Eq, Structural, Debug)]
pub enum RouterError {
    /// The path template does not compile (a wildcard stands before the
    /// last segment), or a nest prefix is not purely literal.
    BadPattern,
    /// The method and pattern are already registered.
    DuplicateRoute,
}

/// Whether a route carries exactly this method and pattern.
pub open spec fn route_sig_eq(a: Route, m: Method, p: Seq<SegShape>) -> bool {
    a.method == m && a.pattern.deep_view() == p
}

/// Whether some route carries this method and pattern.
pub open spec fn spec_has_route(rs: Seq<Route>, m: Method, p: Seq<SegShape>) -> bool {
    exists|i: int| 0 <= i < rs.len() && route_sig_eq(#[trigger] rs[i], m, p)
}

/// Whether some pair of routes, one from each table, shares a signature
/// once the second table is nested under `prefix` (empty for a plain
/// merge).
pub open spec fn spec_cross_dup(a: Seq<Route>, prefix: Seq<SegShape>, b: Seq<Route>) -> bool {
    exists|i: int, j: int|
        0 <= i < a.len() && 0 <= j < b.len() && route_sig_eq(
            #[trigger] a[i],
            (#[trigger] b[j]).method,
            prefix + b[j].pattern.deep_view(),
        )
}

fn seg_eq(a: &Segment, b: &Segment) -> (r: bool)
    ensures
        r == (a@ == b@),
{
    match (a, b) {
        (Segment::Literal(x), Segment::Literal(y)) => crate::bytes::bytes_eq(x, y),
        (Segment::Param(x), Segment::Param(y)) => crate::bytes::bytes_eq(x, y),
        (Segment::Wildcard, Segment::Wildcard) => true,
        _ => false,
    }
}

fn seg_clone(g: &Segment) -> (r: Segment)
    ensures
        r@ == g@,
{
    match g {
        Segment::Literal(x) => {
            let c = crate::bytes::subvec(x, 0, x.len());
            assert(c@ =~= x@);
            Segment::Literal(c)
        },
        Segment::Param(x) => {
            let c = crate::bytes::subvec(x, 0, x.len());
            assert(c@ =~= x@);
            Segment::Param(c)
        },
        Segment::Wildcard => Segment::Wildcard,
    }
}

/// Decides pattern equality, segment by segment.
pub fn pattern_eq(a: &Vec<Segment>, b: &Vec<Segment>) -> (r: bool)
    ensures
        r == (a.deep_view() == b.deep_view()),
{
    if a.len() != b.len() {
        assert(a.deep_view().len() != b.deep_view().len());
        return false;
    }
    let mut i: usize = 0;
    while i < a.len()
        invariant
            i <= a@.len(),
            a@.len() == b@.len(),
            forall|j: int| 0 <= j < i ==> a.deep_view()[j] == b.deep_view()[j],
        decreases a.len() - i,
    {
        if !seg_eq(&a[i], &b[i]) {
            assert(a.deep_view()[i as int] != b.deep_view()[i as int]);
            return false;
        }
        i += 1;
    }
    proof {
        assert(a.deep_view() =~= b.deep_view());
    }
    true
}

/// Whether the table already holds a route with this method and pattern.
pub fn has_route(rs: &Vec<Route>, m: Method, p: &Vec<Segment>) -> (r: bool)
    ensures
        r == spec_has_route(rs@, m, p.deep_view()),
{
    let mut i: usize = 0;
    while i < rs.len()
        invariant
            i <= rs@.len(),
            forall|j: int| 0 <= j < i ==> !route_sig_eq(#[trigger] rs@[j], m, p.deep_view()),
        decreases rs.len() - i,
    {
        let same_method = rs[i].method == m;
        if same_method && pattern_eq(&rs[i].pattern, p) {
            assert(route_sig_eq(rs@[i as int], m, p.deep_view()));
            return true;
        }
        i += 1;
    }
    false
}

fn clone_pattern(p: &Vec<Segment>) -> (r: Vec<Segment>)
    ensures
        r.deep_view() == p.deep_view(),
{
    let mut out: Vec<Segment> = Vec::new();
    let mut i: usize = 0;
    while i < p.len()
        invariant
            i <= p@.len(),
            out.deep_view() =~= p.deep_view().take(i as int),
        decreases p.len() - i,
    {
        let ghost o0 = out.deep_view();
        out.push(seg_clone(&p[i]));
        proof {
            assert(out.deep_view() =~= o0.push(p.deep_view()[i as int]));
            assert(out.deep_view() =~= p.deep_view().take(i + 1));
        }
        i += 1;
    }
    proof {
        assert(out.deep_view() =~= p.deep_view());
    }
    out
}

/// The concatenation of two patterns, as a fresh pattern.
fn concat_patterns(a: &Vec<Segment>, b: &Vec<Segment>) -> (r: Vec<Segment>)
    ensures
        r.deep_view() == a.deep_view() + b.deep_view(),
{
    let mut out = clone_pattern(a);
    let mut i: usize = 0;
    while i < b.len()
        invariant
            i <= b@.len(),
            out.deep_view() =~= a.deep_view() + b.deep_view().take(i as int),
        decreases b.len() - i,
    {
        let ghost o0 = out.deep_view();
        out.push(seg_clone(&b[i]));
        proof {
            assert(out.deep_view() =~= o0.push(b.deep_view()[i as int]));
            assert(out.deep_view() =~= a.deep_view() + b.deep_view().take(i + 1));
        }
        i += 1;
    }
    proof {
        assert(out.deep_view() =~= a.deep_view() + b.deep_view());
    }
    out
}

/// A route table with its middleware hooks and fallbacks. Built once at
/// application assembly; matching never changes it.
pub struct Router {
    pub routes: Vec<Route>,
    pub hooks: Vec<Hook>,
    pub fallback: Option<Handler>,
    pub not_allowed_fallback: Option<Handler>,
}

/// A well-formed router: no two routes share method and pattern, and every
/// wildcard is trailing.
pub open spec fn wf_router(r: Router) -> bool {
    wf_routes(r.routes@)
}

impl Router {
    /// An empty router: no routes, no hooks, no fallbacks.
    pub fn new() -> (r: Router)
        ensures
            r.routes@.len() == 0,
            r.hooks@.len() == 0,
            r.fallback is None,
            r.not_allowed_fallback is None,
            wf_router(r),
    {
        Router { routes: Vec::new(), hooks: Vec::new(), fallback: None, not_allowed_fallback: None }
    }

    /// Registers a route. The template is compiled once, here; a template
    /// whose wildcard is not trailing is refused, as is a method+pattern
    /// pair already present.
    pub fn route(&mut self, method: Method, template: &Vec<u8>, handler: Handler) -> (r: Result<
        (),
        RouterError,
    >)
        requires
            wf_router(*old(self)),
        ensures
            wf_router(*final(self)),
            final(self).hooks == old(self).hooks,
            final(self).fallback == old(self).fallback,
            final(self).not_allowed_fallback == old(self).not_allowed_fallback,
            match r {
                Ok(()) => {
                    &&& spec_parse_pattern(template@) is Some
                    &&& !spec_has_route(
                        old(self).routes@,
                        method,
                        spec_parse_pattern(template@)->0,
                    )
                    &&& final(self).routes@.len() == old(self).routes@.len() + 1
                    &&& forall|i: int|
                        0 <= i < old(self).routes@.len() ==> final(self).routes@[i] == old(
                            self,
                        ).routes@[i]
                    &&& final(self).routes@.last().method == method
                    &&& final(self).routes@.last().pattern.deep_view() == spec_parse_pattern(
                        template@,
                    )->0
                    &&& final(self).routes@.last().handler == handler
                },
                Err(RouterError::BadPattern) => {
                    &&& spec_parse_pattern(template@) is None
                    &&& final(self).routes == old(self).routes
                },
                Err(RouterError::DuplicateRoute) => {
                    &&& spec_parse_pattern(template@) is Some
                    &&& spec_has_route(
                        old(self).routes@,
                        method,
                        spec_parse_pattern(template@)->0,
                    )
                    &&& final(self).routes == old(self).routes
                },
            },
    {
        let pat = match parse_pattern(template) {
            None => {
                return Err(RouterError::BadPattern);
            },
            Some(p) => p,
        };
        if has_route(&self.routes, method, &pat) {
            return Err(RouterError::DuplicateRoute);
        }
        let ghost rv0 = self.routes@;
        let ghost pv = pat.deep_view();
        self.routes.push(Route { method, pattern: pat, handler });
        proof {
            assert forall|i: int, j: int| 0 <= i < j < self.routes@.len() implies !(
            self.routes@[i].method == self.routes@[j].method && self.routes@[i].pattern.deep_view()
                == self.routes@[j].pattern.deep_view()) by {
                if j == rv0.len() {
                    assert(!route_sig_eq(rv0[i], method, pv));
                }
            }
            assert forall|i: int| 0 <= i < self.routes@.len() implies wildcard_trailing(
                #[trigger] self.routes@[i].pattern.deep_view(),
            ) by {
                if i < rv0.len() {
                    assert(wildcard_trailing(rv0[i].pattern.deep_view()));
                }
            }
        }
        Ok(())
    }

    /// Appends a middleware hook; the hook registered last is the
    /// outermost layer.
    pub fn layer(&mut self, hook: Hook)
        ensures
            final(self).hooks@ == old(self).hooks@.push(hook),
            final(self).routes == old(self).routes,
            final(self).fallback == old(self).fallback,
            final(self).not_allowed_fallback == old(self).not_allowed_fallback,
    {
        self.hooks.push(hook);
    }

    /// Sets the handler for paths no route matches.
    pub fn set_fallback(&mut self, handler: Handler)
        ensures
            final(self).fallback == Some(handler),
            final(self).routes == old(self).routes,
            final(self).hooks == old(self).hooks,
            final(self).not_allowed_fallback == old(self).not_allowed_fallback,
    {
        self.fallback = Some(handler);
    }

    /// Sets the handler for paths that match only under other methods.
    pub fn set_not_allowed_fallback(&mut self, handler: Handler)
        ensures
            final(self).not_allowed_fallback == Some(handler),
            final(self).routes == old(self).routes,
            final(self).hooks == old(self).hooks,
            final(self).fallback == old(self).fallback,
    {
        self.not_allowed_fallback = Some(handler);
    }

    /// Unions two route tables. A duplicate method+pattern across the two
    /// is refused rather than silently shadowed. Hooks concatenate; for
    /// each fallback, this router's wins and the other's fills a gap.
    pub fn merge(self, other: Router) -> (r: Result<Router, RouterError>)
        requires
            wf_router(self),
            wf_router(other),
        ensures
            match r {
                Ok(out) => {
                    &&& !spec_cross_dup(self.routes@, Seq::empty(), other.routes@)
                    &&& wf_router(out)
                    &&& out.routes@.len() == self.routes@.len() + other.routes@.len()
                    &&& forall|i: int|
                        0 <= i < self.routes@.len() ==> out.routes@[i] == self.routes@[i]
                    &&& forall|j: int|
                        0 <= j < other.routes@.len() ==> out.routes@[self.routes@.len() + j]
                            == other.routes@[j]
                    &&& out.hooks@ == self.hooks@ + other.hooks@
                    &&& out.fallback == (if self.fallback is Some {
                        self.fallback
                    } else {
                        other.fallback
                    })
                    &&& out.not_allowed_fallback == (if self.not_allowed_fallback is Some {
                        self.not_allowed_fallback
                    } else {
                        other.not_allowed_fallback
                    })
                },
                Err(e) => e == RouterError::DuplicateRoute && spec_cross_dup(
                    self.routes@,
                    Seq::empty(),
                    other.routes@,
                ),
            },
    {
        let ghost av = self.routes@;
        let ghost bv = other.routes@;
        let s = self;
        let o = other;
        let mut routes = s.routes;
        let mut hooks = s.hooks;
        let sfb = s.fallback;
        let snafb = s.not_allowed_fallback;
        let mut rest = o.routes;
        let mut ohooks = o.hooks;
        let ofb = o.fallback;
        let onafb = o.not_allowed_fallback;
        let ghost mut k: int = 0;
        while rest.len() > 0
            invariant
                av == self.routes@,
                bv == other.routes@,
                0 <= k <= bv.len(),
                rest@ =~= bv.skip(k),
                routes@.len() == av.len() + k,
                forall|i: int| 0 <= i < av.len() ==> routes@[i] == av[i],
                forall|j: int| 0 <= j < k ==> routes@[av.len() + j] == bv[j],
                forall|j: int|
                    0 <= j < k ==> !spec_has_route(
                        av,
                        (#[trigger] bv[j]).method,
                        bv[j].pattern.deep_view(),
                    ),
                wf_routes(routes@),
                wf_routes(bv),
            decreases rest.len(),
        {
            let rt = rest.remove(0);
            proof {
                assert(rt == bv[k]);
                assert(rest@ =~= bv.skip(k + 1));
            }
            if has_route(&routes, rt.method, &rt.pattern) {
                proof {
                    let i = choose|i: int|
                        0 <= i < routes@.len() && route_sig_eq(
                            #[trigger] routes@[i],
                            rt.method,
                            rt.pattern.deep_view(),
                        );
                    if i < av.len() {
                        assert(route_sig_eq(
                            av[i],
                            bv[k].method,
                            Seq::empty() + bv[k].pattern.deep_view(),
                        )) by {
                            assert(Seq::empty() + bv[k].pattern.deep_view() =~= bv[
                                k].pattern.deep_view());
                        }
                        assert(spec_cross_dup(av, Seq::empty(), bv));
                    } else {
                        let j = i - av.len();
                        assert(routes@[i] == bv[j]);
                        assert(bv[j].method == bv[k].method && bv[j].pattern.deep_view() == bv[
                            k].pattern.deep_view());
                        assert(false);
                    }
                    assert(spec_cross_dup(av, Seq::empty(), bv));
                }
                return Err(RouterError::DuplicateRoute);
            }
            let ghost rv0 = routes@;
            routes.push(rt);
            proof {
                k = k + 1;
                assert forall|i: int, j: int| 0 <= i < j < routes@.len() implies !(
                routes@[i].method == routes@[j].method && routes@[i].pattern.deep_view()
                    == routes@[j].pattern.deep_view()) by {
                    if j == rv0.len() {
                        assert(!route_sig_eq(rv0[i], bv[k - 1].method, bv[k - 1].pattern.deep_view()));
                    }
                }
                assert forall|i: int| 0 <= i < routes@.len() implies wildcard_trailing(
                    #[trigger] routes@[i].pattern.deep_view(),
                ) by {
                    if i < rv0.len() {
                        assert(wildcard_trailing(rv0[i].pattern.deep_view()));
                    } else {
                        assert(routes@[i] == bv[k - 1]);
                        assert(wildcard_trailing(bv[k - 1].pattern.deep_view()));
                    }
                }
            }
        }
        proof {
            assert(k == bv.len());
            assert(!spec_cross_dup(av, Seq::empty(), bv)) by {
                if spec_cross_dup(av, Seq::empty(), bv) {
                    let (i, j) = choose|i: int, j: int|
                        0 <= i < av.len() && 0 <= j < bv.len() && route_sig_eq(
                            #[trigger] av[i],
                            (#[trigger] bv[j]).method,
                            Seq::empty() + bv[j].pattern.deep_view(),
                        );
                    assert(Seq::empty() + bv[j].pattern.deep_view() =~= bv[j].pattern.deep_view());
                    assert(spec_has_route(av, bv[j].method, bv[j].pattern.deep_view()));
                }
            }
        }
        hooks.append(&mut ohooks);
        let fallback = if sfb.is_some() {
            sfb
        } else {
            ofb
        };
        let not_allowed_fallback = if snafb.is_some() {
            snafb
        } else {
            onafb
        };
        Ok(Router { routes, hooks, fallback, not_allowed_fallback })
    }

    /// Nests a sub-table under a literal path prefix: every nested route
    /// gets the prefix segments in front of its own pattern. A prefix with
    /// parameters or a wildcard is refused, as is a nested pattern that
    /// collides with an existing one. The sub-table's hooks are not
    /// inherited; its fallback applies only when this router has none.
    pub fn nest(self, prefix: &Vec<u8>, sub: Router) -> (r: Result<Router, RouterError>)
        requires
            wf_router(self),
            wf_router(sub),
        ensures
            match r {
                Ok(out) => {
                    &&& spec_parse_pattern(prefix@) is Some
                    &&& all_literal(spec_parse_pattern(prefix@)->0)
                    &&& !spec_cross_dup(self.routes@, spec_parse_pattern(prefix@)->0, sub.routes@)
                    &&& wf_router(out)
                    &&& out.routes@.len() == self.routes@.len() + sub.routes@.len()
                    &&& forall|i: int|
                        0 <= i < self.routes@.len() ==> out.routes@[i] == self.routes@[i]
                    &&& forall|j: int|
                        0 <= j < sub.routes@.len() ==> {
                            &&& (#[trigger] out.routes@[self.routes@.len() + j]).method
                                == sub.routes@[j].method
                            &&& out.routes@[self.routes@.len() + j].pattern.deep_view()
                                == spec_parse_pattern(prefix@)->0
                                + sub.routes@[j].pattern.deep_view()
                            &&& out.routes@[self.routes@.len() + j].handler
                                == sub.routes@[j].handler
                        }
                    &&& out.hooks == self.hooks
                    &&& out.fallback == (if self.fallback is Some {
                        self.fallback
                    } else {
                        sub.fallback
                    })
                    &&& out.not_allowed_fallback == self.not_allowed_fallback
                },
                Err(RouterError::BadPattern) => !(spec_parse_pattern(prefix@) is Some
                    && all_literal(spec_parse_pattern(prefix@)->0)),
                Err(RouterError::DuplicateRoute) => {
                    &&& spec_parse_pattern(prefix@) is Some
                    &&& all_literal(spec_parse_pattern(prefix@)->0)
                    &&& spec_cross_dup(
                        self.routes@,
                        spec_parse_pattern(prefix@)->0,
                        sub.routes@,
                    )
                },
            },
    {
        let pref = match parse_pattern(prefix) {
            None => {
                return Err(RouterError::BadPattern);
            },
            Some(p) => p,
        };
        let ghost prefv = pref.deep_view();
        let mut t: usize = 0;
        while t < pref.len()
            invariant
                t <= pref@.len(),
                prefv == pref.deep_view(),
                spec_parse_pattern(prefix@) == Some(prefv),
                forall|m: int| 0 <= m < t ==> (#[trigger] prefv[m]) is Literal,
            decreases pref.len() - t,
        {
            let is_lit = match &pref[t] {
                Segment::Literal(_) => true,
                _ => false,
            };
            if !is_lit {
                proof {
                    assert(!((#[trigger] prefv[t as int]) is Literal));
                    assert(!all_literal(prefv));
                }
                return Err(RouterError::BadPattern);
            }
            t += 1;
        }
        assert(all_literal(prefv));
        let ghost av = self.routes@;
        let ghost bv = sub.routes@;
        let s = self;
        let o = sub;
        let mut routes = s.routes;
        let hooks = s.hooks;
        let sfb = s.fallback;
        let snafb = s.not_allowed_fallback;
        let mut rest = o.routes;
        let ofb = o.fallback;
        let ghost mut k: int = 0;
        while rest.len() > 0
            invariant
                av == self.routes@,
                bv == sub.routes@,
                prefv == pref.deep_view(),
                spec_parse_pattern(prefix@) == Some(prefv),
                all_literal(prefv),
                0 <= k <= bv.len(),
                rest@ =~= bv.skip(k),
                routes@.len() == av.len() + k,
                forall|i: int| 0 <= i < av.len() ==> routes@[i] == av[i],
                forall|j: int|
                    0 <= j < k ==> {
                        &&& (#[trigger] routes@[av.len() + j]).method == bv[j].method
                        &&& routes@[av.len() + j].pattern.deep_view() == prefv + bv[
                            j].pattern.deep_view()
                        &&& routes@[av.len() + j].handler == bv[j].handler
                    },
                forall|j: int|
                    0 <= j < k ==> !spec_has_route(
                        av,
                        (#[trigger] bv[j]).method,
                        prefv + bv[j].pattern.deep_view(),
                    ),
                wf_routes(routes@),
                wf_routes(bv),
            decreases rest.len(),
        {
            let rt = rest.remove(0);
            proof {
                assert(rt == bv[k]);
                assert(rest@ =~= bv.skip(k + 1));
            }
            let Route { method: rm, pattern: rp, handler: rh } = rt;
            let np = concat_patterns(&pref, &rp);
            proof {
                assert(np.deep_view() == prefv + bv[k].pattern.deep_view());
            }
            if has_route(&routes, rm, &np) {
                proof {
                    let i = choose|i: int|
                        0 <= i < routes@.len() && route_sig_eq(
                            #[trigger] routes@[i],
                            rm,
                            np.deep_view(),
                        );
                    if i < av.len() {
                        assert(route_sig_eq(av[i], bv[k].method, prefv + bv[k].pattern.deep_view()));
                        assert(spec_cross_dup(av, prefv, bv));
                    } else {
                        let j = i - av.len();
                        assert(0 <= j < k);
                        assert((#[trigger] routes@[av.len() + j]).method == bv[j].method);
                        assert(routes@[av.len() + j].pattern.deep_view() == prefv + bv[
                            j].pattern.deep_view());
                        assert(i == av.len() + j);
                        assert(routes@[i].pattern.deep_view() == prefv + bv[j].pattern.deep_view());
                        lemma_concat_left_cancel(
                            prefv,
                            bv[j].pattern.deep_view(),
                            bv[k].pattern.deep_view(),
                        );
                        assert(bv[j].method == bv[k].method && bv[j].pattern.deep_view() == bv[
                            k].pattern.deep_view());
                        assert(false);
                    }
                }
                return Err(RouterError::DuplicateRoute);
            }
            let ghost rv0 = routes@;
            routes.push(Route { method: rm, pattern: np, handler: rh });
            proof {
                k = k + 1;
                assert forall|i: int, j: int| 0 <= i < j < routes@.len() implies !(
                routes@[i].method == routes@[j].method && routes@[i].pattern.deep_view()
                    == routes@[j].pattern.deep_view()) by {
                    if j == rv0.len() {
                        assert(!route_sig_eq(rv0[i], rm, prefv + bv[k - 1].pattern.deep_view()));
                    }
                }
                assert forall|i: int| 0 <= i < routes@.len() implies wildcard_trailing(
                    #[trigger] routes@[i].pattern.deep_view(),
                ) by {
                    if i < rv0.len() {
                        assert(wildcard_trailing(rv0[i].pattern.deep_view()));
                    } else {
                        let sp = bv[k - 1].pattern.deep_view();
                        assert(wildcard_trailing(sp));
                        let np2 = routes@[i].pattern.deep_view();
                        assert(np2 == prefv + sp);
                        assert forall|m: int| 0 <= m < np2.len() - 1 implies !((
                        #[trigger] np2[m]) is Wildcard) by {
                            if m < prefv.len() {
                                assert(prefv[m] is Literal);
                                assert(np2[m] == prefv[m]);
                            } else {
                                assert(np2[m] == sp[m - prefv.len()]);
                                assert(!(sp[m - prefv.len()] is Wildcard));
                            }
                        }
                    }
                }
            }
        }
        proof {
            assert(k == bv.len());
            assert(!spec_cross_dup(av, prefv, bv)) by {
                if spec_cross_dup(av, prefv, bv) {
                    let (i, j) = choose|i: int, j: int|
                        0 <= i < av.len() && 0 <= j < bv.len() && route_sig_eq(
                            #[trigger] av[i],
                            (#[trigger] bv[j]).method,
                            prefv + bv[j].pattern.deep_view(),
                        );
                    assert(spec_has_route(av, bv[j].method, prefv + bv[j].pattern.deep_view()));
                }
            }
        }
        let fallback = if sfb.is_some() {
            sfb
        } else {
            ofb
        };
        Ok(Router { routes, hooks, fallback, not_allowed_fallback: snafb })
    }
}

/// Equal sequences stay equal when a shared prefix is cut off.
pub proof fn lemma_concat_left_cancel(p: Seq<SegShape>, a: Seq<SegShape>, b: Seq<SegShape>)
    requires
        p + a == p + b,
    ensures
        a == b,
{
    assert(a =~= (p + a).skip(p.len() as int));
    assert(b =~= (p + b).skip(p.len() as int));
}

} // verus!
