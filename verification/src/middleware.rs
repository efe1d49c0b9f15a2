//! Middleware hooks.
//!
//! Hooks are ordered descriptors bound to a router: the hook registered
//! last is the outermost layer, so it acts first on the way in and last on
//! the way out (onion ordering). A request-transforming hook may rewrite
//! headers before inner layers see them; a failure-catching hook converts
//! an opaque handler failure into a response instead of letting it leave
//! the dispatch pipeline.

use vstd::prelude::*;
use crate::http::spec_set_header;
use crate::http::set_header;

verus! {

/// One middleware hook.
pub enum Hook {
    /// Observes the exchange without changing it (a logging layer).
    Observe,
    /// Replaces the named request header with a fixed value before the
    /// request reaches inner layers.
    SetRequestHeader(Vec<u8>, Vec<u8>),
    /// Catches an opaque handler failure: the response gets this status,
    /// and the failure message follows the given body prefix.
    CatchFailure(u16, Vec<u8>),
    /// Aborts the chain on the way in and substitutes this fixed
    /// response, before any inner layer or the handler runs (how a
    /// request-deadline layer reports a timeout).
    Abort(u16, Vec<u8>),
}

/// The request headers after the pre-hooks ran, outermost (last
/// registered) first.
pub open spec fn spec_pre_headers(hooks: Seq<Hook>, hdrs: Seq<(Seq<u8>, Seq<u8>)>) -> Seq<
    (Seq<u8>, Seq<u8>),
>
    decreases hooks.len(),
{
    if hooks.len() == 0 {
        hdrs
    } else {
        let after_outer = match hooks.last() {
            Hook::SetRequestHeader(n, v) => spec_set_header(hdrs, n@, v@),
            _ => hdrs,
        };
        spec_pre_headers(hooks.drop_last(), after_outer)
    }
}

/// The first hook (in registration order, so innermost first) that
/// catches failures, if any.
pub open spec fn spec_first_catch(hooks: Seq<Hook>, i: int) -> Option<(u16, Seq<u8>)>
    decreases hooks.len() - i when 0 <= i <= hooks.len()
{
    if i >= hooks.len() {
        None
    } else {
        match hooks[i] {
            Hook::CatchFailure(status, prefix) => Some((status, prefix@)),
            _ => spec_first_catch(hooks, i + 1),
        }
    }
}

/// The substituted response of the outermost aborting hook, if any: the
/// hook registered last acts first on the way in, so the scan runs from
/// the end.
pub open spec fn spec_outer_abort(hooks: Seq<Hook>) -> Option<(u16, Seq<u8>)>
    decreases hooks.len(),
{
    if hooks.len() == 0 {
        None
    } else {
        match hooks.last() {
            Hook::Abort(status, body) => Some((status, body@)),
            _ => spec_outer_abort(hooks.drop_last()),
        }
    }
}

/// Finds the outermost aborting hook.
pub fn outer_abort(hooks: &Vec<Hook>) -> (r: Option<(u16, Vec<u8>)>)
    ensures
        r is Some <==> spec_outer_abort(hooks@) is Some,
        r is Some ==> (r->0).0 == (spec_outer_abort(hooks@)->0).0 && ((r->0).1)@ == (
        spec_outer_abort(hooks@)->0).1,
{
    let mut i: usize = hooks.len();
    proof {
        assert(hooks@.take(i as int) =~= hooks@);
    }
    while i > 0
        invariant
            i <= hooks@.len(),
            spec_outer_abort(hooks@) == spec_outer_abort(hooks@.take(i as int)),
        decreases i,
    {
        i -= 1;
        proof {
            assert(hooks@.take(i + 1).last() == hooks@[i as int]);
            assert(hooks@.take(i + 1).drop_last() =~= hooks@.take(i as int));
        }
        match &hooks[i] {
            Hook::Abort(status, body) => {
                let b = crate::bytes::subvec(body, 0, body.len());
                return Some((*status, b));
            },
            _ => {},
        }
    }
    proof {
        assert(hooks@.take(0) =~= Seq::<Hook>::empty());
    }
    None
}

/// Runs the request side of every hook, outermost first, over the request
/// headers.
pub fn apply_pre_hooks(hooks: &Vec<Hook>, hdrs: Vec<(Vec<u8>, Vec<u8>)>) -> (r: Vec<
    (Vec<u8>, Vec<u8>),
>)
    ensures
        r.deep_view() == spec_pre_headers(hooks@, hdrs.deep_view()),
{
    let ghost orig = hdrs.deep_view();
    let mut cur = hdrs;
    let mut i: usize = hooks.len();
    proof {
        assert(hooks@.take(hooks@.len() as int) =~= hooks@);
    }
    while i > 0
        invariant
            i <= hooks@.len(),
            spec_pre_headers(hooks@, orig) == spec_pre_headers(
                hooks@.take(i as int),
                cur.deep_view(),
            ),
        decreases i,
    {
        i -= 1;
        let ghost pre = hooks@.take(i + 1);
        proof {
            assert(pre.last() == hooks@[i as int]);
            assert(pre.drop_last() =~= hooks@.take(i as int));
        }
        match &hooks[i] {
            Hook::SetRequestHeader(n, v) => {
                let n2 = crate::bytes::subvec(n, 0, n.len());
                let v2 = crate::bytes::subvec(v, 0, v.len());
                proof {
                    assert(n2@ =~= n@);
                    assert(v2@ =~= v@);
                }
                let ghost before = cur.deep_view();
                cur = set_header(&cur, n2, v2);
                proof {
                    assert(cur.deep_view() == spec_set_header(before, n@, v@));
                }
            },
            _ => {},
        }
    }
    proof {
        assert(hooks@.take(0) =~= Seq::<Hook>::empty());
    }
    cur
}

/// Finds the innermost failure-catching hook.
pub fn first_catch(hooks: &Vec<Hook>) -> (r: Option<(u16, Vec<u8>)>)
    ensures
        r is Some <==> spec_first_catch(hooks@, 0) is Some,
        r is Some ==> (r->0).0 == (spec_first_catch(hooks@, 0)->0).0 && ((r->0).1)@ == (
        spec_first_catch(hooks@, 0)->0).1,
{
    let mut i: usize = 0;
    while i < hooks.len()
        invariant
            i <= hooks@.len(),
            spec_first_catch(hooks@, 0) == spec_first_catch(hooks@, i as int),
        decreases hooks.len() - i,
    {
        match &hooks[i] {
            Hook::CatchFailure(status, prefix) => {
                let p = crate::bytes::subvec(prefix, 0, prefix.len());
                return Some((*status, p));
            },
            _ => {},
        }
        i += 1;
    }
    None
}

} // verus!
