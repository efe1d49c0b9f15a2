//! Wire-level request and response values.
//!
//! Headers are multi-valued lists of name/value pairs; header names compare
//! ASCII-case-insensitively. A response keeps its headers in insertion
//! order and may carry duplicate names (as `Set-Cookie` needs).

use vstd::prelude::*;
use crate::bytes::eq_ignore_case;
use crate::bytes::bytes_eq_ignore_case;
use crate::bytes::lit;
use crate::bytes::subvec;
use crate::bytes::text;

verus! {

/// An HTTP request method.
#[derive(Clone, Copy, PartialEq, Eq, Structural, Debug)]
pub enum Method {
    Get,
    Post,
    Put,
    Delete,
    Patch,
    Head,
    Options,
}

/// The canonical upper-case name of a method.
pub open spec fn spec_method_name(m: Method) -> Seq<u8> {
    match m {
        Method::Get => lit("GET"),
        Method::Post => lit("POST"),
        Method::Put => lit("PUT"),
        Method::Delete => lit("DELETE"),
        Method::Patch => lit("PATCH"),
        Method::Head => lit("HEAD"),
        Method::Options => lit("OPTIONS"),
    }
}

pub fn method_name(m: Method) -> (r: Vec<u8>)
    ensures
        r@ == spec_method_name(m),
{
    match m {
        Method::Get => text("GET"),
        Method::Post => text("POST"),
        Method::Put => text("PUT"),
        Method::Delete => text("DELETE"),
        Method::Patch => text("PATCH"),
        Method::Head => text("HEAD"),
        Method::Options => text("OPTIONS"),
    }
}

/// A parsed incoming request, as the transport layer hands it over.
pub struct Request {
    pub method: Method,
    pub path: Vec<u8>,
    pub query: Vec<u8>,
    pub headers: Vec<(Vec<u8>, Vec<u8>)>,
    pub body: Vec<u8>,
}

/// A wire-level response: status, ordered headers, body bytes.
pub struct Response {
    pub status: u16,
    pub headers: Vec<(Vec<u8>, Vec<u8>)>,
    pub body: Vec<u8>,
}

/// First value under a name, compared ASCII-case-insensitively, from
/// position `i` on.
pub open spec fn spec_lookup_from(
    hs: Seq<(Seq<u8>, Seq<u8>)>,
    name: Seq<u8>,
    i: int,
) -> Option<Seq<u8>>
    decreases hs.len() - i when 0 <= i <= hs.len()
{
    if i >= hs.len() {
        None
    } else if eq_ignore_case(hs[i].0, name) {
        Some(hs[i].1)
    } else {
        spec_lookup_from(hs, name, i + 1)
    }
}

/// The first header value under `name`, case-insensitively.
pub open spec fn spec_header_get(hs: Seq<(Seq<u8>, Seq<u8>)>, name: Seq<u8>) -> Option<Seq<u8>> {
    spec_lookup_from(hs, name, 0)
}

/// Looks a header up by name, ASCII-case-insensitively; the first value
/// wins when the name repeats.
pub fn header_get(hs: &Vec<(Vec<u8>, Vec<u8>)>, name: &Vec<u8>) -> (r: Option<Vec<u8>>)
    ensures
        r is Some <==> spec_header_get(hs.deep_view(), name@) is Some,
        r is Some ==> r->0@ == spec_header_get(hs.deep_view(), name@)->0,
{
    let ghost hv = hs.deep_view();
    let mut i: usize = 0;
    while i < hs.len()
        invariant
            i <= hs@.len(),
            hv == hs.deep_view(),
            spec_header_get(hv, name@) == spec_lookup_from(hv, name@, i as int),
        decreases hs.len() - i,
    {
        proof {
            assert(hv[i as int].0 =~= hs@[i as int].0@);
            assert(hv[i as int].1 =~= hs@[i as int].1@);
        }
        if bytes_eq_ignore_case(&hs[i].0, name) {
            let v = subvec(&hs[i].1, 0, hs[i].1.len());
            assert(v@ =~= hv[i as int].1);
            return Some(v);
        }
        i += 1;
    }
    None
}

/// Every value under a name, compared ASCII-case-insensitively, from
/// position `i` on, in list order.
pub open spec fn spec_all_from(hs: Seq<(Seq<u8>, Seq<u8>)>, name: Seq<u8>, i: int) -> Seq<Seq<u8>>
    decreases hs.len() - i when 0 <= i <= hs.len()
{
    if i >= hs.len() {
        Seq::empty()
    } else if eq_ignore_case(hs[i].0, name) {
        seq![hs[i].1] + spec_all_from(hs, name, i + 1)
    } else {
        spec_all_from(hs, name, i + 1)
    }
}

/// All header values under `name`, case-insensitively, in order.
pub open spec fn spec_header_all(hs: Seq<(Seq<u8>, Seq<u8>)>, name: Seq<u8>) -> Seq<Seq<u8>> {
    spec_all_from(hs, name, 0)
}

/// Collects every value under `name`, ASCII-case-insensitively, in list
/// order: headers are multi-valued.
pub fn header_get_all(hs: &Vec<(Vec<u8>, Vec<u8>)>, name: &Vec<u8>) -> (r: Vec<Vec<u8>>)
    ensures
        r.deep_view() == spec_header_all(hs.deep_view(), name@),
{
    let ghost hv = hs.deep_view();
    let mut out: Vec<Vec<u8>> = Vec::new();
    let mut i: usize = 0;
    while i < hs.len()
        invariant
            i <= hs@.len(),
            hv == hs.deep_view(),
            spec_header_all(hv, name@) =~~= out.deep_view() + spec_all_from(hv, name@, i as int),
        decreases hs.len() - i,
    {
        proof {
            assert(hv[i as int].0 =~= hs@[i as int].0@);
            assert(hv[i as int].1 =~= hs@[i as int].1@);
        }
        let ghost o0 = out.deep_view();
        if bytes_eq_ignore_case(&hs[i].0, name) {
            let v = subvec(&hs[i].1, 0, hs[i].1.len());
            proof {
                assert(v@ =~= hv[i as int].1);
            }
            out.push(v);
            proof {
                assert(out.deep_view() =~~= o0.push(hv[i as int].1));
                assert(o0 + spec_all_from(hv, name@, i as int) =~~= out.deep_view()
                    + spec_all_from(hv, name@, i + 1));
            }
        }
        i += 1;
    }
    proof {
        assert(out.deep_view() + Seq::<Seq<u8>>::empty() =~~= out.deep_view());
    }
    out
}

/// The header list with every pair under `name` removed, from `i` on.
pub open spec fn spec_remove_from(hs: Seq<(Seq<u8>, Seq<u8>)>, name: Seq<u8>, i: int) -> Seq<
    (Seq<u8>, Seq<u8>),
>
    decreases hs.len() - i when 0 <= i <= hs.len()
{
    if i >= hs.len() {
        Seq::empty()
    } else if eq_ignore_case(hs[i].0, name) {
        spec_remove_from(hs, name, i + 1)
    } else {
        seq![hs[i]] + spec_remove_from(hs, name, i + 1)
    }
}

/// The header list after setting `name` to exactly one `value`: all old
/// values under the name leave, the new pair goes to the end.
pub open spec fn spec_set_header(
    hs: Seq<(Seq<u8>, Seq<u8>)>,
    name: Seq<u8>,
    value: Seq<u8>,
) -> Seq<(Seq<u8>, Seq<u8>)> {
    spec_remove_from(hs, name, 0).push((name, value))
}

/// Replaces every value under `name` (case-insensitively) with one pair
/// `(name, value)` at the end of the list.
pub fn set_header(hs: &Vec<(Vec<u8>, Vec<u8>)>, name: Vec<u8>, value: Vec<u8>) -> (r: Vec<
    (Vec<u8>, Vec<u8>),
>)
    ensures
        r.deep_view() == spec_set_header(hs.deep_view(), name@, value@),
{
    let ghost hv = hs.deep_view();
    let mut out: Vec<(Vec<u8>, Vec<u8>)> = Vec::new();
    let mut i: usize = 0;
    while i < hs.len()
        invariant
            i <= hs@.len(),
            hv == hs.deep_view(),
            spec_remove_from(hv, name@, 0) =~~= out.deep_view() + spec_remove_from(
                hv,
                name@,
                i as int,
            ),
        decreases hs.len() - i,
    {
        proof {
            assert(hv[i as int].0 =~= hs@[i as int].0@);
            assert(hv[i as int].1 =~= hs@[i as int].1@);
        }
        let ghost out0 = out.deep_view();
        if !bytes_eq_ignore_case(&hs[i].0, &name) {
            let n = subvec(&hs[i].0, 0, hs[i].0.len());
            let v = subvec(&hs[i].1, 0, hs[i].1.len());
            proof {
                assert(n@ =~= hv[i as int].0);
                assert(v@ =~= hv[i as int].1);
            }
            out.push((n, v));
            proof {
                assert(out.deep_view() =~~= out0.push(hv[i as int]));
                assert(out0 + spec_remove_from(hv, name@, i as int) =~~= out.deep_view()
                    + spec_remove_from(hv, name@, i + 1));
            }
        }
        i += 1;
    }
    let ghost out0 = out.deep_view();
    out.push((name, value));
    proof {
        assert(out.deep_view() =~~= out0.push((name@, value@)));
        assert(out.deep_view() =~~= spec_set_header(hv, name@, value@));
    }
    out
}

} // verus!
