//! Multipart form bodies.
//!
//! A `multipart/form-data` body is a sequence of named fields separated
//! by a boundary line. This module parses the whole body into its fields
//! in arrival order: each part opens with `--boundary` and a line break,
//! carries headers up to an empty line (the field's name stands in
//! `name="..."` there), and its raw content runs to the next boundary;
//! `--boundary--` closes the sequence.

use vstd::prelude::*;
use crate::bytes::bytes_eq;
use crate::bytes::find_seq;
use crate::bytes::lemma_find_seq_range;
use crate::bytes::lit;
use crate::bytes::spec_find_seq;
use crate::bytes::subvec;
use crate::bytes::text;
use crate::extract::find_byte_from;
use crate::extract::spec_find;
use crate::extract::SEMI;

verus! {

pub const CR: u8 = 13;

pub const LF: u8 = 10;

pub const DASH: u8 = 45;

pub const DQUOTE: u8 = 34;

/// The field name a part's header block declares: the text between
/// `name="` and the next quote; empty when none is declared.
pub open spec fn spec_part_name(hdrs: Seq<u8>) -> Seq<u8> {
    let token = lit("name=\"");
    let p = spec_find_seq(hdrs, token, 0);
    if p + token.len() > hdrs.len() {
        Seq::empty()
    } else {
        let start = p + token.len() as int;
        hdrs.subrange(start, spec_find(hdrs, DQUOTE, start))
    }
}

/// Reads the declared field name out of one part's header block.
pub fn part_name(hdrs: &Vec<u8>) -> (r: Vec<u8>)
    ensures
        r@ == spec_part_name(hdrs@),
{
    let token = text("name=\"");
    let p = find_seq(hdrs, &token, 0);
    if hdrs.len() - p < token.len() {
        Vec::new()
    } else {
        let start = p + token.len();
        let q = find_byte_from(hdrs, DQUOTE, start);
        let r = subvec(hdrs, start, q);
        assert(r@ =~= hdrs@.subrange(start as int, spec_find(hdrs@, DQUOTE, start as int)));
        r
    }
}

/// The fields from the part whose delimiter ends at `i` on: `--` closes
/// the body, a line break opens a part whose headers run to the first
/// empty line and whose content runs to the next delimiter. Anything
/// else is malformed.
pub open spec fn spec_parse_parts(body: Seq<u8>, delim: Seq<u8>, i: int) -> Option<
    Seq<(Seq<u8>, Seq<u8>)>,
>
    decreases body.len() - i when 0 <= i <= body.len() via spec_parse_parts_decreases
{
    if i + 2 <= body.len() && body[i] == DASH && body[i + 1] == DASH {
        Some(Seq::empty())
    } else if i + 2 <= body.len() && body[i] == CR && body[i + 1] == LF {
        let hstart = i + 2;
        let hend = spec_find_seq(body, seq![CR, LF, CR, LF], hstart);
        if hend + 4 > body.len() {
            None
        } else {
            let cstart = hend + 4;
            let cend = spec_find_seq(body, seq![CR, LF] + delim, cstart);
            if cend + 2 + delim.len() > body.len() {
                None
            } else {
                let name = spec_part_name(body.subrange(hstart, hend));
                let content = body.subrange(cstart, cend);
                match spec_parse_parts(body, delim, cend + 2 + delim.len() as int) {
                    None => None,
                    Some(rest) => Some(seq![(name, content)] + rest),
                }
            }
        }
    } else {
        None
    }
}

#[via_fn]
proof fn spec_parse_parts_decreases(body: Seq<u8>, delim: Seq<u8>, i: int) {
    if 0 <= i <= body.len() {
        if i + 2 <= body.len() && !(body[i] == DASH && body[i + 1] == DASH) && body[i] == CR
            && body[i + 1] == LF {
            let hstart = i + 2;
            lemma_find_seq_range(body, seq![CR, LF, CR, LF], hstart);
            let hend = spec_find_seq(body, seq![CR, LF, CR, LF], hstart);
            if hend + 4 <= body.len() {
                lemma_find_seq_range(body, seq![CR, LF] + delim, hend + 4);
            }
        }
    }
}

/// The boundary a `Content-Type` value declares: the text after
/// `boundary=`, up to the next `;` or the end; nothing without that
/// parameter.
pub open spec fn spec_boundary_of(ct: Seq<u8>) -> Option<Seq<u8>> {
    let token = lit("boundary=");
    let p = spec_find_seq(ct, token, 0);
    if p + token.len() > ct.len() {
        None
    } else {
        let start = p + token.len() as int;
        Some(ct.subrange(start, spec_find(ct, SEMI, start)))
    }
}

/// Reads the boundary parameter out of a `Content-Type` value.
pub fn boundary_of(ct: &Vec<u8>) -> (r: Option<Vec<u8>>)
    ensures
        r is Some <==> spec_boundary_of(ct@) is Some,
        r is Some ==> r->0@ == spec_boundary_of(ct@)->0,
{
    let token = text("boundary=");
    let p = find_seq(ct, &token, 0);
    if ct.len() - p < token.len() {
        None
    } else {
        let start = p + token.len();
        let e = find_byte_from(ct, SEMI, start);
        let r = subvec(ct, start, e);
        assert(r@ =~= ct@.subrange(start as int, spec_find(ct@, SEMI, start as int)));
        Some(r)
    }
}

/// A whole multipart body: it must open with `--boundary`, and its parts
/// follow as `spec_parse_parts` says.
pub open spec fn spec_multipart(body: Seq<u8>, boundary: Seq<u8>) -> Option<
    Seq<(Seq<u8>, Seq<u8>)>,
> {
    let delim = seq![DASH, DASH] + boundary;
    if body.len() >= delim.len() && body.subrange(0, delim.len() as int) == delim {
        spec_parse_parts(body, delim, delim.len() as int)
    } else {
        None
    }
}

/// Parses a multipart body into its named fields, in arrival order;
/// `None` when the body does not follow the boundary grammar.
pub fn multipart_fields(body: &Vec<u8>, boundary: &Vec<u8>) -> (r: Option<
    Vec<(Vec<u8>, Vec<u8>)>,
>)
    ensures
        r is Some <==> spec_multipart(body@, boundary@) is Some,
        r is Some ==> r->0.deep_view() == spec_multipart(body@, boundary@)->0,
{
    let mut delim: Vec<u8> = Vec::new();
    delim.push(DASH);
    delim.push(DASH);
    let mut t: usize = 0;
    while t < boundary.len()
        invariant
            t <= boundary@.len(),
            delim@ =~= seq![DASH, DASH] + boundary@.take(t as int),
        decreases boundary.len() - t,
    {
        delim.push(boundary[t]);
        assert(delim@ =~= seq![DASH, DASH] + boundary@.take(t + 1));
        t += 1;
    }
    assert(delim@ =~= seq![DASH, DASH] + boundary@);
    let ghost dv = delim@;
    let ghost bv = body@;
    if body.len() < delim.len() {
        return None;
    }
    let head = subvec(body, 0, delim.len());
    assert(head@ =~= bv.subrange(0, dv.len() as int));
    if !bytes_eq(&head, &delim) {
        return None;
    }
    let ghost start = dv.len() as int;
    let mut out: Vec<(Vec<u8>, Vec<u8>)> = Vec::new();
    let mut i: usize = delim.len();
    loop
        invariant
            dv.len() <= i <= bv.len(),
            dv == delim@,
            dv == seq![DASH, DASH] + boundary@,
            bv == body@,
            bv.len() >= dv.len() && bv.subrange(0, dv.len() as int) == dv,
            start == dv.len() as int,
            (match spec_parse_parts(bv, dv, start) {
                None => spec_parse_parts(bv, dv, i as int) is None,
                Some(ps) => spec_parse_parts(bv, dv, i as int) matches Some(pr) && ps
                    == out.deep_view() + pr,
            }),
        decreases bv.len() - i,
    {
        if body.len() - i >= 2 && body[i] == DASH && body[i + 1] == DASH {
            proof {
                assert(spec_parse_parts(bv, dv, i as int) == Some(
                    Seq::<(Seq<u8>, Seq<u8>)>::empty(),
                ));
                if spec_parse_parts(bv, dv, start) is Some {
                    assert(spec_parse_parts(bv, dv, start)->0 =~~= out.deep_view());
                }
            }
            return Some(out);
        }
        if !(body.len() - i >= 2 && body[i] == CR && body[i + 1] == LF) {
            assert(spec_parse_parts(bv, dv, i as int) is None);
            return None;
        }
        let hstart = i + 2;
        let sep = {
            let mut s: Vec<u8> = Vec::new();
            s.push(CR);
            s.push(LF);
            s.push(CR);
            s.push(LF);
            s
        };
        assert(sep@ =~= seq![CR, LF, CR, LF]);
        let hend = find_seq(body, &sep, hstart);
        if body.len() - hend < 4 {
            assert(spec_parse_parts(bv, dv, i as int) is None);
            return None;
        }
        let cstart = hend + 4;
        let mut edge: Vec<u8> = Vec::new();
        edge.push(CR);
        edge.push(LF);
        let edge = crate::bytes::concat_bytes(&edge, &delim);
        assert(edge@ =~= seq![CR, LF] + dv);
        let cend = find_seq(body, &edge, cstart);
        if body.len() - cend < 2 + delim.len() {
            assert(spec_parse_parts(bv, dv, i as int) is None);
            return None;
        }
        let hdrs = subvec(body, hstart, hend);
        assert(hdrs@ =~= bv.subrange(hstart as int, hend as int));
        let name = part_name(&hdrs);
        let content = subvec(body, cstart, cend);
        assert(content@ =~= bv.subrange(cstart as int, cend as int));
        let ghost o0 = out.deep_view();
        out.push((name, content));
        proof {
            assert(out.deep_view() =~~= o0.push(
                (
                    spec_part_name(bv.subrange(i + 2, hend as int)),
                    bv.subrange(cstart as int, cend as int),
                ),
            ));
            let next = cend + 2 + dv.len() as int;
            assert(spec_parse_parts(bv, dv, i as int) == (match spec_parse_parts(bv, dv, next) {
                None => None::<Seq<(Seq<u8>, Seq<u8>)>>,
                Some(rest) => Some(
                    seq![
                        (
                            spec_part_name(bv.subrange(i + 2, hend as int)),
                            bv.subrange(cstart as int, cend as int),
                        ),
                    ] + rest,
                ),
            }));
            if spec_parse_parts(bv, dv, start) is Some {
                let ps = spec_parse_parts(bv, dv, start)->0;
                if spec_parse_parts(bv, dv, next) is Some {
                    let pr = spec_parse_parts(bv, dv, next)->0;
                    assert(o0 + (seq![
                        (
                            spec_part_name(bv.subrange(i + 2, hend as int)),
                            bv.subrange(cstart as int, cend as int),
                        ),
                    ] + pr) =~~= out.deep_view() + pr);
                }
            }
        }
        i = cend + 2 + delim.len();
    }
}

} // verus!
