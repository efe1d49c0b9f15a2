//! Route patterns and segment matching.
//!
//! A pattern is an ordered list of segments: literals, named parameters
//! (written `{name}` in the path template), and a trailing wildcard
//! (written `*`). A literal matches exactly; a named parameter matches any
//! single non-empty segment and records its percent-decoded value; a
//! trailing wildcard matches one or more remaining segments.

use vstd::prelude::*;
use crate::bytes::bytes_eq;
use crate::bytes::spec_split;
use crate::bytes::split_bytes;
use crate::bytes::subvec;
use crate::bytes::SLASH;
use crate::percent::decode_bytes;
use crate::percent::spec_pct_decode;

verus! {

pub const LBRACE: u8 = 123;

pub const RBRACE: u8 = 125;

pub const STAR: u8 = 42;

/// One segment of a route pattern.
pub enum Segment {
    Literal(Vec<u8>),
    Param(Vec<u8>),
    Wildcard,
}

/// The mathematical shape of a pattern segment.
pub enum SegShape {
    Literal(Seq<u8>),
    Param(Seq<u8>),
    Wildcard,
}

impl View for Segment {
    type V = SegShape;

    open spec fn view(&self) -> SegShape {
        match self {
            Segment::Literal(t) => SegShape::Literal(t@),
            Segment::Param(n) => SegShape::Param(n@),
            Segment::Wildcard => SegShape::Wildcard,
        }
    }
}

impl DeepView for Segment {
    type V = SegShape;

    open spec fn deep_view(&self) -> SegShape {
        self@
    }
}

/// The pieces of a path: split at `/`, ignoring one leading slash.
pub open spec fn spec_path_pieces(p: Seq<u8>) -> Seq<Seq<u8>> {
    if p.len() >= 1 && p[0] == SLASH {
        spec_split(p.skip(1), SLASH)
    } else {
        spec_split(p, SLASH)
    }
}

/// Splits a raw path into its segments, ignoring one leading slash.
pub fn path_pieces(p: &Vec<u8>) -> (r: Vec<Vec<u8>>)
    ensures
        r.deep_view() == spec_path_pieces(p@),
        r@.len() >= 1,
{
    if p.len() >= 1 && p[0] == SLASH {
        let tail = subvec(p, 1, p.len());
        assert(tail@ =~= p@.skip(1));
        split_bytes(&tail, SLASH)
    } else {
        split_bytes(p, SLASH)
    }
}

/// How one template piece reads as a segment: `{name}` is a named
/// parameter, a sole `*` is the wildcard, anything else is a literal.
pub open spec fn spec_seg_of(piece: Seq<u8>) -> SegShape {
    if piece.len() >= 3 && piece[0] == LBRACE && piece[piece.len() - 1] == RBRACE {
        SegShape::Param(piece.subrange(1, piece.len() - 1))
    } else if piece == seq![STAR] {
        SegShape::Wildcard
    } else {
        SegShape::Literal(piece)
    }
}

/// The segments a path template denotes, before validity is judged.
pub open spec fn spec_template_segs(p: Seq<u8>) -> Seq<SegShape> {
    spec_path_pieces(p).map_values(|piece: Seq<u8>| spec_seg_of(piece))
}

/// A wildcard may only stand in the last position.
pub open spec fn wildcard_trailing(pat: Seq<SegShape>) -> bool {
    forall|i: int| 0 <= i < pat.len() - 1 ==> !(pat[i] is Wildcard)
}

/// Parsing a path template: its segments if the wildcard placement is
/// valid, nothing otherwise.
pub open spec fn spec_parse_pattern(p: Seq<u8>) -> Option<Seq<SegShape>> {
    if wildcard_trailing(spec_template_segs(p)) {
        Some(spec_template_segs(p))
    } else {
        None
    }
}

/// Reads one split piece as a segment.
fn seg_of_piece(piece: &Vec<u8>) -> (r: Segment)
    ensures
        r@ == spec_seg_of(piece@),
{
    if piece.len() >= 3 && piece[0] == LBRACE && piece[piece.len() - 1] == RBRACE {
        Segment::Param(subvec(piece, 1, piece.len() - 1))
    } else if piece.len() == 1 && piece[0] == STAR {
        assert(piece@ =~= seq![STAR]);
        Segment::Wildcard
    } else {
        assert(piece@ != seq![STAR]) by {
            if piece@.len() == 1 {
                assert(piece@[0] != STAR);
            }
        }
        let copy = subvec(piece, 0, piece.len());
        assert(copy@ =~= piece@);
        Segment::Literal(copy)
    }
}

/// Compiles a path template into pattern segments; fails when a wildcard
/// stands anywhere but last.
pub fn parse_pattern(p: &Vec<u8>) -> (r: Option<Vec<Segment>>)
    ensures
        r is Some <==> spec_parse_pattern(p@) is Some,
        r is Some ==> r->0.deep_view() == spec_parse_pattern(p@)->0,
{
    let pieces = path_pieces(p);
    let mut segs: Vec<Segment> = Vec::new();
    let mut i: usize = 0;
    while i < pieces.len()
        invariant
            i <= pieces@.len(),
            pieces.deep_view() == spec_path_pieces(p@),
            segs.deep_view() =~= spec_template_segs(p@).take(i as int),
            forall|j: int|
                0 <= j < i && j < pieces@.len() - 1 ==> !(#[trigger] segs.deep_view()[j]
                    is Wildcard),
        decreases pieces.len() - i,
    {
        let seg = seg_of_piece(&pieces[i]);
        proof {
            assert(pieces.deep_view()[i as int] =~= pieces@[i as int]@);
            assert(spec_template_segs(p@)[i as int] == spec_seg_of(spec_path_pieces(p@)[i as int]));
            assert(seg@ == spec_template_segs(p@)[i as int]);
        }
        let is_wild = match seg {
            Segment::Wildcard => true,
            _ => false,
        };
        if is_wild && i + 1 != pieces.len() {
            assert(!wildcard_trailing(spec_template_segs(p@))) by {
                assert(spec_template_segs(p@)[i as int] is Wildcard);
            }
            return None;
        }
        let ghost sv0 = segs.deep_view();
        segs.push(seg);
        assert(segs.deep_view() =~= sv0.push(seg@));
        assert(segs.deep_view() =~= spec_template_segs(p@).take(i + 1));
        i += 1;
    }
    assert(segs.deep_view() =~= spec_template_segs(p@));
    assert(wildcard_trailing(spec_template_segs(p@)));
    Some(segs)
}

/// Whether one segment accepts one concrete path piece.
pub open spec fn seg_matches(g: SegShape, s: Seq<u8>) -> bool {
    match g {
        SegShape::Literal(t) => s == t,
        SegShape::Param(_) => s.len() > 0,
        SegShape::Wildcard => true,
    }
}

/// Whether the pattern accepts the path pieces, judged from position `k`.
/// A wildcard (only valid in last position) accepts all remaining pieces,
/// of which there must be at least one.
pub open spec fn pat_matches_from(pat: Seq<SegShape>, segs: Seq<Seq<u8>>, k: int) -> bool
    decreases pat.len() - k when 0 <= k <= pat.len()
{
    if k == pat.len() {
        k == segs.len()
    } else if pat[k] is Wildcard {
        k < segs.len()
    } else if k >= segs.len() {
        false
    } else {
        seg_matches(pat[k], segs[k]) && pat_matches_from(pat, segs, k + 1)
    }
}

/// Whether the pattern accepts the path pieces.
pub open spec fn pat_matches(pat: Seq<SegShape>, segs: Seq<Seq<u8>>) -> bool {
    pat_matches_from(pat, segs, 0)
}

/// The parameter mapping a match yields, from position `k` on: for each
/// named parameter, its name paired with the percent-decoded path piece at
/// its position, in pattern order.
pub open spec fn pat_params_from(pat: Seq<SegShape>, segs: Seq<Seq<u8>>, k: int) -> Seq<
    (Seq<u8>, Seq<u8>),
>
    decreases pat.len() - k when 0 <= k <= pat.len()
{
    if k == pat.len() || k >= segs.len() {
        Seq::empty()
    } else {
        match pat[k] {
            SegShape::Param(n) => seq![(n, spec_pct_decode(segs[k]))] + pat_params_from(
                pat,
                segs,
                k + 1,
            ),
            SegShape::Wildcard => Seq::empty(),
            SegShape::Literal(_) => pat_params_from(pat, segs, k + 1),
        }
    }
}

/// The parameter mapping a match of `pat` against `segs` yields.
pub open spec fn pat_params(pat: Seq<SegShape>, segs: Seq<Seq<u8>>) -> Seq<(Seq<u8>, Seq<u8>)> {
    pat_params_from(pat, segs, 0)
}

/// Matches pattern segments against concrete path pieces; on success the
/// extracted parameters come back, in pattern order, percent-decoded.
pub fn match_segments(pat: &Vec<Segment>, segs: &Vec<Vec<u8>>) -> (r: Option<
    Vec<(Vec<u8>, Vec<u8>)>,
>)
    ensures
        r is Some <==> pat_matches(pat.deep_view(), segs.deep_view()),
        r is Some ==> r->0.deep_view() == pat_params(pat.deep_view(), segs.deep_view()),
{
    let ghost pv = pat.deep_view();
    let ghost sv = segs.deep_view();
    let mut params: Vec<(Vec<u8>, Vec<u8>)> = Vec::new();
    let mut k: usize = 0;
    while k < pat.len()
        invariant
            k <= pat@.len(),
            pv == pat.deep_view(),
            sv == segs.deep_view(),
            pat_matches(pv, sv) <==> pat_matches_from(pv, sv, k as int),
            pat_matches(pv, sv) ==> pat_params(pv, sv) =~= params.deep_view() + pat_params_from(
                pv,
                sv,
                k as int,
            ),
        decreases pat.len() - k,
    {
        let ghost params0 = params.deep_view();
        proof {
            assert(pv[k as int] == pat@[k as int]@);
            if (k as int) < sv.len() {
                assert(sv[k as int] =~= segs@[k as int]@);
            }
        }
        match &pat[k] {
            Segment::Wildcard => {
                if k < segs.len() {
                    assert(pat_matches_from(pv, sv, k as int));
                    assert(pat_params_from(pv, sv, k as int) =~= Seq::<(Seq<u8>, Seq<u8>)>::empty());
                    assert(params.deep_view() =~= params.deep_view() + pat_params_from(
                        pv,
                        sv,
                        k as int,
                    ));
                    return Some(params);
                } else {
                    assert(!pat_matches_from(pv, sv, k as int));
                    return None;
                }
            },
            Segment::Literal(t) => {
                if k >= segs.len() {
                    assert(!pat_matches_from(pv, sv, k as int));
                    return None;
                }
                if !bytes_eq(t, &segs[k]) {
                    assert(!seg_matches(pv[k as int], sv[k as int]));
                    assert(!pat_matches_from(pv, sv, k as int));
                    return None;
                }
                assert(seg_matches(pv[k as int], sv[k as int]));
                assert(pat_params_from(pv, sv, k as int) == pat_params_from(pv, sv, k + 1));
            },
            Segment::Param(n) => {
                if k >= segs.len() {
                    assert(!pat_matches_from(pv, sv, k as int));
                    return None;
                }
                if segs[k].len() == 0 {
                    assert(!seg_matches(pv[k as int], sv[k as int]));
                    assert(!pat_matches_from(pv, sv, k as int));
                    return None;
                }
                let name = subvec(n, 0, n.len());
                let value = decode_bytes(&segs[k], false);
                assert(name@ =~= n@);
                params.push((name, value));
                proof {
                    assert(params.deep_view() =~~= params0.push(
                        (n@, spec_pct_decode(sv[k as int])),
                    ));
                    assert(seg_matches(pv[k as int], sv[k as int]));
                    if pat_matches(pv, sv) {
                        assert(pat_params_from(pv, sv, k as int) =~= seq![
                            (n@, spec_pct_decode(sv[k as int])),
                        ] + pat_params_from(pv, sv, k + 1));
                        assert(params0 + pat_params_from(pv, sv, k as int) =~= params.deep_view()
                            + pat_params_from(pv, sv, k + 1));
                    }
                }
            },
        }
        k += 1;
    }
    if segs.len() == k {
        assert(pat_matches_from(pv, sv, k as int));
        assert(pat_params_from(pv, sv, k as int) =~= Seq::<(Seq<u8>, Seq<u8>)>::empty());
        assert(params.deep_view() =~= params.deep_view() + pat_params_from(pv, sv, k as int));
        Some(params)
    } else {
        assert(!pat_matches_from(pv, sv, k as int));
        None
    }
}

/// The specificity rank of a segment: literals over parameters over the
/// wildcard.
pub open spec fn seg_rank(g: SegShape) -> int {
    match g {
        SegShape::Literal(_) => 2,
        SegShape::Param(_) => 1,
        SegShape::Wildcard => 0,
    }
}

/// The rank sequence of a pattern.
pub open spec fn ranks(pat: Seq<SegShape>) -> Seq<int> {
    pat.map_values(|g: SegShape| seg_rank(g))
}

/// Lexicographic specificity order on rank sequences: the first position
/// whose ranks differ decides; a pattern that runs out first is the less
/// specific one.
pub open spec fn lex_more(a: Seq<int>, b: Seq<int>) -> bool
    decreases a.len(),
{
    if a.len() == 0 {
        false
    } else if b.len() == 0 {
        true
    } else if a[0] != b[0] {
        a[0] > b[0]
    } else {
        lex_more(a.drop_first(), b.drop_first())
    }
}

/// Whether pattern `a` is strictly more specific than pattern `b`.
pub open spec fn more_specific(a: Seq<SegShape>, b: Seq<SegShape>) -> bool {
    lex_more(ranks(a), ranks(b))
}

/// Whether every segment of a pattern is a literal.
pub open spec fn all_literal(pat: Seq<SegShape>) -> bool {
    forall|i: int| 0 <= i < pat.len() ==> (#[trigger] pat[i]) is Literal
}

/// The text under each segment (the literal's text, a parameter's name,
/// nothing for the wildcard); for an all-literal pattern these are exactly
/// the path pieces it accepts.
pub open spec fn lit_texts(pat: Seq<SegShape>) -> Seq<Seq<u8>> {
    pat.map_values(
        |g: SegShape|
            match g {
                SegShape::Literal(t) => t,
                SegShape::Param(n) => n,
                SegShape::Wildcard => Seq::<u8>::empty(),
            },
    )
}

/// The rank sequence of an all-literal pattern of length `n`.
pub open spec fn twos(n: nat) -> Seq<int> {
    Seq::new(n, |i: int| 2)
}

/// An all-literal pattern accepts its own texts, from any position on.
pub proof fn lemma_literal_self_match(pat: Seq<SegShape>, k: int)
    requires
        all_literal(pat),
        0 <= k <= pat.len(),
    ensures
        pat_matches_from(pat, lit_texts(pat), k),
    decreases pat.len() - k,
{
    if k < pat.len() {
        lemma_literal_self_match(pat, k + 1);
    }
}

/// An all-literal pattern yields no parameters.
pub proof fn lemma_params_literal(pat: Seq<SegShape>, segs: Seq<Seq<u8>>, k: int)
    requires
        all_literal(pat),
        0 <= k <= pat.len(),
    ensures
        pat_params_from(pat, segs, k) == Seq::<(Seq<u8>, Seq<u8>)>::empty(),
    decreases pat.len() - k,
{
    if k < pat.len() && k < segs.len() {
        lemma_params_literal(pat, segs, k + 1);
    }
}

/// A pattern that accepts `segs` and is not less specific than the
/// all-literal pattern of those pieces is that all-literal pattern.
pub proof fn lemma_top_rank_match(pat: Seq<SegShape>, segs: Seq<Seq<u8>>, k: int)
    requires
        0 <= k <= pat.len(),
        k <= segs.len(),
        pat_matches_from(pat, segs, k),
        !lex_more(twos((segs.len() - k) as nat), ranks(pat).skip(k)),
    ensures
        pat.len() == segs.len(),
        forall|m: int| k <= m < pat.len() ==> pat[m] == SegShape::Literal(segs[m]),
    decreases pat.len() - k,
{
    let a = twos((segs.len() - k) as nat);
    let b = ranks(pat).skip(k);
    if k == pat.len() {
        assert(segs.len() == k);
    } else {
        assert(b[0] == seg_rank(pat[k]));
        match pat[k] {
            SegShape::Wildcard => {
                assert(k < segs.len());
                assert(a[0] == 2 && b[0] == 0);
                assert(lex_more(a, b));
            },
            SegShape::Param(_) => {
                assert(k < segs.len());
                assert(a[0] == 2 && b[0] == 1);
                assert(lex_more(a, b));
            },
            SegShape::Literal(t) => {
                assert(k < segs.len());
                assert(segs[k] == t);
                assert(a[0] == 2 && b[0] == 2);
                assert(a.drop_first() =~= twos((segs.len() - (k + 1)) as nat));
                assert(b.drop_first() =~= ranks(pat).skip(k + 1));
                lemma_top_rank_match(pat, segs, k + 1);
            },
        }
    }
}

/// For every named parameter of a pattern that accepts a path, the
/// parameter mapping holds its name paired with the percent-decoded path
/// piece at its position.
pub proof fn lemma_params_contains(pat: Seq<SegShape>, segs: Seq<Seq<u8>>, k: int, j: int)
    requires
        0 <= k <= j < pat.len(),
        pat[j] is Param,
        pat_matches_from(pat, segs, k),
        wildcard_trailing(pat),
    ensures
        j < segs.len(),
        pat_params_from(pat, segs, k).contains((pat[j]->Param_0, spec_pct_decode(segs[j]))),
    decreases j - k,
{
    let x = (pat[j]->Param_0, spec_pct_decode(segs[j]));
    if k == j {
        assert(k < segs.len());
        assert(pat_params_from(pat, segs, k)[0] == x);
        assert(pat_params_from(pat, segs, k).contains(x));
    } else {
        assert(!(pat[k] is Wildcard));
        assert(k < segs.len());
        lemma_params_contains(pat, segs, k + 1, j);
        let rest = pat_params_from(pat, segs, k + 1);
        let idx = choose|idx: int| 0 <= idx < rest.len() && rest[idx] == x;
        match pat[k] {
            SegShape::Param(n) => {
                assert(pat_params_from(pat, segs, k)[idx + 1] == x);
                assert(pat_params_from(pat, segs, k).contains(x));
            },
            SegShape::Literal(_) => {
                assert(pat_params_from(pat, segs, k)[idx] == x);
                assert(pat_params_from(pat, segs, k).contains(x));
            },
            SegShape::Wildcard => {
            },
        }
    }
}

/// Matching a pattern with a named parameter yields that parameter's
/// percent-decoded value: the public face of `lemma_params_contains`.
pub proof fn lemma_param_capture(pat: Seq<SegShape>, segs: Seq<Seq<u8>>, j: int)
    requires
        pat_matches(pat, segs),
        wildcard_trailing(pat),
        0 <= j < pat.len(),
        pat[j] is Param,
    ensures
        j < segs.len(),
        pat_params(pat, segs).contains((pat[j]->Param_0, spec_pct_decode(segs[j]))),
{
    lemma_params_contains(pat, segs, 0, j);
}

fn seg_rank_exec(g: &Segment) -> (r: u8)
    ensures
        r as int == seg_rank(g@),
{
    match g {
        Segment::Literal(_) => 2,
        Segment::Param(_) => 1,
        Segment::Wildcard => 0,
    }
}

/// Decides the specificity order between two patterns.
pub fn pat_more_specific(a: &Vec<Segment>, b: &Vec<Segment>) -> (r: bool)
    ensures
        r == more_specific(a.deep_view(), b.deep_view()),
{
    let ghost av = ranks(a.deep_view());
    let ghost bv = ranks(b.deep_view());
    proof {
        assert(av.skip(0) =~= av);
        assert(bv.skip(0) =~= bv);
    }
    let mut k: usize = 0;
    while k < a.len() && k < b.len()
        invariant
            k <= a@.len(),
            k <= b@.len(),
            av == ranks(a.deep_view()),
            bv == ranks(b.deep_view()),
            lex_more(av, bv) == lex_more(av.skip(k as int), bv.skip(k as int)),
        decreases a.len() - k,
    {
        let ra = seg_rank_exec(&a[k]);
        let rb = seg_rank_exec(&b[k]);
        proof {
            assert(av.skip(k as int)[0] == av[k as int]);
            assert(bv.skip(k as int)[0] == bv[k as int]);
            assert(av.skip(k as int).drop_first() =~= av.skip(k + 1));
            assert(bv.skip(k as int).drop_first() =~= bv.skip(k + 1));
        }
        if ra != rb {
            return ra > rb;
        }
        k += 1;
    }
    proof {
        assert(av.skip(k as int).len() == av.len() - k);
        assert(bv.skip(k as int).len() == bv.len() - k);
    }
    if k < b.len() {
        false
    } else if k < a.len() {
        true
    } else {
        false
    }
}

} // verus!
