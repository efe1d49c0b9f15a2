//! The extractor pipeline's raw ingredients: query-string parsing,
//! cookie parsing, UTF-8 validation, content-type checks, and the typed
//! extraction errors.
//!
//! Query lookups are last-value-wins: when a key repeats, the value seen
//! last in the query string is the one bound (documented choice; the
//! alternative would be multi-valued maps).

use vstd::prelude::*;
use crate::bytes::bytes_eq;
use crate::bytes::bytes_eq_ignore_case;
use crate::bytes::concat_bytes;
use crate::bytes::eq_ignore_case;
use crate::bytes::lit;
use crate::bytes::spec_split;
use crate::bytes::split_bytes;
use crate::bytes::subvec;
use crate::bytes::text;
use crate::percent::decode_bytes;
use crate::percent::spec_form_decode;
use crate::percent::SPACE;

verus! {

pub const AMP: u8 = 38;

pub const EQUALS: u8 = 61;

pub const SEMI: u8 = 59;

/// The position of the first `b` in `s` at or after `i`; the length when
/// there is none.
pub open spec fn spec_find(s: Seq<u8>, b: u8, i: int) -> int
    decreases s.len() - i when 0 <= i <= s.len()
{
    if i >= s.len() {
        s.len() as int
    } else if s[i] == b {
        i
    } else {
        spec_find(s, b, i + 1)
    }
}

pub proof fn lemma_find_range(s: Seq<u8>, b: u8, i: int)
    requires
        0 <= i <= s.len(),
    ensures
        i <= spec_find(s, b, i) <= s.len(),
    decreases s.len() - i,
{
    if i < s.len() && s[i] != b {
        lemma_find_range(s, b, i + 1);
    }
}

/// The position of the first `b` in `v`, or the length when absent.
pub fn find_byte(v: &Vec<u8>, b: u8) -> (r: usize)
    ensures
        r == spec_find(v@, b, 0),
        r <= v@.len(),
{
    let mut i: usize = 0;
    while i < v.len()
        invariant
            i <= v@.len(),
            spec_find(v@, b, 0) == spec_find(v@, b, i as int),
        decreases v.len() - i,
    {
        if v[i] == b {
            return i;
        }
        i += 1;
    }
    i
}

/// The position of the first `b` in `v` at or after `from`, or the
/// length when absent.
pub fn find_byte_from(v: &Vec<u8>, b: u8, from: usize) -> (r: usize)
    requires
        from <= v@.len(),
    ensures
        r == spec_find(v@, b, from as int),
        from <= r <= v@.len(),
{
    proof {
        lemma_find_range(v@, b, from as int);
    }
    let mut i: usize = from;
    while i < v.len()
        invariant
            from <= i <= v@.len(),
            spec_find(v@, b, from as int) == spec_find(v@, b, i as int),
        decreases v.len() - i,
    {
        if v[i] == b {
            return i;
        }
        i += 1;
    }
    i
}

/// One `key=value` piece of a query string, form-decoded; a piece without
/// `=` is a key with an empty value.
pub open spec fn spec_query_pair(piece: Seq<u8>) -> (Seq<u8>, Seq<u8>) {
    let e = spec_find(piece, EQUALS, 0);
    (
        spec_form_decode(piece.take(e)),
        if e < piece.len() {
            spec_form_decode(piece.skip(e + 1))
        } else {
            Seq::empty()
        },
    )
}

/// The key/value pairs of a raw query string, in order.
pub open spec fn spec_query_pairs(q: Seq<u8>) -> Seq<(Seq<u8>, Seq<u8>)> {
    spec_split(q, AMP).map_values(|piece: Seq<u8>| spec_query_pair(piece))
}

fn query_pair(piece: &Vec<u8>) -> (r: (Vec<u8>, Vec<u8>))
    ensures
        (r.0@, r.1@) == spec_query_pair(piece@),
{
    let e = find_byte(piece, EQUALS);
    proof {
        lemma_find_range(piece@, EQUALS, 0);
    }
    let rawk = subvec(piece, 0, e);
    assert(rawk@ =~= piece@.take(e as int));
    let k = decode_bytes(&rawk, true);
    if e < piece.len() {
        let rawv = subvec(piece, e + 1, piece.len());
        assert(rawv@ =~= piece@.skip(e + 1));
        let v = decode_bytes(&rawv, true);
        (k, v)
    } else {
        (k, Vec::new())
    }
}

/// Parses a raw query string into its key/value pairs, form-decoded, in
/// order of appearance.
pub fn parse_query(q: &Vec<u8>) -> (r: Vec<(Vec<u8>, Vec<u8>)>)
    ensures
        r.deep_view() == spec_query_pairs(q@),
{
    let pieces = split_bytes(q, AMP);
    let mut out: Vec<(Vec<u8>, Vec<u8>)> = Vec::new();
    let mut i: usize = 0;
    while i < pieces.len()
        invariant
            i <= pieces@.len(),
            pieces.deep_view() == spec_split(q@, AMP),
            out.deep_view() =~~= spec_query_pairs(q@).take(i as int),
        decreases pieces.len() - i,
    {
        let ghost o0 = out.deep_view();
        proof {
            assert(pieces.deep_view()[i as int] =~= pieces@[i as int]@);
        }
        let p = query_pair(&pieces[i]);
        out.push(p);
        proof {
            assert(out.deep_view() =~~= o0.push((p.0@, p.1@)));
            assert(spec_query_pairs(q@)[i as int] == spec_query_pair(
                spec_split(q@, AMP)[i as int],
            ));
            assert(out.deep_view() =~~= spec_query_pairs(q@).take(i + 1));
        }
        i += 1;
    }
    proof {
        assert(out.deep_view() =~~= spec_query_pairs(q@));
    }
    out
}

/// Last-value-wins lookup over ordered pairs.
pub open spec fn spec_rlookup(pairs: Seq<(Seq<u8>, Seq<u8>)>, key: Seq<u8>) -> Option<Seq<u8>>
    decreases pairs.len(),
{
    if pairs.len() == 0 {
        None
    } else if pairs.last().0 == key {
        Some(pairs.last().1)
    } else {
        spec_rlookup(pairs.drop_last(), key)
    }
}

/// The value bound to a query key: the last occurrence wins.
pub open spec fn spec_query_get(q: Seq<u8>, key: Seq<u8>) -> Option<Seq<u8>> {
    spec_rlookup(spec_query_pairs(q), key)
}

/// Looks a key up in ordered pairs; the last occurrence wins.
pub fn rlookup(pairs: &Vec<(Vec<u8>, Vec<u8>)>, key: &Vec<u8>) -> (r: Option<Vec<u8>>)
    ensures
        r is Some <==> spec_rlookup(pairs.deep_view(), key@) is Some,
        r is Some ==> r->0@ == spec_rlookup(pairs.deep_view(), key@)->0,
{
    let ghost pv = pairs.deep_view();
    let mut i: usize = pairs.len();
    proof {
        assert(pv.take(i as int) =~= pv);
    }
    while i > 0
        invariant
            i <= pairs@.len(),
            pv == pairs.deep_view(),
            spec_rlookup(pv, key@) == spec_rlookup(pv.take(i as int), key@),
        decreases i,
    {
        i -= 1;
        proof {
            assert(pv.take(i + 1).last() == pv[i as int]);
            assert(pv.take(i + 1).drop_last() =~= pv.take(i as int));
            assert(pv[i as int].0 =~= pairs@[i as int].0@);
            assert(pv[i as int].1 =~= pairs@[i as int].1@);
        }
        if bytes_eq(&pairs[i].0, key) {
            let v = subvec(&pairs[i].1, 0, pairs[i].1.len());
            assert(v@ =~= pv[i as int].1);
            return Some(v);
        }
    }
    proof {
        assert(pv.take(0) =~= Seq::<(Seq<u8>, Seq<u8>)>::empty());
    }
    None
}

/// First-match, case-sensitive lookup over ordered pairs (cookies).
pub open spec fn spec_assoc(pairs: Seq<(Seq<u8>, Seq<u8>)>, key: Seq<u8>, i: int) -> Option<
    Seq<u8>,
>
    decreases pairs.len() - i when 0 <= i <= pairs.len()
{
    if i >= pairs.len() {
        None
    } else if pairs[i].0 == key {
        Some(pairs[i].1)
    } else {
        spec_assoc(pairs, key, i + 1)
    }
}

/// Looks a key up in ordered pairs; the first occurrence wins.
pub fn assoc(pairs: &Vec<(Vec<u8>, Vec<u8>)>, key: &Vec<u8>) -> (r: Option<Vec<u8>>)
    ensures
        r is Some <==> spec_assoc(pairs.deep_view(), key@, 0) is Some,
        r is Some ==> r->0@ == spec_assoc(pairs.deep_view(), key@, 0)->0,
{
    let ghost pv = pairs.deep_view();
    let mut i: usize = 0;
    while i < pairs.len()
        invariant
            i <= pairs@.len(),
            pv == pairs.deep_view(),
            spec_assoc(pv, key@, 0) == spec_assoc(pv, key@, i as int),
        decreases pairs.len() - i,
    {
        proof {
            assert(pv[i as int].0 =~= pairs@[i as int].0@);
            assert(pv[i as int].1 =~= pairs@[i as int].1@);
        }
        if bytes_eq(&pairs[i].0, key) {
            let v = subvec(&pairs[i].1, 0, pairs[i].1.len());
            assert(v@ =~= pv[i as int].1);
            return Some(v);
        }
        i += 1;
    }
    None
}

/// The first position at or after `i` that is not a space.
pub open spec fn spec_skip_spaces(s: Seq<u8>, i: int) -> int
    decreases s.len() - i when 0 <= i <= s.len()
{
    if i >= s.len() {
        s.len() as int
    } else if s[i] == SPACE {
        spec_skip_spaces(s, i + 1)
    } else {
        i
    }
}

pub proof fn lemma_skip_spaces_range(s: Seq<u8>, i: int)
    requires
        0 <= i <= s.len(),
    ensures
        i <= spec_skip_spaces(s, i) <= s.len(),
    decreases s.len() - i,
{
    if i < s.len() && s[i] == SPACE {
        lemma_skip_spaces_range(s, i + 1);
    }
}

/// One `name=value` cookie piece: leading spaces dropped, split at the
/// first `=`, values kept raw.
pub open spec fn spec_cookie_pair(piece: Seq<u8>) -> (Seq<u8>, Seq<u8>) {
    let t = piece.skip(spec_skip_spaces(piece, 0));
    let e = spec_find(t, EQUALS, 0);
    (
        t.take(e),
        if e < t.len() {
            t.skip(e + 1)
        } else {
            Seq::empty()
        },
    )
}

/// The cookies carried by one `Cookie` header value, in order.
pub open spec fn spec_cookie_pairs(v: Seq<u8>) -> Seq<(Seq<u8>, Seq<u8>)> {
    spec_split(v, SEMI).map_values(|piece: Seq<u8>| spec_cookie_pair(piece))
}

fn cookie_pair(piece: &Vec<u8>) -> (r: (Vec<u8>, Vec<u8>))
    ensures
        (r.0@, r.1@) == spec_cookie_pair(piece@),
{
    proof {
        lemma_skip_spaces_range(piece@, 0);
    }
    let mut start: usize = 0;
    while start < piece.len() && piece[start] == SPACE
        invariant
            start <= piece@.len(),
            spec_skip_spaces(piece@, 0) == spec_skip_spaces(piece@, start as int),
        decreases piece.len() - start,
    {
        start += 1;
    }
    assert(spec_skip_spaces(piece@, start as int) == start);
    let t = subvec(piece, start, piece.len());
    assert(t@ =~= piece@.skip(spec_skip_spaces(piece@, 0)));
    let e = find_byte(&t, EQUALS);
    let name = subvec(&t, 0, e);
    assert(name@ =~= t@.take(e as int));
    if e < t.len() {
        let value = subvec(&t, e + 1, t.len());
        assert(value@ =~= t@.skip(e + 1));
        (name, value)
    } else {
        (name, Vec::new())
    }
}

/// Parses one `Cookie` header value into name/value pairs, in order.
pub fn parse_cookies(v: &Vec<u8>) -> (r: Vec<(Vec<u8>, Vec<u8>)>)
    ensures
        r.deep_view() == spec_cookie_pairs(v@),
{
    let pieces = split_bytes(v, SEMI);
    let mut out: Vec<(Vec<u8>, Vec<u8>)> = Vec::new();
    let mut i: usize = 0;
    while i < pieces.len()
        invariant
            i <= pieces@.len(),
            pieces.deep_view() == spec_split(v@, SEMI),
            out.deep_view() =~~= spec_cookie_pairs(v@).take(i as int),
        decreases pieces.len() - i,
    {
        let ghost o0 = out.deep_view();
        proof {
            assert(pieces.deep_view()[i as int] =~= pieces@[i as int]@);
        }
        let p = cookie_pair(&pieces[i]);
        out.push(p);
        proof {
            assert(out.deep_view() =~~= o0.push((p.0@, p.1@)));
            assert(spec_cookie_pairs(v@)[i as int] == spec_cookie_pair(
                spec_split(v@, SEMI)[i as int],
            ));
            assert(out.deep_view() =~~= spec_cookie_pairs(v@).take(i + 1));
        }
        i += 1;
    }
    proof {
        assert(out.deep_view() =~~= spec_cookie_pairs(v@));
    }
    out
}

pub open spec fn is_cont(b: u8) -> bool {
    0x80 <= b <= 0xBF
}

/// UTF-8 validity of `s` from position `i` on, by the standard byte
/// ranges (overlong forms and surrogates excluded).
pub open spec fn is_utf8_from(s: Seq<u8>, i: int) -> bool
    decreases s.len() - i when 0 <= i <= s.len()
{
    if i >= s.len() {
        true
    } else {
        let b0 = s[i];
        if b0 < 0x80 {
            is_utf8_from(s, i + 1)
        } else if 0xC2 <= b0 <= 0xDF {
            i + 2 <= s.len() && is_cont(s[i + 1]) && is_utf8_from(s, i + 2)
        } else if b0 == 0xE0 {
            i + 3 <= s.len() && 0xA0 <= s[i + 1] <= 0xBF && is_cont(s[i + 2]) && is_utf8_from(
                s,
                i + 3,
            )
        } else if (0xE1 <= b0 <= 0xEC) || b0 == 0xEE || b0 == 0xEF {
            i + 3 <= s.len() && is_cont(s[i + 1]) && is_cont(s[i + 2]) && is_utf8_from(s, i + 3)
        } else if b0 == 0xED {
            i + 3 <= s.len() && 0x80 <= s[i + 1] <= 0x9F && is_cont(s[i + 2]) && is_utf8_from(
                s,
                i + 3,
            )
        } else if b0 == 0xF0 {
            i + 4 <= s.len() && 0x90 <= s[i + 1] <= 0xBF && is_cont(s[i + 2]) && is_cont(s[i + 3])
                && is_utf8_from(s, i + 4)
        } else if 0xF1 <= b0 <= 0xF3 {
            i + 4 <= s.len() && is_cont(s[i + 1]) && is_cont(s[i + 2]) && is_cont(s[i + 3])
                && is_utf8_from(s, i + 4)
        } else if b0 == 0xF4 {
            i + 4 <= s.len() && 0x80 <= s[i + 1] <= 0x8F && is_cont(s[i + 2]) && is_cont(s[i + 3])
                && is_utf8_from(s, i + 4)
        } else {
            false
        }
    }
}

/// Whether `s` is valid UTF-8 throughout.
pub open spec fn is_utf8(s: Seq<u8>) -> bool {
    is_utf8_from(s, 0)
}

fn cont_ok(b: u8) -> (r: bool)
    ensures
        r == is_cont(b),
{
    0x80 <= b && b <= 0xBF
}

/// Decides UTF-8 validity of a byte vector.
pub fn is_valid_utf8(s: &Vec<u8>) -> (r: bool)
    ensures
        r == is_utf8(s@),
{
    let mut i: usize = 0;
    while i < s.len()
        invariant
            i <= s@.len(),
            is_utf8(s@) == is_utf8_from(s@, i as int),
        decreases s.len() - i,
    {
        let b0 = s[i];
        if b0 < 0x80 {
            i += 1;
        } else if 0xC2 <= b0 && b0 <= 0xDF {
            if !(s.len() - i >= 2 && cont_ok(s[i + 1])) {
                return false;
            }
            i += 2;
        } else if b0 == 0xE0 {
            if !(s.len() - i >= 3 && 0xA0 <= s[i + 1] && s[i + 1] <= 0xBF && cont_ok(s[i + 2])) {
                return false;
            }
            i += 3;
        } else if (0xE1 <= b0 && b0 <= 0xEC) || b0 == 0xEE || b0 == 0xEF {
            if !(s.len() - i >= 3 && cont_ok(s[i + 1]) && cont_ok(s[i + 2])) {
                return false;
            }
            i += 3;
        } else if b0 == 0xED {
            if !(s.len() - i >= 3 && 0x80 <= s[i + 1] && s[i + 1] <= 0x9F && cont_ok(s[i + 2])) {
                return false;
            }
            i += 3;
        } else if b0 == 0xF0 {
            if !(s.len() - i >= 4 && 0x90 <= s[i + 1] && s[i + 1] <= 0xBF && cont_ok(s[i + 2])
                && cont_ok(s[i + 3])) {
                return false;
            }
            i += 4;
        } else if 0xF1 <= b0 && b0 <= 0xF3 {
            if !(s.len() - i >= 4 && cont_ok(s[i + 1]) && cont_ok(s[i + 2]) && cont_ok(s[i + 3])) {
                return false;
            }
            i += 4;
        } else if b0 == 0xF4 {
            if !(s.len() - i >= 4 && 0x80 <= s[i + 1] && s[i + 1] <= 0x8F && cont_ok(s[i + 2])
                && cont_ok(s[i + 3])) {
                return false;
            }
            i += 4;
        } else {
            return false;
        }
    }
    true
}

/// The media type a `Content-Type` header value declares: everything up
/// to the first `;`, compared ASCII-case-insensitively by callers.
pub open spec fn spec_media_type(v: Seq<u8>) -> Seq<u8> {
    v.take(spec_find(v, SEMI, 0))
}

/// Whether a declared `Content-Type` value names this media type (up to
/// parameters and ASCII case).
pub open spec fn spec_declares_type(v: Seq<u8>, mt: Seq<u8>) -> bool {
    eq_ignore_case(spec_media_type(v), mt)
}

/// Decides whether the declared content-type value names `mt`.
pub fn declares_type(v: &Vec<u8>, mt: &Vec<u8>) -> (r: bool)
    ensures
        r == spec_declares_type(v@, mt@),
{
    let e = find_byte(v, SEMI);
    let essence = subvec(v, 0, e);
    assert(essence@ =~= spec_media_type(v@));
    bytes_eq_ignore_case(&essence, mt)
}

/// Whether every byte of `s` is an ASCII digit, and there is at least
/// one; a value of at most 19 digits always fits an unsigned 64-bit
/// integer, so such text reads as one.
pub open spec fn spec_reads_as_integer(s: Seq<u8>) -> bool {
    &&& s.len() >= 1
    &&& s.len() <= 19
    &&& forall|i: int| 0 <= i < s.len() ==> 48 <= #[trigger] s[i] <= 57
}

/// Decides whether text reads as an unsigned integer of machine size.
pub fn reads_as_integer(s: &Vec<u8>) -> (r: bool)
    ensures
        r == spec_reads_as_integer(s@),
{
    if s.len() < 1 || s.len() > 19 {
        return false;
    }
    let mut i: usize = 0;
    while i < s.len()
        invariant
            i <= s@.len(),
            forall|j: int| 0 <= j < i ==> 48 <= #[trigger] s@[j] <= 57,
        decreases s.len() - i,
    {
        if s[i] < 48 || s[i] > 57 {
            return false;
        }
        i += 1;
    }
    true
}

/// A typed extraction failure. In the error taxonomy: the missing
/// parameter kinds and the integer-shape failure are path-extraction
/// failures, `MissingHeader` a
/// header-extraction failure, the content-type kinds content-type
/// mismatches, the malformed-body kinds deserialization failures, and
/// `InvalidEncoding` an encoding failure.
pub enum ExtractError {
    /// No such named parameter in the matched route.
    MissingPathParam(Vec<u8>),
    /// The named path parameter does not read as an unsigned integer.
    NotAnInteger(Vec<u8>),
    /// No such key in the query string.
    MissingQueryParam(Vec<u8>),
    /// No such request header.
    MissingHeader(Vec<u8>),
    /// No such cookie in the `Cookie` header.
    MissingCookie(Vec<u8>),
    /// A JSON body was expected but the request declares this content
    /// type instead (empty when it declares none).
    MissingJsonContentType(Vec<u8>),
    /// A form body was expected but the request declares this content
    /// type instead (empty when it declares none).
    MissingFormContentType(Vec<u8>),
    /// A multipart body was expected but the request declares this
    /// content type instead (empty when it declares none).
    MissingMultipartContentType(Vec<u8>),
    /// The body does not parse as a JSON object of text fields.
    BadJson,
    /// The body does not follow the multipart boundary grammar, or the
    /// declared content type carries no boundary.
    BadMultipart,
    /// The named field is absent from the decoded body.
    MissingField(Vec<u8>),
    /// The body is not valid UTF-8.
    InvalidEncoding,
}

/// The mathematical shape of an extraction failure.
pub enum RejectShape {
    MissingPathParam(Seq<u8>),
    NotAnInteger(Seq<u8>),
    MissingQueryParam(Seq<u8>),
    MissingHeader(Seq<u8>),
    MissingCookie(Seq<u8>),
    MissingJsonContentType(Seq<u8>),
    MissingFormContentType(Seq<u8>),
    MissingMultipartContentType(Seq<u8>),
    BadJson,
    BadMultipart,
    MissingField(Seq<u8>),
    InvalidEncoding,
}

impl View for ExtractError {
    type V = RejectShape;

    open spec fn view(&self) -> RejectShape {
        match self {
            ExtractError::MissingPathParam(n) => RejectShape::MissingPathParam(n@),
            ExtractError::NotAnInteger(n) => RejectShape::NotAnInteger(n@),
            ExtractError::MissingQueryParam(n) => RejectShape::MissingQueryParam(n@),
            ExtractError::MissingHeader(n) => RejectShape::MissingHeader(n@),
            ExtractError::MissingCookie(n) => RejectShape::MissingCookie(n@),
            ExtractError::MissingJsonContentType(d) => RejectShape::MissingJsonContentType(d@),
            ExtractError::MissingFormContentType(d) => RejectShape::MissingFormContentType(d@),
            ExtractError::MissingMultipartContentType(d) => RejectShape::MissingMultipartContentType(
                d@,
            ),
            ExtractError::BadJson => RejectShape::BadJson,
            ExtractError::BadMultipart => RejectShape::BadMultipart,
            ExtractError::MissingField(n) => RejectShape::MissingField(n@),
            ExtractError::InvalidEncoding => RejectShape::InvalidEncoding,
        }
    }
}

/// The status the default rejection-to-response mapping gives each error:
/// missing inputs 400, a content-type mismatch 415, a malformed body 422.
pub open spec fn spec_error_status(e: RejectShape) -> u16 {
    match e {
        RejectShape::MissingPathParam(_) => 400,
        RejectShape::NotAnInteger(_) => 400,
        RejectShape::MissingQueryParam(_) => 400,
        RejectShape::MissingHeader(_) => 400,
        RejectShape::MissingCookie(_) => 400,
        RejectShape::MissingJsonContentType(_) => 415,
        RejectShape::MissingFormContentType(_) => 415,
        RejectShape::MissingMultipartContentType(_) => 415,
        RejectShape::BadJson => 422,
        RejectShape::BadMultipart => 422,
        RejectShape::MissingField(_) => 422,
        RejectShape::InvalidEncoding => 400,
    }
}

pub fn error_status(e: &ExtractError) -> (r: u16)
    ensures
        r == spec_error_status(e@),
{
    match e {
        ExtractError::MissingPathParam(_) => 400,
        ExtractError::NotAnInteger(_) => 400,
        ExtractError::MissingQueryParam(_) => 400,
        ExtractError::MissingHeader(_) => 400,
        ExtractError::MissingCookie(_) => 400,
        ExtractError::MissingJsonContentType(_) => 415,
        ExtractError::MissingFormContentType(_) => 415,
        ExtractError::MissingMultipartContentType(_) => 415,
        ExtractError::BadJson => 422,
        ExtractError::BadMultipart => 422,
        ExtractError::MissingField(_) => 422,
        ExtractError::InvalidEncoding => 400,
    }
}

/// The text a rejection reads as: the error's name, with its subject in
/// parentheses where it has one.
pub open spec fn spec_render_error(e: RejectShape) -> Seq<u8> {
    match e {
        RejectShape::MissingPathParam(n) => lit("MissingPathParam(") + n + lit(")"),
        RejectShape::NotAnInteger(n) => lit("NotAnInteger(") + n + lit(")"),
        RejectShape::MissingQueryParam(n) => lit("MissingQueryParam(") + n + lit(")"),
        RejectShape::MissingHeader(n) => lit("MissingHeader(") + n + lit(")"),
        RejectShape::MissingCookie(n) => lit("MissingCookie(") + n + lit(")"),
        RejectShape::MissingJsonContentType(d) => lit("MissingJsonContentType(") + d + lit(")"),
        RejectShape::MissingFormContentType(d) => lit("MissingFormContentType(") + d + lit(")"),
        RejectShape::MissingMultipartContentType(d) => lit("MissingMultipartContentType(") + d
            + lit(")"),
        RejectShape::BadJson => lit("BadJson"),
        RejectShape::BadMultipart => lit("BadMultipart"),
        RejectShape::MissingField(n) => lit("MissingField(") + n + lit(")"),
        RejectShape::InvalidEncoding => lit("InvalidEncoding"),
    }
}

fn render_named(prefix: &str, n: &Vec<u8>) -> (r: Vec<u8>)
    ensures
        r@ == lit(prefix) + n@ + lit(")"),
{
    let head = text(prefix);
    let close = text(")");
    let a = concat_bytes(&head, n);
    concat_bytes(&a, &close)
}

/// Renders a rejection as text.
pub fn render_error(e: &ExtractError) -> (r: Vec<u8>)
    ensures
        r@ == spec_render_error(e@),
{
    match e {
        ExtractError::MissingPathParam(n) => render_named("MissingPathParam(", n),
        ExtractError::NotAnInteger(n) => render_named("NotAnInteger(", n),
        ExtractError::MissingQueryParam(n) => render_named("MissingQueryParam(", n),
        ExtractError::MissingHeader(n) => render_named("MissingHeader(", n),
        ExtractError::MissingCookie(n) => render_named("MissingCookie(", n),
        ExtractError::MissingJsonContentType(d) => render_named("MissingJsonContentType(", d),
        ExtractError::MissingFormContentType(d) => render_named("MissingFormContentType(", d),
        ExtractError::MissingMultipartContentType(d) => render_named(
            "MissingMultipartContentType(",
            d,
        ),
        ExtractError::BadJson => text("BadJson"),
        ExtractError::BadMultipart => text("BadMultipart"),
        ExtractError::MissingField(n) => render_named("MissingField(", n),
        ExtractError::InvalidEncoding => text("InvalidEncoding"),
    }
}

} // verus!
