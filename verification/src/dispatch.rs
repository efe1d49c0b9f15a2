//! The dispatcher: one request in, one response out.
//!
//! Dispatch applies the pre-hooks to the request, resolves the route,
//! runs the extractor pipeline in binding order (the first failing
//! required extractor short-circuits; captured ones do not), renders the
//! handler's response parts, and lets a failure-catching hook translate
//! an opaque handler failure. The whole pipeline is a mathematical
//! function of the router, the application context and the request --
//! `spec_dispatch` -- and the executable dispatcher returns exactly its
//! value.

use vstd::prelude::*;
use crate::bytes::concat_bytes;
use crate::bytes::lit;
use crate::bytes::subvec;
use crate::bytes::text;
use crate::extract::assoc;
use crate::extract::declares_type;
use crate::extract::error_status;
use crate::extract::is_utf8;
use crate::extract::is_valid_utf8;
use crate::extract::parse_query;
use crate::extract::parse_cookies;
use crate::extract::reads_as_integer;
use crate::extract::render_error;
use crate::extract::spec_reads_as_integer;
use crate::extract::rlookup;
use crate::extract::spec_assoc;
use crate::extract::spec_cookie_pairs;
use crate::extract::spec_declares_type;
use crate::extract::spec_error_status;
use crate::extract::spec_query_get;
use crate::extract::spec_query_pairs;
use crate::extract::spec_render_error;
use crate::extract::spec_rlookup;
use crate::extract::ExtractError;
use crate::extract::RejectShape;
use crate::handler::Binding;
use crate::handler::BindingStep;
use crate::handler::Handler;
use crate::handler::Piece;
use crate::handler::RespPart;
use crate::http::header_get;
use crate::http::method_name;
use crate::http::spec_header_get;
use crate::http::spec_method_name;
use crate::http::Request;
use crate::http::Response;
use crate::json::decode_obj;
use crate::json::encode_obj;
use crate::json::spec_dec_obj;
use crate::json::spec_enc_obj;
use crate::middleware::apply_pre_hooks;
use crate::multipart::boundary_of;
use crate::multipart::multipart_fields;
use crate::multipart::spec_boundary_of;
use crate::multipart::spec_multipart;
use crate::middleware::first_catch;
use crate::middleware::outer_abort;
use crate::middleware::spec_outer_abort;
use crate::middleware::spec_first_catch;
use crate::middleware::spec_pre_headers;
use crate::pattern::pat_params;
use crate::pattern::spec_path_pieces;
use crate::router::match_route;
use crate::router::MatchKind;
use crate::router::MatchOutcome;
use crate::router::Router;
use crate::router::spec_match;

verus! {

/// The application context handed to every dispatch call: shared
/// read-only state, rendered as text for the handlers that bind it.
pub struct AppContext {
    pub state: Vec<u8>,
}

/// The ghost value of one bound input: the extracted text, or the
/// captured rejection.
pub open spec fn res_view(r: Result<Vec<u8>, ExtractError>) -> Result<Seq<u8>, RejectShape> {
    match r {
        Ok(v) => Ok(v@),
        Err(e) => Err(e@),
    }
}

/// The ghost values of all bound inputs.
pub open spec fn vals_view(s: Seq<Result<Vec<u8>, ExtractError>>) -> Seq<
    Result<Seq<u8>, RejectShape>,
> {
    Seq::new(s.len(), |i: int| res_view(s[i]))
}

/// What one extraction step yields, as a function of the request (with
/// the headers as the hooks left them), the matched parameters and the
/// application state.
pub open spec fn spec_eval_binding(
    src: Binding,
    req: Request,
    hdrs: Seq<(Seq<u8>, Seq<u8>)>,
    params: Seq<(Seq<u8>, Seq<u8>)>,
    state: Seq<u8>,
) -> Result<Seq<u8>, RejectShape> {
    match src {
        Binding::ReqMethod => Ok(spec_method_name(req.method)),
        Binding::ReqPath => Ok(req.path@),
        Binding::PathParam(n) => match spec_assoc(params, n@, 0) {
            Some(v) => Ok(v),
            None => Err(RejectShape::MissingPathParam(n@)),
        },
        Binding::PathParamInt(n) => match spec_assoc(params, n@, 0) {
            Some(v) => if spec_reads_as_integer(v) {
                Ok(v)
            } else {
                Err(RejectShape::NotAnInteger(n@))
            },
            None => Err(RejectShape::MissingPathParam(n@)),
        },
        Binding::QueryParam(n) => match spec_query_get(req.query@, n@) {
            Some(v) => Ok(v),
            None => Err(RejectShape::MissingQueryParam(n@)),
        },
        Binding::HeaderVal(n) => match spec_header_get(hdrs, n@) {
            Some(v) => Ok(v),
            None => Err(RejectShape::MissingHeader(n@)),
        },
        Binding::CookieVal(n) => match spec_header_get(hdrs, lit("cookie")) {
            None => Err(RejectShape::MissingCookie(n@)),
            Some(cv) => match spec_assoc(spec_cookie_pairs(cv), n@, 0) {
                Some(v) => Ok(v),
                None => Err(RejectShape::MissingCookie(n@)),
            },
        },
        Binding::BodyText => if is_utf8(req.body@) {
            Ok(req.body@)
        } else {
            Err(RejectShape::InvalidEncoding)
        },
        Binding::JsonField(n) => match spec_header_get(hdrs, lit("content-type")) {
            None => Err(RejectShape::MissingJsonContentType(Seq::empty())),
            Some(ct) => if !spec_declares_type(ct, lit("application/json")) {
                Err(RejectShape::MissingJsonContentType(ct))
            } else {
                match spec_dec_obj(req.body@) {
                    None => Err(RejectShape::BadJson),
                    Some(obj) => match spec_assoc(obj, n@, 0) {
                        Some(v) => Ok(v),
                        None => Err(RejectShape::MissingField(n@)),
                    },
                }
            },
        },
        Binding::FormField(n) => match spec_header_get(hdrs, lit("content-type")) {
            None => Err(RejectShape::MissingFormContentType(Seq::empty())),
            Some(ct) => if !spec_declares_type(ct, lit("application/x-www-form-urlencoded")) {
                Err(RejectShape::MissingFormContentType(ct))
            } else {
                match spec_rlookup(spec_query_pairs(req.body@), n@) {
                    Some(v) => Ok(v),
                    None => Err(RejectShape::MissingField(n@)),
                }
            },
        },
        Binding::MultipartField(n) => match spec_header_get(hdrs, lit("content-type")) {
            None => Err(RejectShape::MissingMultipartContentType(Seq::empty())),
            Some(ct) => if !spec_declares_type(ct, lit("multipart/form-data")) {
                Err(RejectShape::MissingMultipartContentType(ct))
            } else {
                match spec_boundary_of(ct) {
                    None => Err(RejectShape::BadMultipart),
                    Some(bd) => match spec_multipart(req.body@, bd) {
                        None => Err(RejectShape::BadMultipart),
                        Some(fields) => match spec_assoc(fields, n@, 0) {
                            Some(v) => Ok(v),
                            None => Err(RejectShape::MissingField(n@)),
                        },
                    },
                }
            },
        },
        Binding::StateVal => Ok(state),
    }
}

/// Evaluates one extraction step.
fn eval_binding(
    src: &Binding,
    req: &Request,
    hdrs: &Vec<(Vec<u8>, Vec<u8>)>,
    params: &Vec<(Vec<u8>, Vec<u8>)>,
    ctx: &AppContext,
) -> (r: Result<Vec<u8>, ExtractError>)
    ensures
        res_view(r) == spec_eval_binding(*src, *req, hdrs.deep_view(), params.deep_view(), ctx.state@),
{
    match src {
        Binding::ReqMethod => Ok(method_name(req.method)),
        Binding::ReqPath => {
            let p = subvec(&req.path, 0, req.path.len());
            assert(p@ =~= req.path@);
            Ok(p)
        },
        Binding::PathParam(n) => match assoc(params, n) {
            Some(v) => Ok(v),
            None => {
                let c = subvec(n, 0, n.len());
                assert(c@ =~= n@);
                Err(ExtractError::MissingPathParam(c))
            },
        },
        Binding::PathParamInt(n) => match assoc(params, n) {
            Some(v) => {
                if reads_as_integer(&v) {
                    Ok(v)
                } else {
                    let c = subvec(n, 0, n.len());
                    assert(c@ =~= n@);
                    Err(ExtractError::NotAnInteger(c))
                }
            },
            None => {
                let c = subvec(n, 0, n.len());
                assert(c@ =~= n@);
                Err(ExtractError::MissingPathParam(c))
            },
        },
        Binding::QueryParam(n) => {
            let pairs = parse_query(&req.query);
            match rlookup(&pairs, n) {
                Some(v) => Ok(v),
                None => {
                    let c = subvec(n, 0, n.len());
                    assert(c@ =~= n@);
                    Err(ExtractError::MissingQueryParam(c))
                },
            }
        },
        Binding::HeaderVal(n) => match header_get(hdrs, n) {
            Some(v) => Ok(v),
            None => {
                let c = subvec(n, 0, n.len());
                assert(c@ =~= n@);
                Err(ExtractError::MissingHeader(c))
            },
        },
        Binding::CookieVal(n) => {
            let cname = text("cookie");
            match header_get(hdrs, &cname) {
                None => {
                    let c = subvec(n, 0, n.len());
                    assert(c@ =~= n@);
                    Err(ExtractError::MissingCookie(c))
                },
                Some(cv) => {
                    let cookies = parse_cookies(&cv);
                    match assoc(&cookies, n) {
                        Some(v) => Ok(v),
                        None => {
                            let c = subvec(n, 0, n.len());
                            assert(c@ =~= n@);
                            Err(ExtractError::MissingCookie(c))
                        },
                    }
                },
            }
        },
        Binding::BodyText => {
            if is_valid_utf8(&req.body) {
                let b = subvec(&req.body, 0, req.body.len());
                assert(b@ =~= req.body@);
                Ok(b)
            } else {
                Err(ExtractError::InvalidEncoding)
            }
        },
        Binding::JsonField(n) => {
            let ctname = text("content-type");
            match header_get(hdrs, &ctname) {
                None => Err(ExtractError::MissingJsonContentType(Vec::new())),
                Some(ct) => {
                    let want = text("application/json");
                    if !declares_type(&ct, &want) {
                        Err(ExtractError::MissingJsonContentType(ct))
                    } else {
                        match decode_obj(&req.body) {
                            None => Err(ExtractError::BadJson),
                            Some(obj) => match assoc(&obj, n) {
                                Some(v) => Ok(v),
                                None => {
                                    let c = subvec(n, 0, n.len());
                                    assert(c@ =~= n@);
                                    Err(ExtractError::MissingField(c))
                                },
                            },
                        }
                    }
                },
            }
        },
        Binding::FormField(n) => {
            let ctname = text("content-type");
            match header_get(hdrs, &ctname) {
                None => Err(ExtractError::MissingFormContentType(Vec::new())),
                Some(ct) => {
                    let want = text("application/x-www-form-urlencoded");
                    if !declares_type(&ct, &want) {
                        Err(ExtractError::MissingFormContentType(ct))
                    } else {
                        let pairs = parse_query(&req.body);
                        match rlookup(&pairs, n) {
                            Some(v) => Ok(v),
                            None => {
                                let c = subvec(n, 0, n.len());
                                assert(c@ =~= n@);
                                Err(ExtractError::MissingField(c))
                            },
                        }
                    }
                },
            }
        },
        Binding::MultipartField(n) => {
            let ctname = text("content-type");
            match header_get(hdrs, &ctname) {
                None => Err(ExtractError::MissingMultipartContentType(Vec::new())),
                Some(ct) => {
                    let want = text("multipart/form-data");
                    if !declares_type(&ct, &want) {
                        Err(ExtractError::MissingMultipartContentType(ct))
                    } else {
                        match boundary_of(&ct) {
                            None => Err(ExtractError::BadMultipart),
                            Some(bd) => match multipart_fields(&req.body, &bd) {
                                None => Err(ExtractError::BadMultipart),
                                Some(fields) => match assoc(&fields, n) {
                                    Some(v) => Ok(v),
                                    None => {
                                        let c = subvec(n, 0, n.len());
                                        assert(c@ =~= n@);
                                        Err(ExtractError::MissingField(c))
                                    },
                                },
                            },
                        }
                    }
                },
            }
        },
        Binding::StateVal => {
            let v = subvec(&ctx.state, 0, ctx.state.len());
            assert(v@ =~= ctx.state@);
            Ok(v)
        },
    }
}

/// Evaluates the extraction steps from `k` on, in declaration order: a
/// failing required step short-circuits with its error; a captured
/// failure becomes the step's value.
pub open spec fn spec_eval_bindings(
    bindings: Seq<BindingStep>,
    req: Request,
    hdrs: Seq<(Seq<u8>, Seq<u8>)>,
    params: Seq<(Seq<u8>, Seq<u8>)>,
    state: Seq<u8>,
    k: int,
) -> Result<Seq<Result<Seq<u8>, RejectShape>>, RejectShape>
    decreases bindings.len() - k when 0 <= k <= bindings.len()
{
    if k >= bindings.len() {
        Ok(Seq::empty())
    } else {
        let r = spec_eval_binding(bindings[k].source, req, hdrs, params, state);
        if r is Err && !bindings[k].catch {
            Err(r->Err_0)
        } else {
            match spec_eval_bindings(bindings, req, hdrs, params, state, k + 1) {
                Err(e) => Err(e),
                Ok(rest) => Ok(seq![r] + rest),
            }
        }
    }
}

/// Runs the extractor pipeline.
fn eval_bindings(
    bindings: &Vec<BindingStep>,
    req: &Request,
    hdrs: &Vec<(Vec<u8>, Vec<u8>)>,
    params: &Vec<(Vec<u8>, Vec<u8>)>,
    ctx: &AppContext,
) -> (r: Result<Vec<Result<Vec<u8>, ExtractError>>, ExtractError>)
    ensures
        (match r {
            Ok(vals) => spec_eval_bindings(
                bindings@,
                *req,
                hdrs.deep_view(),
                params.deep_view(),
                ctx.state@,
                0,
            ) == Ok::<_, RejectShape>(vals_view(vals@)),
            Err(e) => spec_eval_bindings(
                bindings@,
                *req,
                hdrs.deep_view(),
                params.deep_view(),
                ctx.state@,
                0,
            ) == Err::<Seq<Result<Seq<u8>, RejectShape>>, _>(e@),
        }),
{
    let ghost hv = hdrs.deep_view();
    let ghost pv = params.deep_view();
    let ghost sv = ctx.state@;
    let mut vals: Vec<Result<Vec<u8>, ExtractError>> = Vec::new();
    let mut k: usize = 0;
    while k < bindings.len()
        invariant
            k <= bindings@.len(),
            hv == hdrs.deep_view(),
            pv == params.deep_view(),
            sv == ctx.state@,
            vals@.len() == k,
            spec_eval_bindings(bindings@, *req, hv, pv, sv, 0) == (match spec_eval_bindings(
                bindings@,
                *req,
                hv,
                pv,
                sv,
                k as int,
            ) {
                Err(e) => Err::<Seq<Result<Seq<u8>, RejectShape>>, RejectShape>(e),
                Ok(rest) => Ok(vals_view(vals@) + rest),
            }),
        decreases bindings.len() - k,
    {
        let step = &bindings[k];
        let r = eval_binding(&step.source, req, hdrs, params, ctx);
        let failed = r.is_err();
        if failed && !step.catch {
            let e = match r {
                Err(e) => e,
                Ok(_) => {
                    proof {
                        assert(false);
                    }
                    ExtractError::InvalidEncoding
                },
            };
            return Err(e);
        }
        let ghost v0 = vals@;
        vals.push(r);
        proof {
            assert(vals_view(vals@) =~= vals_view(v0).push(res_view(vals@.last())));
            if spec_eval_bindings(bindings@, *req, hv, pv, sv, k + 1) is Ok {
                let rest = spec_eval_bindings(bindings@, *req, hv, pv, sv, k + 1)->Ok_0;
                assert(vals_view(v0) + (seq![res_view(vals@.last())] + rest) =~= vals_view(vals@)
                    + rest);
            }
        }
        k += 1;
    }
    proof {
        assert(vals_view(vals@) + Seq::<Result<Seq<u8>, RejectShape>>::empty() =~= vals_view(
            vals@,
        ));
    }
    Ok(vals)
}

/// One template piece's text: a literal, the bound value it names, or
/// the rendering of the captured rejection at that position; an index
/// out of range renders as nothing.
pub open spec fn spec_piece(p: Piece, vals: Seq<Result<Seq<u8>, RejectShape>>) -> Seq<u8> {
    match p {
        Piece::Lit(t) => t@,
        Piece::Arg(i) => if (i as int) < vals.len() {
            match vals[i as int] {
                Ok(v) => v,
                Err(e) => spec_render_error(e),
            }
        } else {
            Seq::empty()
        },
    }
}

/// The text of a whole template, from piece `k` on.
pub open spec fn spec_template(
    pieces: Seq<Piece>,
    vals: Seq<Result<Seq<u8>, RejectShape>>,
    k: int,
) -> Seq<u8>
    decreases pieces.len() - k when 0 <= k <= pieces.len()
{
    if k >= pieces.len() {
        Seq::empty()
    } else {
        spec_piece(pieces[k], vals) + spec_template(pieces, vals, k + 1)
    }
}

/// Renders a template against the bound values.
fn render_template(pieces: &Vec<Piece>, vals: &Vec<Result<Vec<u8>, ExtractError>>) -> (r: Vec<u8>)
    ensures
        r@ == spec_template(pieces@, vals_view(vals@), 0),
{
    let ghost vv = vals_view(vals@);
    let mut out: Vec<u8> = Vec::new();
    let mut k: usize = 0;
    while k < pieces.len()
        invariant
            k <= pieces@.len(),
            vv == vals_view(vals@),
            spec_template(pieces@, vv, 0) == out@ + spec_template(pieces@, vv, k as int),
        decreases pieces.len() - k,
    {
        let ghost o0 = out@;
        match &pieces[k] {
            Piece::Lit(t) => {
                let mut i: usize = 0;
                while i < t.len()
                    invariant
                        i <= t@.len(),
                        out@ == o0 + t@.take(i as int),
                    decreases t.len() - i,
                {
                    out.push(t[i]);
                    assert(out@ =~= o0 + t@.take(i + 1));
                    i += 1;
                }
                assert(out@ =~= o0 + t@);
            },
            Piece::Arg(i) => {
                if *i < vals.len() {
                    match &vals[*i] {
                        Ok(v) => {
                            let c = subvec(v, 0, v.len());
                            let mut j: usize = 0;
                            while j < c.len()
                                invariant
                                    j <= c@.len(),
                                    out@ == o0 + c@.take(j as int),
                                decreases c.len() - j,
                            {
                                out.push(c[j]);
                                assert(out@ =~= o0 + c@.take(j + 1));
                                j += 1;
                            }
                            proof {
                                assert(res_view(vals@[*i as int]) == Ok::<_, RejectShape>(
                                    vals@[*i as int]->Ok_0@,
                                ));
                                assert(out@ =~= o0 + spec_piece(pieces@[k as int], vv));
                            }
                        },
                        Err(e) => {
                            let txt = render_error(e);
                            let mut j: usize = 0;
                            while j < txt.len()
                                invariant
                                    j <= txt@.len(),
                                    out@ == o0 + txt@.take(j as int),
                                decreases txt.len() - j,
                            {
                                out.push(txt[j]);
                                assert(out@ =~= o0 + txt@.take(j + 1));
                                j += 1;
                            }
                            proof {
                                assert(res_view(vals@[*i as int]) == Err::<Seq<u8>, _>(
                                    vals@[*i as int]->Err_0@,
                                ));
                                assert(out@ =~= o0 + spec_piece(pieces@[k as int], vv));
                            }
                        },
                    }
                } else {
                    proof {
                        assert(out@ =~= o0 + spec_piece(pieces@[k as int], vv));
                    }
                }
            },
        }
        proof {
            assert(spec_template(pieces@, vv, k as int) == spec_piece(pieces@[k as int], vv)
                + spec_template(pieces@, vv, k + 1));
            assert(o0 + spec_template(pieces@, vv, k as int) =~= out@ + spec_template(
                pieces@,
                vv,
                k + 1,
            ));
        }
        k += 1;
    }
    proof {
        assert(out@ + Seq::<u8>::empty() =~= out@);
    }
    out
}

/// The JSON object a `BodyJson` part denotes: each field's name with its
/// rendered template.
pub open spec fn spec_json_fields(
    fields: Seq<(Vec<u8>, Vec<Piece>)>,
    vals: Seq<Result<Seq<u8>, RejectShape>>,
) -> Seq<(Seq<u8>, Seq<u8>)> {
    Seq::new(fields.len(), |i: int| (fields[i].0@, spec_template(fields[i].1@, vals, 0)))
}

/// Folding the response parts from `k` on: the first part that sets the
/// status wins, headers append in declaration order, the first
/// body-producing part supplies the body.
pub open spec fn spec_fold_parts(
    parts: Seq<RespPart>,
    vals: Seq<Result<Seq<u8>, RejectShape>>,
    k: int,
) -> (Option<u16>, Seq<(Seq<u8>, Seq<u8>)>, Option<Seq<u8>>)
    decreases parts.len() - k when 0 <= k <= parts.len()
{
    if k >= parts.len() {
        (None, Seq::empty(), None)
    } else {
        let rest = spec_fold_parts(parts, vals, k + 1);
        match parts[k] {
            RespPart::Status(st) => (Some(st), rest.1, rest.2),
            RespPart::Header(n, tpl) => (
                rest.0,
                seq![(n@, spec_template(tpl@, vals, 0))] + rest.1,
                rest.2,
            ),
            RespPart::SetCookie(n, tpl) => (
                rest.0,
                seq![(lit("Set-Cookie"), n@ + lit("=") + spec_template(tpl@, vals, 0))] + rest.1,
                rest.2,
            ),
            RespPart::BodyText(tpl) => (rest.0, rest.1, Some(spec_template(tpl@, vals, 0))),
            RespPart::BodyJson(fields) => (
                rest.0,
                rest.1,
                Some(spec_enc_obj(spec_json_fields(fields@, vals))),
            ),
        }
    }
}

/// The response the parts encode to: status 200 and an empty body unless
/// some part supplies them.
pub open spec fn spec_parts_response(
    parts: Seq<RespPart>,
    vals: Seq<Result<Seq<u8>, RejectShape>>,
) -> (u16, Seq<(Seq<u8>, Seq<u8>)>, Seq<u8>) {
    let f = spec_fold_parts(parts, vals, 0);
    (
        match f.0 {
            Some(st) => st,
            None => 200,
        },
        f.1,
        match f.2 {
            Some(b) => b,
            None => Seq::empty(),
        },
    )
}

/// Encodes the parts against the bound values into a wire response.
fn encode_parts(parts: &Vec<RespPart>, vals: &Vec<Result<Vec<u8>, ExtractError>>) -> (r: Response)
    ensures
        r.status == spec_parts_response(parts@, vals_view(vals@)).0,
        r.headers.deep_view() == spec_parts_response(parts@, vals_view(vals@)).1,
        r.body@ == spec_parts_response(parts@, vals_view(vals@)).2,
{
    let ghost vv = vals_view(vals@);
    let mut status: Option<u16> = None;
    let mut headers: Vec<(Vec<u8>, Vec<u8>)> = Vec::new();
    let mut body: Option<Vec<u8>> = None;
    let mut k: usize = 0;
    while k < parts.len()
        invariant
            k <= parts@.len(),
            vv == vals_view(vals@),
            ({
                let full = spec_fold_parts(parts@, vv, 0);
                let rest = spec_fold_parts(parts@, vv, k as int);
                &&& full.0 == (if status is Some {
                    Some(status->0)
                } else {
                    rest.0
                })
                &&& full.1 =~~= headers.deep_view() + rest.1
                &&& full.2 == (match body {
                    Some(b) => Some(b@),
                    None => rest.2,
                })
            }),
        decreases parts.len() - k,
    {
        let ghost h0 = headers.deep_view();
        match &parts[k] {
            RespPart::Status(st) => {
                if status.is_none() {
                    status = Some(*st);
                }
            },
            RespPart::Header(n, tpl) => {
                let name = subvec(n, 0, n.len());
                let value = render_template(tpl, vals);
                proof {
                    assert(name@ =~= n@);
                }
                headers.push((name, value));
                proof {
                    assert(headers.deep_view() =~~= h0.push((n@, spec_template(tpl@, vv, 0))));
                }
            },
            RespPart::SetCookie(n, tpl) => {
                let name = text("Set-Cookie");
                let rendered = render_template(tpl, vals);
                let eq = text("=");
                let a = concat_bytes(n, &eq);
                let value = concat_bytes(&a, &rendered);
                headers.push((name, value));
                proof {
                    assert(headers.deep_view() =~~= h0.push(
                        (lit("Set-Cookie"), n@ + lit("=") + spec_template(tpl@, vv, 0)),
                    ));
                }
            },
            RespPart::BodyText(tpl) => {
                if body.is_none() {
                    body = Some(render_template(tpl, vals));
                }
            },
            RespPart::BodyJson(fields) => {
                if body.is_none() {
                    let mut obj: Vec<(Vec<u8>, Vec<u8>)> = Vec::new();
                    let mut f: usize = 0;
                    while f < fields.len()
                        invariant
                            f <= fields@.len(),
                            vv == vals_view(vals@),
                            obj.deep_view() =~~= spec_json_fields(fields@, vv).take(f as int),
                        decreases fields.len() - f,
                    {
                        let ghost ov = obj.deep_view();
                        let fname = subvec(&fields[f].0, 0, fields[f].0.len());
                        let fval = render_template(&fields[f].1, vals);
                        proof {
                            assert(fname@ =~= fields@[f as int].0@);
                        }
                        obj.push((fname, fval));
                        proof {
                            assert(obj.deep_view() =~~= ov.push(
                                (fields@[f as int].0@, spec_template(fields@[f as int].1@, vv, 0)),
                            ));
                            assert(obj.deep_view() =~~= spec_json_fields(fields@, vv).take(f + 1));
                        }
                        f += 1;
                    }
                    proof {
                        assert(obj.deep_view() =~~= spec_json_fields(fields@, vv));
                    }
                    body = Some(encode_obj(&obj));
                }
            },
        }
        proof {
            let full = spec_fold_parts(parts@, vv, 0);
            assert(spec_fold_parts(parts@, vv, k as int).1.len() >= 0);
            assert(full.1 =~~= headers.deep_view() + spec_fold_parts(parts@, vv, k + 1).1);
        }
        k += 1;
    }
    proof {
        let full = spec_fold_parts(parts@, vv, 0);
        assert(spec_fold_parts(parts@, vv, k as int) == (
            None::<u16>,
            Seq::<(Seq<u8>, Seq<u8>)>::empty(),
            None::<Seq<u8>>,
        ));
        assert(full.1 =~~= headers.deep_view());
    }
    let st = match status {
        Some(s) => s,
        None => 200,
    };
    let bd = match body {
        Some(b) => b,
        None => Vec::new(),
    };
    Response { status: st, headers, body: bd }
}

/// What running a handler yields: a response, or an opaque failure that
/// only an error-translating hook may catch.
pub enum OutcomeShape {
    Reply(u16, Seq<(Seq<u8>, Seq<u8>)>, Seq<u8>),
    Failed(Seq<u8>),
}

/// Whether some captured extraction step failed.
pub open spec fn any_caught(vals: Seq<Result<Seq<u8>, RejectShape>>) -> bool {
    exists|i: int| 0 <= i < vals.len() && (#[trigger] vals[i]) is Err
}

/// Running a handler, as a function: a failing required extractor maps
/// to the default rejection response; otherwise the handler's parts (or
/// its recovery parts, when a captured extractor failed) encode the
/// response; a failing handler yields an opaque failure.
pub open spec fn spec_run_handler(
    h: Handler,
    req: Request,
    hdrs: Seq<(Seq<u8>, Seq<u8>)>,
    params: Seq<(Seq<u8>, Seq<u8>)>,
    state: Seq<u8>,
) -> OutcomeShape {
    match h {
        Handler::Respond { bindings, parts, on_reject } => match spec_eval_bindings(
            bindings@,
            req,
            hdrs,
            params,
            state,
            0,
        ) {
            Err(e) => OutcomeShape::Reply(spec_error_status(e), Seq::empty(), spec_render_error(e)),
            Ok(vals) => {
                let chosen = if any_caught(vals) {
                    on_reject@
                } else {
                    parts@
                };
                let f = spec_parts_response(chosen, vals);
                OutcomeShape::Reply(f.0, f.1, f.2)
            },
        },
        Handler::FailTyped { code, message } => OutcomeShape::Reply(code, Seq::empty(), message@),
        Handler::Fail { message } => OutcomeShape::Failed(message@),
    }
}

/// Runs a handler against the request.
fn run_handler(
    h: &Handler,
    req: &Request,
    hdrs: &Vec<(Vec<u8>, Vec<u8>)>,
    params: &Vec<(Vec<u8>, Vec<u8>)>,
    ctx: &AppContext,
) -> (r: Result<Response, Vec<u8>>)
    ensures
        (match spec_run_handler(*h, *req, hdrs.deep_view(), params.deep_view(), ctx.state@) {
            OutcomeShape::Reply(st, hs, b) => r matches Ok(resp) && resp.status == st
                && resp.headers.deep_view() == hs && resp.body@ == b,
            OutcomeShape::Failed(m) => r matches Err(msg) && msg@ == m,
        }),
{
    match h {
        Handler::Respond { bindings, parts, on_reject } => {
            match eval_bindings(bindings, req, hdrs, params, ctx) {
                Err(e) => {
                    let st = error_status(&e);
                    let bd = render_error(&e);
                    Ok(Response { status: st, headers: Vec::new(), body: bd })
                },
                Ok(vals) => {
                    let ghost vv = vals_view(vals@);
                    let mut caught: bool = false;
                    let mut i: usize = 0;
                    while i < vals.len()
                        invariant
                            i <= vals@.len(),
                            vv == vals_view(vals@),
                            caught == exists|j: int| 0 <= j < i && (#[trigger] vv[j]) is Err,
                        decreases vals.len() - i,
                    {
                        let bad = match &vals[i] {
                            Err(_) => true,
                            Ok(_) => false,
                        };
                        if bad {
                            proof {
                                assert(vv[i as int] is Err);
                            }
                            caught = true;
                        }
                        i += 1;
                    }
                    proof {
                        assert(caught == any_caught(vv));
                    }
                    let resp = if caught {
                        encode_parts(on_reject, &vals)
                    } else {
                        encode_parts(parts, &vals)
                    };
                    Ok(resp)
                },
            }
        },
        Handler::FailTyped { code, message } => {
            let bd = subvec(message, 0, message.len());
            assert(bd@ =~= message@);
            Ok(Response { status: *code, headers: Vec::new(), body: bd })
        },
        Handler::Fail { message } => {
            let m = subvec(message, 0, message.len());
            assert(m@ =~= message@);
            Err(m)
        },
    }
}

/// Dispatch, as a function of the router, the application context and
/// the request: an aborting hook substitutes its response outright;
/// otherwise pre-hooks rewrite the headers, the matcher picks the
/// route or a fallback, the handler (or the default 404/405 reply) makes
/// the response, and an uncaught handler failure leaves the pipeline as
/// the error value.
pub open spec fn spec_dispatch(router: Router, req: Request, state: Seq<u8>) -> Result<
    (u16, Seq<(Seq<u8>, Seq<u8>)>, Seq<u8>),
    Seq<u8>,
> {
    if spec_outer_abort(router.hooks@) is Some {
        let (st, b) = spec_outer_abort(router.hooks@)->0;
        Ok((st, Seq::empty(), b))
    } else {
        spec_dispatch_inner(router, req, state)
    }
}

/// Dispatch past the aborting hooks: pre-hooks, matcher, handler,
/// failure translation.
pub open spec fn spec_dispatch_inner(router: Router, req: Request, state: Seq<u8>) -> Result<
    (u16, Seq<(Seq<u8>, Seq<u8>)>, Seq<u8>),
    Seq<u8>,
> {
    let hdrs = spec_pre_headers(router.hooks@, req.headers.deep_view());
    let segs = spec_path_pieces(req.path@);
    let outcome = match spec_match(router.routes@, req.method, segs) {
        MatchKind::Found(b) => spec_run_handler(
            router.routes@[b].handler,
            req,
            hdrs,
            pat_params(router.routes@[b].pattern.deep_view(), segs),
            state,
        ),
        MatchKind::NotFound => match router.fallback {
            Some(h) => spec_run_handler(h, req, hdrs, Seq::empty(), state),
            None => OutcomeShape::Reply(404, Seq::empty(), Seq::empty()),
        },
        MatchKind::NotAllowed => match router.not_allowed_fallback {
            Some(h) => spec_run_handler(h, req, hdrs, Seq::empty(), state),
            None => OutcomeShape::Reply(405, Seq::empty(), Seq::empty()),
        },
    };
    match outcome {
        OutcomeShape::Reply(st, hs, b) => Ok((st, hs, b)),
        OutcomeShape::Failed(m) => match spec_first_catch(router.hooks@, 0) {
            Some((st, prefix)) => Ok((st, Seq::empty(), prefix + m)),
            None => Err(m),
        },
    }
}

fn copy_pairs(hs: &Vec<(Vec<u8>, Vec<u8>)>) -> (r: Vec<(Vec<u8>, Vec<u8>)>)
    ensures
        r.deep_view() == hs.deep_view(),
{
    let mut out: Vec<(Vec<u8>, Vec<u8>)> = Vec::new();
    let mut i: usize = 0;
    while i < hs.len()
        invariant
            i <= hs@.len(),
            out.deep_view() =~~= hs.deep_view().take(i as int),
        decreases hs.len() - i,
    {
        let ghost o0 = out.deep_view();
        let n = subvec(&hs[i].0, 0, hs[i].0.len());
        let v = subvec(&hs[i].1, 0, hs[i].1.len());
        proof {
            assert(n@ =~= hs@[i as int].0@);
            assert(v@ =~= hs@[i as int].1@);
        }
        out.push((n, v));
        proof {
            assert(out.deep_view() =~~= o0.push(hs.deep_view()[i as int]));
            assert(out.deep_view() =~~= hs.deep_view().take(i + 1));
        }
        i += 1;
    }
    proof {
        assert(out.deep_view() =~~= hs.deep_view());
    }
    out
}

/// Dispatches one request and produces exactly one outcome: the response,
/// or -- when the handler reports an opaque failure and no hook catches
/// it -- the failure itself, fatal to the request by design.
pub fn dispatch(router: &Router, ctx: &AppContext, req: &Request) -> (r: Result<Response, Vec<u8>>)
    ensures
        (match spec_dispatch(*router, *req, ctx.state@) {
            Ok((st, hs, b)) => r matches Ok(resp) && resp.status == st && resp.headers.deep_view()
                == hs && resp.body@ == b,
            Err(m) => r matches Err(msg) && msg@ == m,
        }),
{
    match outer_abort(&router.hooks) {
        Some((st, bd)) => {
            return Ok(Response { status: st, headers: Vec::new(), body: bd });
        },
        None => {},
    }
    let base = copy_pairs(&req.headers);
    let hdrs = apply_pre_hooks(&router.hooks, base);
    let m = match_route(&router.routes, req.method, &req.path);
    let outcome: Result<Response, Vec<u8>> = match m {
        MatchOutcome::Matched { route, params } => {
            run_handler(&router.routes[route].handler, req, &hdrs, &params, ctx)
        },
        MatchOutcome::NoMatch => {
            match &router.fallback {
                Some(h) => {
                    let empty_params: Vec<(Vec<u8>, Vec<u8>)> = Vec::new();
                    proof {
                        assert(empty_params.deep_view() =~~= Seq::<(Seq<u8>, Seq<u8>)>::empty());
                    }
                    run_handler(h, req, &hdrs, &empty_params, ctx)
                },
                None => Ok(Response { status: 404, headers: Vec::new(), body: Vec::new() }),
            }
        },
        MatchOutcome::MethodNotAllowed => {
            match &router.not_allowed_fallback {
                Some(h) => {
                    let empty_params: Vec<(Vec<u8>, Vec<u8>)> = Vec::new();
                    proof {
                        assert(empty_params.deep_view() =~~= Seq::<(Seq<u8>, Seq<u8>)>::empty());
                    }
                    run_handler(h, req, &hdrs, &empty_params, ctx)
                },
                None => Ok(Response { status: 405, headers: Vec::new(), body: Vec::new() }),
            }
        },
    };
    match outcome {
        Ok(resp) => Ok(resp),
        Err(msg) => {
            match first_catch(&router.hooks) {
                Some((st, prefix)) => {
                    let bd = concat_bytes(&prefix, &msg);
                    Ok(Response { status: st, headers: Vec::new(), body: bd })
                },
                None => Err(msg),
            }
        },
    }
}

/// The middleware chain and everything below it are side-effect-free by
/// construction: the outcome of a dispatch is a function of the router,
/// the context and the request alone, so invoking the chain twice with
/// the same request yields byte-identical outcomes.
pub proof fn lemma_dispatch_idempotent(
    router: Router,
    req: Request,
    state: Seq<u8>,
    first: Result<(u16, Seq<(Seq<u8>, Seq<u8>)>, Seq<u8>), Seq<u8>>,
    second: Result<(u16, Seq<(Seq<u8>, Seq<u8>)>, Seq<u8>), Seq<u8>>,
)
    requires
        first == spec_dispatch(router, req, state),
        second == spec_dispatch(router, req, state),
    ensures
        first == second,
{
}

} // verus!
