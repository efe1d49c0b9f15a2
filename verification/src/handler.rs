//! Handler descriptors.
//!
//! Handlers are data, not code: a handler declares an ordered list of
//! typed extraction steps (resolved once, at registration time) and a
//! response template built from literal pieces and references to the
//! extracted values. Dispatch walks these descriptors; this keeps handler
//! behaviour a mathematical function of the request, the router and the
//! application context.

use vstd::prelude::*;

verus! {

/// One source a handler input can be drawn from.
pub enum Binding {
    /// The request method's canonical name.
    ReqMethod,
    /// The raw request path.
    ReqPath,
    /// A named path parameter of the matched route, percent-decoded.
    PathParam(Vec<u8>),
    /// A named path parameter that must read as an unsigned integer;
    /// any other text is a typed rejection, not a match failure.
    PathParamInt(Vec<u8>),
    /// A query-string key; the last value wins when the key repeats.
    QueryParam(Vec<u8>),
    /// A header value, looked up case-insensitively; the first value wins.
    HeaderVal(Vec<u8>),
    /// A cookie value from the `Cookie` request header.
    CookieVal(Vec<u8>),
    /// The whole body read as UTF-8 text.
    BodyText,
    /// A field of a JSON object body; the request must declare the JSON
    /// content type.
    JsonField(Vec<u8>),
    /// A field of a form-encoded body; the request must declare the form
    /// content type.
    FormField(Vec<u8>),
    /// A field of a multipart body; the request must declare the
    /// multipart content type with a boundary. Fields come in arrival
    /// order, the first under the name wins.
    MultipartField(Vec<u8>),
    /// The application context value.
    StateVal,
}

/// One extraction step: a source, and whether the handler captures a
/// failure instead of letting it short-circuit the pipeline.
pub struct BindingStep {
    pub source: Binding,
    pub catch: bool,
}

/// One piece of a text template: a literal, or the value of the extraction
/// step with the given index.
pub enum Piece {
    Lit(Vec<u8>),
    Arg(usize),
}

/// One response-shaped part a handler may yield; parts are merged in
/// declaration order.
pub enum RespPart {
    /// Sets the status code; the first part that sets one wins.
    Status(u16),
    /// Appends a header.
    Header(Vec<u8>, Vec<Piece>),
    /// Appends a `Set-Cookie` header for the named cookie.
    SetCookie(Vec<u8>, Vec<Piece>),
    /// Supplies the body as text.
    BodyText(Vec<Piece>),
    /// Supplies the body as a JSON object of text fields.
    BodyJson(Vec<(Vec<u8>, Vec<Piece>)>),
}

/// A handler: responds from a template, fails with a typed error that
/// carries its own status code, or reports an opaque failure that only an
/// error-translating middleware hook may turn into a response.
pub enum Handler {
    Respond { bindings: Vec<BindingStep>, parts: Vec<RespPart>, on_reject: Vec<RespPart> },
    FailTyped { code: u16, message: Vec<u8> },
    Fail { message: Vec<u8> },
}

} // verus!
