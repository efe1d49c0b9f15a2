use routecore::dispatch::dispatch;
use routecore::dispatch::AppContext;
use routecore::handler::Binding;
use routecore::handler::BindingStep;
use routecore::handler::Handler;
use routecore::handler::Piece;
use routecore::handler::RespPart;
use routecore::http::Method;
use routecore::http::Request;
use routecore::http::Response;
use routecore::middleware::Hook;
use routecore::router::Router;

fn b(s: &str) -> Vec<u8> {
    s.as_bytes().to_vec()
}

fn ctx() -> AppContext {
    AppContext { state: Vec::new() }
}

fn step(source: Binding) -> BindingStep {
    BindingStep { source, catch: false }
}

fn request(method: Method, path: &str) -> Request {
    Request { method, path: b(path), query: Vec::new(), headers: Vec::new(), body: Vec::new() }
}

fn tpl_handler(bindings: Vec<Binding>, pieces: Vec<Piece>) -> Handler {
    Handler::Respond {
        bindings: bindings.into_iter().map(step).collect(),
        parts: vec![RespPart::BodyText(pieces)],
        on_reject: Vec::new(),
    }
}

fn ok_response(r: Result<Response, Vec<u8>>) -> Response {
    match r {
        Ok(resp) => resp,
        Err(m) => panic!("dispatch failed: {:?}", String::from_utf8(m)),
    }
}

fn header_value(resp: &Response, name: &str) -> Option<Vec<u8>> {
    let want = name.to_ascii_lowercase();
    for (n, v) in resp.headers.iter() {
        if String::from_utf8(n.clone()).unwrap().to_ascii_lowercase() == want {
            return Some(v.clone());
        }
    }
    None
}

#[test]
fn test_query() {
    let mut app = Router::new();
    app.route(
        Method::Get,
        &b("/query"),
        tpl_handler(
            vec![Binding::QueryParam(b("name"))],
            vec![Piece::Lit(b("Hello, ")), Piece::Arg(0), Piece::Lit(b("!"))],
        ),
    )
    .unwrap();

    let mut req = request(Method::Get, "/query");
    req.query = b("name=Fadel");
    let response = ok_response(dispatch(&app, &ctx(), &req));
    assert_eq!(response.status, 200);
    assert_eq!(response.body, b("Hello, Fadel!"));
}

#[test]
fn test_header() {
    let mut app = Router::new();
    app.route(
        Method::Get,
        &b("/get"),
        tpl_handler(
            vec![Binding::HeaderVal(b("name"))],
            vec![Piece::Lit(b("Hello, ")), Piece::Arg(0), Piece::Lit(b("!"))],
        ),
    )
    .unwrap();

    let mut req = request(Method::Get, "/get");
    req.headers = vec![(b("name"), b("Fadel"))];
    let response = ok_response(dispatch(&app, &ctx(), &req));
    assert_eq!(response.status, 200);
    assert_eq!(response.body, b("Hello, Fadel!"));
}

#[test]
fn test_body_string() {
    let mut app = Router::new();
    app.route(
        Method::Get,
        &b("/post"),
        tpl_handler(
            vec![Binding::BodyText],
            vec![Piece::Lit(b("Body ")), Piece::Arg(0)],
        ),
    )
    .unwrap();

    let mut req = request(Method::Get, "/post");
    req.body = b("This is Body");
    let response = ok_response(dispatch(&app, &ctx(), &req));
    assert_eq!(response.status, 200);
    assert_eq!(response.body, b("Body This is Body"));
}

#[test]
fn test_json() {
    let mut app = Router::new();
    app.route(
        Method::Get,
        &b("/post"),
        tpl_handler(
            vec![Binding::JsonField(b("username"))],
            vec![Piece::Lit(b("Hello ")), Piece::Arg(0)],
        ),
    )
    .unwrap();

    let mut req = request(Method::Get, "/post");
    req.headers = vec![(b("Content-Type"), b("application/json"))];
    req.body = b("{\"username\":\"Fadel\",\"password\":\"Fadel\"}");
    let response = ok_response(dispatch(&app, &ctx(), &req));
    assert_eq!(response.status, 200);
    assert_eq!(response.body, b("Hello Fadel"));
}

#[test]
fn test_json_error() {
    let hello = Handler::Respond {
        bindings: vec![BindingStep { source: Binding::JsonField(b("username")), catch: true }],
        parts: vec![RespPart::BodyText(vec![Piece::Lit(b("Hello ")), Piece::Arg(0)])],
        on_reject: vec![RespPart::BodyText(vec![Piece::Lit(b("Error ")), Piece::Arg(0)])],
    };
    let mut app = Router::new();
    app.route(Method::Post, &b("/post"), hello).unwrap();

    let mut req = request(Method::Post, "/post");
    req.headers = vec![(b("Content-Type"), b("application/json"))];
    req.body = b("{\"username\":\"Fadel\",\"password\":\"rahasia\"}");
    let response = ok_response(dispatch(&app, &ctx(), &req));
    assert_eq!(response.status, 200);
    assert_eq!(response.body, b("Hello Fadel"));

    let mut req = request(Method::Post, "/post");
    req.headers = vec![(b("Content-Type"), b("text/plain"))];
    req.body = b("tidak valid");
    let response = ok_response(dispatch(&app, &ctx(), &req));
    assert_eq!(response.status, 200);
    assert_eq!(response.body, b("Error MissingJsonContentType(text/plain)"));
}

#[test]
fn test_response() {
    let hello = Handler::Respond {
        bindings: vec![step(Binding::ReqMethod)],
        parts: vec![
            RespPart::Status(200),
            RespPart::Header(b("X-Owner"), vec![Piece::Lit(b("Eko"))]),
            RespPart::BodyText(vec![Piece::Lit(b("Hello ")), Piece::Arg(0)]),
        ],
        on_reject: Vec::new(),
    };
    let mut app = Router::new();
    app.route(Method::Get, &b("/get"), hello).unwrap();

    let response = ok_response(dispatch(&app, &ctx(), &request(Method::Get, "/get")));
    assert_eq!(response.status, 200);
    assert_eq!(response.body, b("Hello GET"));
    assert_eq!(header_value(&response, "X-Owner"), Some(b("Eko")));
}

#[test]
fn test_response_json() {
    let hello = Handler::Respond {
        bindings: Vec::new(),
        parts: vec![
            RespPart::Status(200),
            RespPart::Header(b("X-Owner"), vec![Piece::Lit(b("Fadel"))]),
            RespPart::BodyJson(vec![(b("token"), vec![Piece::Lit(b("token"))])]),
        ],
        on_reject: Vec::new(),
    };
    let mut app = Router::new();
    app.route(Method::Get, &b("/get"), hello).unwrap();

    let response = ok_response(dispatch(&app, &ctx(), &request(Method::Get, "/get")));
    assert_eq!(response.status, 200);
    assert_eq!(response.body, b("{\"token\":\"token\"}"));
    assert_eq!(header_value(&response, "X-Owner"), Some(b("Fadel")));
}

#[test]
fn test_response_tupple() {
    let hello = Handler::Respond {
        bindings: Vec::new(),
        parts: vec![
            RespPart::Status(200),
            RespPart::Header(b("X-Owner"), vec![Piece::Lit(b("Fadel"))]),
            RespPart::BodyJson(vec![(b("token"), vec![Piece::Lit(b("token"))])]),
        ],
        on_reject: Vec::new(),
    };
    let mut app = Router::new();
    app.route(Method::Get, &b("/get"), hello).unwrap();

    let response = ok_response(dispatch(&app, &ctx(), &request(Method::Get, "/get")));
    assert_eq!(response.status, 200);
    assert_eq!(response.body, b("{\"token\":\"token\"}"));
    assert_eq!(header_value(&response, "X-Owner"), Some(b("Fadel")));
}

#[test]
fn test_response_tupple3() {
    let hello = Handler::Respond {
        bindings: Vec::new(),
        parts: vec![
            RespPart::Status(200),
            RespPart::Header(b("X-Owner"), vec![Piece::Lit(b("Fadel"))]),
            RespPart::BodyJson(vec![(b("token"), vec![Piece::Lit(b("token"))])]),
        ],
        on_reject: Vec::new(),
    };
    let mut app = Router::new();
    app.route(Method::Get, &b("/get"), hello).unwrap();

    let response = ok_response(dispatch(&app, &ctx(), &request(Method::Get, "/get")));
    assert_eq!(response.status, 200);
    assert_eq!(response.body, b("{\"token\":\"token\"}"));
    assert_eq!(header_value(&response, "X-Owner"), Some(b("Fadel")));
}

#[test]
fn test_form() {
    let mut app = Router::new();
    app.route(
        Method::Post,
        &b("/post"),
        tpl_handler(
            vec![Binding::FormField(b("username"))],
            vec![Piece::Lit(b("Hello ")), Piece::Arg(0)],
        ),
    )
    .unwrap();

    let mut req = request(Method::Post, "/post");
    req.headers = vec![(b("Content-Type"), b("application/x-www-form-urlencoded"))];
    req.body = b("username=Fadel&password=rahasia");
    let response = ok_response(dispatch(&app, &ctx(), &req));
    assert_eq!(response.status, 200);
    assert_eq!(response.body, b("Hello Fadel"));
}

#[test]
fn test_multipart() {
    let mut app = Router::new();
    app.route(
        Method::Post,
        &b("/post"),
        tpl_handler(
            vec![Binding::MultipartField(b("username"))],
            vec![Piece::Lit(b("Hello ")), Piece::Arg(0)],
        ),
    )
    .unwrap();

    let mut req = request(Method::Post, "/post");
    req.headers = vec![(b("Content-Type"), b("multipart/form-data; boundary=X"))];
    req.body = b(
        "--X\r\nContent-Disposition: form-data; name=\"username\"\r\n\r\nEko\r\n--X\r\nContent-Disposition: form-data; name=\"password\"\r\n\r\nrahasia\r\n--X\r\nContent-Disposition: form-data; name=\"profile\"\r\nContent-Type: application/octet-stream\r\n\r\nContoh\r\n--X--\r\n",
    );
    let response = ok_response(dispatch(&app, &ctx(), &req));
    assert_eq!(response.status, 200);
    assert_eq!(response.body, b("Hello Eko"));
}

#[test]
fn test_cookie_response() {
    let hello = Handler::Respond {
        bindings: vec![step(Binding::QueryParam(b("name")))],
        parts: vec![
            RespPart::SetCookie(b("name"), vec![Piece::Arg(0)]),
            RespPart::BodyText(vec![Piece::Lit(b("Hello ")), Piece::Arg(0)]),
        ],
        on_reject: Vec::new(),
    };
    let mut app = Router::new();
    app.route(Method::Get, &b("/get"), hello).unwrap();

    let mut req = request(Method::Get, "/get");
    req.query = b("name=Fadel");
    let response = ok_response(dispatch(&app, &ctx(), &req));
    assert_eq!(response.status, 200);
    assert_eq!(response.body, b("Hello Fadel"));
    assert_eq!(header_value(&response, "Set-Cookie"), Some(b("name=Fadel")));
}

#[test]
fn test_cookie_request() {
    let mut app = Router::new();
    app.route(
        Method::Get,
        &b("/get"),
        tpl_handler(
            vec![Binding::CookieVal(b("name"))],
            vec![Piece::Lit(b("Hello ")), Piece::Arg(0)],
        ),
    )
    .unwrap();

    let mut req = request(Method::Get, "/get");
    req.headers = vec![(b("Cookie"), b("name=Fadel"))];
    let response = ok_response(dispatch(&app, &ctx(), &req));
    assert_eq!(response.status, 200);
    assert_eq!(response.body, b("Hello Fadel"));
}

#[test]
fn test_middleware() {
    let mut app = Router::new();
    app.route(
        Method::Get,
        &b("/get"),
        tpl_handler(
            vec![Binding::ReqMethod, Binding::HeaderVal(b("X-Request-Id"))],
            vec![
                Piece::Lit(b("Hello ")),
                Piece::Arg(0),
                Piece::Lit(b(" ")),
                Piece::Arg(1),
            ],
        ),
    )
    .unwrap();
    app.layer(Hook::SetRequestHeader(b("X-Request-Id"), b("123456")));
    app.layer(Hook::Observe);

    let mut req = request(Method::Get, "/get");
    req.headers = vec![(b("Cookie"), b("name=Eko"))];
    let response = ok_response(dispatch(&app, &ctx(), &req));
    assert_eq!(response.status, 200);
    assert_eq!(response.body, b("Hello GET 123456"));
}

#[test]
fn hooks_run_in_onion_order() {
    let mut app = Router::new();
    app.route(
        Method::Get,
        &b("/get"),
        tpl_handler(vec![Binding::HeaderVal(b("X-Layer"))], vec![Piece::Arg(0)]),
    )
    .unwrap();
    app.layer(Hook::SetRequestHeader(b("X-Layer"), b("inner")));
    app.layer(Hook::SetRequestHeader(b("X-Layer"), b("outer")));

    let response = ok_response(dispatch(&app, &ctx(), &request(Method::Get, "/get")));
    assert_eq!(response.body, b("inner"));
}

#[test]
fn innermost_catching_hook_handles_the_failure() {
    let mut app = Router::new();
    app.route(Method::Get, &b("/get"), Handler::Fail { message: b("boom") }).unwrap();
    app.layer(Hook::CatchFailure(500, b("inner: ")));
    app.layer(Hook::CatchFailure(502, b("outer: ")));

    let response = ok_response(dispatch(&app, &ctx(), &request(Method::Get, "/get")));
    assert_eq!(response.status, 500);
    assert_eq!(response.body, b("inner: boom"));
}

#[test]
fn test_error_handling() {
    let mut app = Router::new();
    app.route(
        Method::Get,
        &b("/get"),
        Handler::FailTyped { code: 400, message: b("Bad Request") },
    )
    .unwrap();
    app.route(Method::Post, &b("/post"), tpl_handler(Vec::new(), vec![Piece::Lit(b("OK"))]))
        .unwrap();

    let response = ok_response(dispatch(&app, &ctx(), &request(Method::Get, "/get")));
    assert_eq!(response.status, 400);
    assert_eq!(response.body, b("Bad Request"));

    let response = ok_response(dispatch(&app, &ctx(), &request(Method::Post, "/post")));
    assert_eq!(response.status, 200);
    assert_eq!(response.body, b("OK"));
}

#[test]
fn test_unexpected_handling() {
    let mut app = Router::new();
    app.route(Method::Get, &b("/get"), Handler::Fail { message: b("Bad Request") }).unwrap();
    app.layer(Hook::CatchFailure(500, b("Internal Server Error: ")));

    let response = ok_response(dispatch(&app, &ctx(), &request(Method::Get, "/get")));
    assert_eq!(response.status, 500);
    assert_eq!(response.body, b("Internal Server Error: Bad Request"));
}

#[test]
fn uncaught_failure_is_fatal_to_the_request() {
    let mut app = Router::new();
    app.route(Method::Get, &b("/get"), Handler::Fail { message: b("boom") }).unwrap();

    match dispatch(&app, &ctx(), &request(Method::Get, "/get")) {
        Err(m) => assert_eq!(m, b("boom")),
        Ok(_) => panic!("a failure with no catching hook must leave the pipeline"),
    }
}

#[test]
fn test_state_extractor() {
    let mut app = Router::new();
    app.route(
        Method::Get,
        &b("/get"),
        tpl_handler(
            vec![Binding::StateVal],
            vec![Piece::Lit(b("Total ")), Piece::Arg(0)],
        ),
    )
    .unwrap();

    let database = AppContext { state: b("100") };
    let response = ok_response(dispatch(&app, &database, &request(Method::Get, "/get")));
    assert_eq!(response.status, 200);
    assert_eq!(response.body, b("Total 100"));
}

#[test]
fn test_state_extension() {
    let mut app = Router::new();
    app.route(
        Method::Get,
        &b("/get"),
        tpl_handler(
            vec![Binding::StateVal],
            vec![Piece::Lit(b("Total ")), Piece::Arg(0)],
        ),
    )
    .unwrap();

    let database = AppContext { state: b("100") };
    let response = ok_response(dispatch(&app, &database, &request(Method::Get, "/get")));
    assert_eq!(response.status, 200);
    assert_eq!(response.body, b("Total 100"));
}

#[test]
fn test_state_closure_capture() {
    let mut app = Router::new();
    app.route(
        Method::Get,
        &b("/get"),
        tpl_handler(
            vec![Binding::StateVal],
            vec![Piece::Lit(b("Total ")), Piece::Arg(0)],
        ),
    )
    .unwrap();

    let database = AppContext { state: b("100") };
    let response = ok_response(dispatch(&app, &database, &request(Method::Get, "/get")));
    assert_eq!(response.status, 200);
    assert_eq!(response.body, b("Total 100"));
}

#[test]
fn rejection_statuses_and_texts() {
    let cases: Vec<(Binding, u16, &str)> = vec![
        (Binding::PathParam(b("id")), 400, "MissingPathParam(id)"),
        (Binding::QueryParam(b("q")), 400, "MissingQueryParam(q)"),
        (Binding::HeaderVal(b("h")), 400, "MissingHeader(h)"),
        (Binding::CookieVal(b("c")), 400, "MissingCookie(c)"),
        (Binding::JsonField(b("f")), 415, "MissingJsonContentType()"),
        (Binding::FormField(b("f")), 415, "MissingFormContentType()"),
    ];
    for (binding, status, body) in cases {
        let mut app = Router::new();
        app.route(
            Method::Get,
            &b("/r"),
            tpl_handler(vec![binding], vec![Piece::Arg(0)]),
        )
        .unwrap();
        let response = ok_response(dispatch(&app, &ctx(), &request(Method::Get, "/r")));
        assert_eq!(response.status, status);
        assert_eq!(response.body, b(body));
    }
}

#[test]
fn malformed_json_body_is_a_deserialization_error() {
    let mut app = Router::new();
    app.route(
        Method::Post,
        &b("/r"),
        tpl_handler(vec![Binding::JsonField(b("f"))], vec![Piece::Arg(0)]),
    )
    .unwrap();

    let mut req = request(Method::Post, "/r");
    req.headers = vec![(b("Content-Type"), b("application/json"))];
    req.body = b("not json");
    let response = ok_response(dispatch(&app, &ctx(), &req));
    assert_eq!(response.status, 422);
    assert_eq!(response.body, b("BadJson"));

    let mut req = request(Method::Post, "/r");
    req.headers = vec![(b("Content-Type"), b("application/json"))];
    req.body = b("{\"other\":\"x\"}");
    let response = ok_response(dispatch(&app, &ctx(), &req));
    assert_eq!(response.status, 422);
    assert_eq!(response.body, b("MissingField(f)"));
}

#[test]
fn invalid_utf8_body_is_an_encoding_error() {
    let mut app = Router::new();
    app.route(
        Method::Post,
        &b("/r"),
        tpl_handler(vec![Binding::BodyText], vec![Piece::Arg(0)]),
    )
    .unwrap();

    let mut req = request(Method::Post, "/r");
    req.body = vec![0xFF, 0xFE];
    let response = ok_response(dispatch(&app, &ctx(), &req));
    assert_eq!(response.status, 400);
    assert_eq!(response.body, b("InvalidEncoding"));
}

#[test]
fn integer_path_parameter_shape() {
    let mut app = Router::new();
    app.route(
        Method::Get,
        &b("/items/{id}"),
        tpl_handler(
            vec![Binding::PathParamInt(b("id"))],
            vec![Piece::Lit(b("Item ")), Piece::Arg(0)],
        ),
    )
    .unwrap();

    let response = ok_response(dispatch(&app, &ctx(), &request(Method::Get, "/items/42")));
    assert_eq!(response.status, 200);
    assert_eq!(response.body, b("Item 42"));

    let response = ok_response(dispatch(&app, &ctx(), &request(Method::Get, "/items/abc")));
    assert_eq!(response.status, 400);
    assert_eq!(response.body, b("NotAnInteger(id)"));
}

#[test]
fn aborting_hook_substitutes_the_response() {
    let mut app = Router::new();
    app.route(Method::Get, &b("/slow"), tpl_handler(Vec::new(), vec![Piece::Lit(b("done"))]))
        .unwrap();
    app.layer(Hook::Abort(503, b("request timed out")));

    let response = ok_response(dispatch(&app, &ctx(), &request(Method::Get, "/slow")));
    assert_eq!(response.status, 503);
    assert_eq!(response.body, b("request timed out"));
}

#[test]
fn query_lookup_is_last_value_wins() {
    let mut app = Router::new();
    app.route(
        Method::Get,
        &b("/q"),
        tpl_handler(vec![Binding::QueryParam(b("name"))], vec![Piece::Arg(0)]),
    )
    .unwrap();

    let mut req = request(Method::Get, "/q");
    req.query = b("name=first&name=second");
    let response = ok_response(dispatch(&app, &ctx(), &req));
    assert_eq!(response.body, b("second"));
}
