use routecore::dispatch::dispatch;
use routecore::dispatch::AppContext;
use routecore::handler::Binding;
use routecore::handler::BindingStep;
use routecore::handler::Handler;
use routecore::handler::Piece;
use routecore::handler::RespPart;
use routecore::http::Method;
use routecore::http::Request;
use routecore::http::Response;
use routecore::router::Router;
use routecore::router::RouterError;

fn b(s: &str) -> Vec<u8> {
    s.as_bytes().to_vec()
}

fn ctx() -> AppContext {
    AppContext { state: Vec::new() }
}

fn req(method: Method, path: &str) -> Request {
    Request { method, path: b(path), query: Vec::new(), headers: Vec::new(), body: Vec::new() }
}

fn step(source: Binding) -> BindingStep {
    BindingStep { source, catch: false }
}

fn text_handler(body: &str) -> Handler {
    Handler::Respond {
        bindings: Vec::new(),
        parts: vec![RespPart::BodyText(vec![Piece::Lit(b(body))])],
        on_reject: Vec::new(),
    }
}

fn tpl_handler(bindings: Vec<Binding>, pieces: Vec<Piece>) -> Handler {
    Handler::Respond {
        bindings: bindings.into_iter().map(step).collect(),
        parts: vec![RespPart::BodyText(pieces)],
        on_reject: Vec::new(),
    }
}

fn ok_response(r: Result<Response, Vec<u8>>) -> Response {
    match r {
        Ok(resp) => resp,
        Err(m) => panic!("dispatch failed: {:?}", String::from_utf8(m)),
    }
}

#[test]
fn test_axum() {
    let mut app = Router::new();
    app.route(Method::Get, &b("/"), text_handler("Hello, World!")).unwrap();
    let response = ok_response(dispatch(&app, &ctx(), &req(Method::Get, "/")));
    assert_eq!(response.status, 200);
    assert_eq!(response.body, b("Hello, World!"));
}

#[test]
fn test_method_routing() {
    let mut app = Router::new();
    app.route(Method::Get, &b("/get"), text_handler("Hello, World!")).unwrap();
    app.route(Method::Post, &b("/post"), text_handler("Hello, World!")).unwrap();

    let response = ok_response(dispatch(&app, &ctx(), &req(Method::Get, "/get")));
    assert_eq!(response.status, 200);
    assert_eq!(response.body, b("Hello, World!"));

    let response = ok_response(dispatch(&app, &ctx(), &req(Method::Post, "/post")));
    assert_eq!(response.status, 200);
    assert_eq!(response.body, b("Hello, World!"));
}

#[test]
fn test_request() {
    let hello = |_: ()| {
        tpl_handler(
            vec![Binding::ReqMethod],
            vec![Piece::Lit(b("Hello, ")), Piece::Arg(0), Piece::Lit(b("!"))],
        )
    };
    let mut app = Router::new();
    app.route(Method::Get, &b("/get"), hello(())).unwrap();
    app.route(Method::Post, &b("/post"), hello(())).unwrap();

    let response = ok_response(dispatch(&app, &ctx(), &req(Method::Get, "/get")));
    assert_eq!(response.status, 200);
    assert_eq!(response.body, b("Hello, GET!"));
}

#[test]
fn test_uri() {
    let mut app = Router::new();
    app.route(
        Method::Get,
        &b("/uri"),
        tpl_handler(
            vec![Binding::ReqMethod, Binding::ReqPath],
            vec![
                Piece::Lit(b("Hello, ")),
                Piece::Arg(0),
                Piece::Lit(b(" ")),
                Piece::Arg(1),
                Piece::Lit(b("!")),
            ],
        ),
    )
    .unwrap();

    let response = ok_response(dispatch(&app, &ctx(), &req(Method::Get, "/uri")));
    assert_eq!(response.status, 200);
    assert_eq!(response.body, b("Hello, GET /uri!"));
}

#[test]
fn test_path_parameter() {
    let mut app = Router::new();
    app.route(
        Method::Get,
        &b("/products/{id}/categories/{id_category}"),
        tpl_handler(
            vec![
                Binding::PathParam(b("id")),
                Binding::PathParam(b("id_category")),
            ],
            vec![
                Piece::Lit(b("Product ")),
                Piece::Arg(0),
                Piece::Lit(b(", Category ")),
                Piece::Arg(1),
            ],
        ),
    )
    .unwrap();

    let response = ok_response(dispatch(&app, &ctx(), &req(Method::Get, "/products/1/categories/2")));
    assert_eq!(response.status, 200);
    assert_eq!(response.body, b("Product 1, Category 2"));
}

#[test]
fn test_multiple_routes() {
    let hello = tpl_handler(
        vec![Binding::ReqMethod],
        vec![Piece::Lit(b("Hello ")), Piece::Arg(0)],
    );
    let hello2 = tpl_handler(
        vec![Binding::ReqMethod],
        vec![Piece::Lit(b("Hello ")), Piece::Arg(0)],
    );
    let mut first_route = Router::new();
    first_route.route(Method::Get, &b("/first"), hello).unwrap();
    let mut second_route = Router::new();
    second_route.route(Method::Get, &b("/second"), hello2).unwrap();

    let app = Router::new().merge(first_route).unwrap().merge(second_route).unwrap();

    let response = ok_response(dispatch(&app, &ctx(), &req(Method::Get, "/first")));
    assert_eq!(response.status, 200);
    assert_eq!(response.body, b("Hello GET"));

    let response = ok_response(dispatch(&app, &ctx(), &req(Method::Get, "/second")));
    assert_eq!(response.status, 200);
    assert_eq!(response.body, b("Hello GET"));
}

#[test]
fn test_multiple_route_nest() {
    let hello = tpl_handler(
        vec![Binding::ReqMethod],
        vec![Piece::Lit(b("Hello ")), Piece::Arg(0)],
    );
    let hello2 = tpl_handler(
        vec![Binding::ReqMethod],
        vec![Piece::Lit(b("Hello ")), Piece::Arg(0)],
    );
    let mut first_route = Router::new();
    first_route.route(Method::Get, &b("/first"), hello).unwrap();
    let mut second_route = Router::new();
    second_route.route(Method::Get, &b("/second"), hello2).unwrap();

    let app = Router::new()
        .nest(&b("/api/users"), first_route)
        .unwrap()
        .nest(&b("/api/products"), second_route)
        .unwrap();

    let response = ok_response(dispatch(&app, &ctx(), &req(Method::Get, "/api/users/first")));
    assert_eq!(response.status, 200);
    assert_eq!(response.body, b("Hello GET"));

    let response = ok_response(dispatch(&app, &ctx(), &req(Method::Get, "/api/products/second")));
    assert_eq!(response.status, 200);
    assert_eq!(response.body, b("Hello GET"));
}

#[test]
fn test_fallback() {
    let hello = tpl_handler(
        vec![Binding::ReqMethod],
        vec![Piece::Lit(b("Hello ")), Piece::Arg(0)],
    );
    let hello2 = tpl_handler(
        vec![Binding::ReqMethod],
        vec![Piece::Lit(b("Hello ")), Piece::Arg(0)],
    );
    let not_found = Handler::Respond {
        bindings: vec![step(Binding::ReqPath)],
        parts: vec![
            RespPart::Status(404),
            RespPart::BodyText(vec![
                Piece::Lit(b("Page ")),
                Piece::Arg(0),
                Piece::Lit(b(" is not found")),
            ]),
        ],
        on_reject: Vec::new(),
    };
    let not_allowed = Handler::Respond {
        bindings: vec![step(Binding::ReqPath)],
        parts: vec![
            RespPart::Status(405),
            RespPart::BodyText(vec![
                Piece::Lit(b("Page ")),
                Piece::Arg(0),
                Piece::Lit(b(" is not found")),
            ]),
        ],
        on_reject: Vec::new(),
    };

    let mut first_route = Router::new();
    first_route.route(Method::Get, &b("/first"), hello).unwrap();
    let mut second_route = Router::new();
    second_route.route(Method::Get, &b("/second"), hello2).unwrap();

    let mut app = Router::new().merge(first_route).unwrap().merge(second_route).unwrap();
    app.set_fallback(not_found);
    app.set_not_allowed_fallback(not_allowed);

    let response = ok_response(dispatch(&app, &ctx(), &req(Method::Get, "/first")));
    assert_eq!(response.status, 200);
    assert_eq!(response.body, b("Hello GET"));

    let response = ok_response(dispatch(&app, &ctx(), &req(Method::Get, "/second")));
    assert_eq!(response.status, 200);
    assert_eq!(response.body, b("Hello GET"));

    let response = ok_response(dispatch(&app, &ctx(), &req(Method::Get, "/wrong")));
    assert_eq!(response.status, 404);
    assert_eq!(response.body, b("Page /wrong is not found"));

    let response = ok_response(dispatch(&app, &ctx(), &req(Method::Post, "/first")));
    assert_eq!(response.status, 405);
    assert_eq!(response.body, b("Page /first is not found"));
}

#[test]
fn literal_beats_parameter_at_same_position() {
    let mut app = Router::new();
    app.route(
        Method::Get,
        &b("/products/{id}"),
        text_handler("by parameter"),
    )
    .unwrap();
    app.route(Method::Get, &b("/products/list"), text_handler("by literal")).unwrap();

    let response = ok_response(dispatch(&app, &ctx(), &req(Method::Get, "/products/list")));
    assert_eq!(response.body, b("by literal"));

    let response = ok_response(dispatch(&app, &ctx(), &req(Method::Get, "/products/7")));
    assert_eq!(response.body, b("by parameter"));
}

#[test]
fn wildcard_matches_remaining_segments() {
    let mut app = Router::new();
    app.route(Method::Get, &b("/static/*"), text_handler("asset")).unwrap();

    let response = ok_response(dispatch(&app, &ctx(), &req(Method::Get, "/static/css/site.css")));
    assert_eq!(response.body, b("asset"));

    let response = ok_response(dispatch(&app, &ctx(), &req(Method::Get, "/static")));
    assert_eq!(response.status, 404);
}

#[test]
fn method_not_allowed_is_distinct_from_no_match() {
    let mut app = Router::new();
    app.route(Method::Get, &b("/only-get"), text_handler("ok")).unwrap();

    let response = ok_response(dispatch(&app, &ctx(), &req(Method::Post, "/only-get")));
    assert_eq!(response.status, 405);

    let response = ok_response(dispatch(&app, &ctx(), &req(Method::Post, "/missing")));
    assert_eq!(response.status, 404);
}

#[test]
fn percent_decoded_path_parameter() {
    let mut app = Router::new();
    app.route(
        Method::Get,
        &b("/echo/{word}"),
        tpl_handler(vec![Binding::PathParam(b("word"))], vec![Piece::Arg(0)]),
    )
    .unwrap();

    let response = ok_response(dispatch(&app, &ctx(), &req(Method::Get, "/echo/a%20b%2Fc")));
    assert_eq!(response.body, b("a b/c"));
}

#[test]
fn duplicate_route_is_refused() {
    let mut app = Router::new();
    app.route(Method::Get, &b("/x"), text_handler("one")).unwrap();
    let e = app.route(Method::Get, &b("/x"), text_handler("two"));
    assert_eq!(e, Err(RouterError::DuplicateRoute));
    assert!(app.route(Method::Post, &b("/x"), text_handler("three")).is_ok());
}

#[test]
fn misplaced_wildcard_is_refused() {
    let mut app = Router::new();
    let e = app.route(Method::Get, &b("/a/*/b"), text_handler("bad"));
    assert_eq!(e, Err(RouterError::BadPattern));
}

#[test]
fn merge_refuses_duplicates() {
    let mut one = Router::new();
    one.route(Method::Get, &b("/same"), text_handler("one")).unwrap();
    let mut two = Router::new();
    two.route(Method::Get, &b("/same"), text_handler("two")).unwrap();
    assert!(matches!(one.merge(two), Err(RouterError::DuplicateRoute)));
}

#[test]
fn nest_refuses_parameter_prefix() {
    let sub = Router::new();
    let e = Router::new().nest(&b("/api/{v}"), sub);
    assert!(matches!(e, Err(RouterError::BadPattern)));
}
