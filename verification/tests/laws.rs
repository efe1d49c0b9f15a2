use routecore::bytes::bytes_eq_ignore_case;
use routecore::bytes::split_bytes;
use routecore::dispatch::dispatch;
use routecore::dispatch::AppContext;
use routecore::extract::is_valid_utf8;
use routecore::extract::parse_cookies;
use routecore::extract::parse_query;
use routecore::handler::Binding;
use routecore::handler::BindingStep;
use routecore::handler::Handler;
use routecore::handler::Piece;
use routecore::handler::RespPart;
use routecore::http::header_get;
use routecore::http::header_get_all;
use routecore::http::Method;
use routecore::http::Request;
use routecore::json::decode_obj;
use routecore::multipart::multipart_fields;
use routecore::json::encode_obj;
use routecore::percent::decode_bytes;
use routecore::router::Router;

fn b(s: &str) -> Vec<u8> {
    s.as_bytes().to_vec()
}

#[test]
fn json_round_trip_plain() {
    let obj = vec![(b("username"), b("Eko")), (b("password"), b("rahasia"))];
    let encoded = encode_obj(&obj);
    assert_eq!(encoded, b("{\"username\":\"Eko\",\"password\":\"rahasia\"}"));
    assert_eq!(decode_obj(&encoded), Some(obj));
}

#[test]
fn json_round_trip_empty_object() {
    let obj: Vec<(Vec<u8>, Vec<u8>)> = Vec::new();
    let encoded = encode_obj(&obj);
    assert_eq!(encoded, b("{}"));
    assert_eq!(decode_obj(&encoded), Some(obj));
}

#[test]
fn json_round_trip_with_escapes() {
    let obj = vec![(b("say \"hi\""), b("back\\slash")), (b(""), b(""))];
    let encoded = encode_obj(&obj);
    assert_eq!(
        encoded,
        b("{\"say \\\"hi\\\"\":\"back\\\\slash\",\"\":\"\"}")
    );
    assert_eq!(decode_obj(&encoded), Some(obj));
}

#[test]
fn json_decode_rejects_trailing_bytes() {
    assert_eq!(decode_obj(&b("{\"a\":\"b\"}x")), None);
    assert_eq!(decode_obj(&b("{\"a\":\"b\"")), None);
    assert_eq!(decode_obj(&b("[]")), None);
}

#[test]
fn dispatch_twice_yields_byte_identical_responses() {
    let mut app = Router::new();
    app.route(
        Method::Get,
        &b("/echo/{x}"),
        Handler::Respond {
            bindings: vec![
                BindingStep { source: Binding::PathParam(b("x")), catch: false },
                BindingStep { source: Binding::ReqMethod, catch: false },
            ],
            parts: vec![
                RespPart::Header(b("X-Kind"), vec![Piece::Arg(1)]),
                RespPart::BodyText(vec![Piece::Arg(0)]),
            ],
            on_reject: Vec::new(),
        },
    )
    .unwrap();
    let ctx = AppContext { state: b("s") };
    let req = Request {
        method: Method::Get,
        path: b("/echo/twice"),
        query: b("a=1"),
        headers: vec![(b("h"), b("v"))],
        body: b("ignored"),
    };

    let first = dispatch(&app, &ctx, &req).unwrap();
    let second = dispatch(&app, &ctx, &req).unwrap();
    assert_eq!(first.status, second.status);
    assert_eq!(first.headers, second.headers);
    assert_eq!(first.body, second.body);
}

#[test]
fn percent_decoding_byte_level() {
    assert_eq!(decode_bytes(&b("a%20b"), false), b("a b"));
    assert_eq!(decode_bytes(&b("a+b"), false), b("a+b"));
    assert_eq!(decode_bytes(&b("a+b%3D1"), true), b("a b=1"));
    assert_eq!(decode_bytes(&b("%zz"), false), b("%zz"));
    assert_eq!(decode_bytes(&b("%4"), false), b("%4"));
    assert_eq!(decode_bytes(&b("%41%6a"), false), b("Aj"));
}

#[test]
fn split_keeps_empty_pieces() {
    let pieces = split_bytes(&b("a//b/"), 47);
    let expected: Vec<Vec<u8>> = vec![b("a"), b(""), b("b"), b("")];
    assert_eq!(pieces, expected);
    assert_eq!(split_bytes(&b(""), 47), vec![b("")]);
}

#[test]
fn multi_valued_header_lookup() {
    let headers: Vec<(Vec<u8>, Vec<u8>)> = vec![
        (b("Set-Cookie"), b("a=1")),
        (b("X-Other"), b("z")),
        (b("set-cookie"), b("b=2")),
    ];
    let all = header_get_all(&headers, &b("SET-COOKIE"));
    let expected: Vec<Vec<u8>> = vec![b("a=1"), b("b=2")];
    assert_eq!(all, expected);
    assert_eq!(header_get(&headers, &b("set-Cookie")), Some(b("a=1")));
    assert_eq!(header_get(&headers, &b("absent")), None);
}

#[test]
fn case_insensitive_byte_equality() {
    assert!(bytes_eq_ignore_case(&b("Content-Type"), &b("content-type")));
    assert!(!bytes_eq_ignore_case(&b("a"), &b("b")));
}

#[test]
fn utf8_validation_byte_ranges() {
    assert!(is_valid_utf8(&b("plain ascii")));
    assert!(is_valid_utf8(&vec![0x68, 0xC3, 0xA9, 0x6C, 0x6C, 0x6F]));
    assert!(is_valid_utf8(&vec![0xE6, 0x97, 0xA5, 0xE6, 0x9C, 0xAC, 0xF0, 0x9F, 0x99, 0x82]));
    assert!(!is_valid_utf8(&vec![0xC0, 0xAF]));
    assert!(!is_valid_utf8(&vec![0xED, 0xA0, 0x80]));
    assert!(!is_valid_utf8(&vec![0xE2, 0x82]));
}

#[test]
fn query_parsing_pieces() {
    let pairs = parse_query(&b("a=1&b=two+words&c"));
    let expected: Vec<(Vec<u8>, Vec<u8>)> =
        vec![(b("a"), b("1")), (b("b"), b("two words")), (b("c"), b(""))];
    assert_eq!(pairs, expected);
}

#[test]
fn multipart_fields_in_arrival_order() {
    let body = b(
        "--frontier\r\nContent-Disposition: form-data; name=\"username\"\r\n\r\nEko\r\n--frontier\r\nContent-Disposition: form-data; name=\"profile\"\r\nContent-Type: application/octet-stream\r\n\r\nContoh\r\n--frontier--\r\n",
    );
    let fields = multipart_fields(&body, &b("frontier")).unwrap();
    let expected: Vec<(Vec<u8>, Vec<u8>)> =
        vec![(b("username"), b("Eko")), (b("profile"), b("Contoh"))];
    assert_eq!(fields, expected);
    assert!(fields[1].1.len() > 0);

    assert_eq!(multipart_fields(&b("no boundary here"), &b("frontier")), None);
    assert_eq!(multipart_fields(&b("--frontier junk"), &b("frontier")), None);
}

#[test]
fn cookie_parsing_pieces() {
    let pairs = parse_cookies(&b("name=Fadel; theme=dark; bare"));
    let expected: Vec<(Vec<u8>, Vec<u8>)> =
        vec![(b("name"), b("Fadel")), (b("theme"), b("dark")), (b("bare"), b(""))];
    assert_eq!(pairs, expected);
}

#[test]
fn exact_literal_match_has_empty_parameters() {
    let mut app = Router::new();
    app.route(
        Method::Get,
        &b("/a/b/c"),
        Handler::Respond {
            bindings: vec![BindingStep { source: Binding::PathParam(b("any")), catch: true }],
            parts: vec![RespPart::BodyText(vec![Piece::Lit(b("literal hit"))])],
            on_reject: vec![RespPart::BodyText(vec![Piece::Lit(b("no params"))])],
        },
    )
    .unwrap();

    let req = Request {
        method: Method::Get,
        path: b("/a/b/c"),
        query: Vec::new(),
        headers: Vec::new(),
        body: Vec::new(),
    };
    let response = dispatch(&app, &AppContext { state: Vec::new() }, &req).unwrap();
    assert_eq!(response.status, 200);
    assert_eq!(response.body, b("no params"));
}
