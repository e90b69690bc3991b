use rustnish::headers::Headers;
use rustnish::message::{Method, Request, Response, Uri, Version};
use rustnish::transform::{
    bad_gateway_response, bad_request_response, build_upstream_uri, decorate_response,
    rewrite_request,
};

fn get_request(path: &str, query: Option<&str>) -> Request {
    Request {
        method: Method::Get,
        uri: Uri {
            path: path.to_string(),
            query: query.map(|q| q.to_string()),
            fragment: None,
        },
        version: Version::Http11,
        headers: Headers::new(),
        body: Vec::new(),
    }
}

fn plain_response() -> Response {
    Response {
        status: 200,
        version: Version::Http11,
        headers: Headers::new(),
        body: b"hello".to_vec(),
    }
}

#[test]
fn upstream_uri_carries_port_and_path() {
    let req = get_request("/", None);
    assert_eq!("http://127.0.0.1:9091/", build_upstream_uri(9091, &req.uri));
}

#[test]
fn upstream_uri_keeps_query() {
    let req = get_request("/test", Some("key=value"));
    assert_eq!(
        "http://127.0.0.1:8080/test?key=value",
        build_upstream_uri(8080, &req.uri)
    );
}

#[test]
fn rewrite_appends_forwarding_headers() {
    let mut req = get_request("/", None);
    let uri = rewrite_request(&mut req, b"127.0.0.1".to_vec(), 9090, 9091);
    assert_eq!("http://127.0.0.1:9091/", uri);
    let xff = req.headers.values_of(&b"X-Forwarded-For".to_vec());
    assert_eq!(vec![b"127.0.0.1".to_vec()], xff);
    let xfp = req.headers.values_of(&b"X-Forwarded-Port".to_vec());
    assert_eq!(vec![b"9090".to_vec()], xfp);
}

#[test]
fn x_forwarded_for_is_appended_not_replaced() {
    let mut req = get_request("/", None);
    req.headers
        .append(b"X-Forwarded-For".to_vec(), b"1.2.3.4".to_vec());
    let _ = rewrite_request(&mut req, b"127.0.0.1".to_vec(), 9090, 9091);
    let xff = req.headers.values_of(&b"X-Forwarded-For".to_vec());
    assert_eq!(vec![b"1.2.3.4".to_vec(), b"127.0.0.1".to_vec()], xff);
}

#[test]
fn decorate_appends_via_and_inserts_server() {
    let mut resp = plain_response();
    decorate_response(&mut resp);
    let via = resp.headers.values_of(&b"Via".to_vec());
    assert_eq!(vec![b"1.1 rustnish-0.0.1".to_vec()], via);
    let server = resp.headers.values_of(&b"Server".to_vec());
    assert_eq!(vec![b"rustnish".to_vec()], server);
}

#[test]
fn via_is_appended_not_replaced() {
    let mut resp = plain_response();
    resp.headers.append(b"Via".to_vec(), b"1.1 test".to_vec());
    decorate_response(&mut resp);
    let via = resp.headers.values_of(&b"Via".to_vec());
    assert_eq!(vec![b"1.1 test".to_vec(), b"1.1 rustnish-0.0.1".to_vec()], via);
}

#[test]
fn existing_server_header_is_preserved() {
    let mut resp = plain_response();
    resp.headers
        .append(b"Server".to_vec(), b"dummy-server".to_vec());
    decorate_response(&mut resp);
    let server = resp.headers.values_of(&b"Server".to_vec());
    assert_eq!(vec![b"dummy-server".to_vec()], server);
}

#[test]
fn decorating_twice_keeps_one_server_header() {
    let mut resp = plain_response();
    decorate_response(&mut resp);
    decorate_response(&mut resp);
    let via = resp.headers.values_of(&b"Via".to_vec());
    assert_eq!(2, via.len());
    let server = resp.headers.values_of(&b"Server".to_vec());
    assert_eq!(vec![b"rustnish".to_vec()], server);
}

#[test]
fn version_labels_follow_the_protocol() {
    let mut resp = plain_response();
    resp.version = Version::Http10;
    decorate_response(&mut resp);
    let via = resp.headers.values_of(&b"Via".to_vec());
    assert_eq!(vec![b"1.0 rustnish-0.0.1".to_vec()], via);

    let mut resp2 = plain_response();
    resp2.version = Version::Http2;
    decorate_response(&mut resp2);
    let via2 = resp2.headers.values_of(&b"Via".to_vec());
    assert_eq!(vec![b"2.0 rustnish-0.0.1".to_vec()], via2);
}

#[test]
fn bad_gateway_has_fixed_body() {
    let resp = bad_gateway_response();
    assert_eq!(502, resp.status);
    assert_eq!(
        b"Something went wrong, please try again later.".to_vec(),
        resp.body
    );
    assert_eq!(0, resp.headers.len());
}

#[test]
fn bad_request_has_fixed_body() {
    let resp = bad_request_response();
    assert_eq!(400, resp.status);
    assert_eq!(b"Invalid upstream URI".to_vec(), resp.body);
}
