use rustnish::headers::Headers;
use rustnish::message::{Method, Request, Uri, Version};
use rustnish::policy::{compute_cache_key, contains_session_marker, max_age_of_headers};

fn request(method: Method, path: &str, query: Option<&str>, fragment: Option<&str>) -> Request {
    Request {
        method,
        uri: Uri {
            path: path.to_string(),
            query: query.map(|q| q.to_string()),
            fragment: fragment.map(|f| f.to_string()),
        },
        version: Version::Http11,
        headers: Headers::new(),
        body: Vec::new(),
    }
}

#[test]
fn public_with_max_age_is_cached() {
    let mut h = Headers::new();
    h.append(b"Cache-Control".to_vec(), b"public, max-age=60".to_vec());
    assert_eq!(Some(60), max_age_of_headers(&h));
}

#[test]
fn unspaced_directives_are_cached() {
    let mut h = Headers::new();
    h.append(b"Cache-Control".to_vec(), b"public,max-age=1800".to_vec());
    assert_eq!(Some(1800), max_age_of_headers(&h));
}

#[test]
fn max_age_zero_is_not_cached() {
    let mut h = Headers::new();
    h.append(b"Cache-Control".to_vec(), b"public, max-age=0".to_vec());
    assert_eq!(None, max_age_of_headers(&h));
}

#[test]
fn missing_public_is_not_cached() {
    let mut h = Headers::new();
    h.append(b"Cache-Control".to_vec(), b"max-age=60".to_vec());
    assert_eq!(None, max_age_of_headers(&h));
}

#[test]
fn missing_cache_control_is_not_cached() {
    let h = Headers::new();
    assert_eq!(None, max_age_of_headers(&h));
}

#[test]
fn unparsable_max_age_counts_as_zero() {
    let mut h = Headers::new();
    h.append(b"Cache-Control".to_vec(), b"public, max-age=abc".to_vec());
    assert_eq!(None, max_age_of_headers(&h));
}

#[test]
fn later_max_age_overrides_earlier() {
    let mut h = Headers::new();
    h.append(b"Cache-Control".to_vec(), b"max-age=60".to_vec());
    h.append(b"cache-control".to_vec(), b"public, max-age=30".to_vec());
    assert_eq!(Some(30), max_age_of_headers(&h));
}

#[test]
fn other_directives_are_ignored() {
    let mut h = Headers::new();
    h.append(
        b"Cache-Control".to_vec(),
        b"no-transform, public, max-age=120, s-maxage=600".to_vec(),
    );
    assert_eq!(Some(120), max_age_of_headers(&h));
}

#[test]
fn session_cookie_is_recognised() {
    assert!(contains_session_marker(&b"SESS1234567=xyz".to_vec()));
    assert!(contains_session_marker(&b"other=1; SESSabc_9=x".to_vec()));
    assert!(!contains_session_marker(&b"theme=dark".to_vec()));
    assert!(!contains_session_marker(&b"SESS=nothing".to_vec()));
    assert!(!contains_session_marker(&b"SESSnoequals".to_vec()));
}

#[test]
fn cache_key_includes_query_and_omits_fragment() {
    let with_fragment = request(Method::Get, "/test", Some("key=value"), Some("frag"));
    let without_fragment = request(Method::Get, "/test", Some("key=value"), None);
    let key_a = compute_cache_key(&with_fragment).unwrap();
    let key_b = compute_cache_key(&without_fragment).unwrap();
    assert_eq!("/test?key=value", key_a);
    assert_eq!(key_a, key_b);
}

#[test]
fn cache_key_for_plain_path() {
    let req = request(Method::Get, "/", None, None);
    assert_eq!(Some("/".to_string()), compute_cache_key(&req));
}

#[test]
fn non_get_requests_have_no_key() {
    assert_eq!(None, compute_cache_key(&request(Method::Post, "/", None, None)));
    assert_eq!(None, compute_cache_key(&request(Method::Head, "/", None, None)));
}

#[test]
fn session_cookie_bypasses_key() {
    let mut req = request(Method::Get, "/", None, None);
    req.headers
        .append(b"Cookie".to_vec(), b"SESS1234567=xyz".to_vec());
    assert_eq!(None, compute_cache_key(&req));
}

#[test]
fn harmless_cookie_keeps_key() {
    let mut req = request(Method::Get, "/", None, None);
    req.headers.append(b"Cookie".to_vec(), b"theme=dark".to_vec());
    assert_eq!(Some("/".to_string()), compute_cache_key(&req));
}
