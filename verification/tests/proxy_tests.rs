use rustnish::headers::Headers;
use rustnish::message::{Method, Request, Response, Uri, Version};
use rustnish::proxy::Cache;

fn get_request(path: &str) -> Request {
    Request {
        method: Method::Get,
        uri: Uri {
            path: path.to_string(),
            query: None,
            fragment: None,
        },
        version: Version::Http11,
        headers: Headers::new(),
        body: Vec::new(),
    }
}

fn upstream_response(cache_control: Option<&str>) -> Response {
    let mut headers = Headers::new();
    if let Some(cc) = cache_control {
        headers.append(b"Cache-Control".to_vec(), cc.as_bytes().to_vec());
    }
    Response {
        status: 200,
        version: Version::Http11,
        headers,
        body: b"hello".to_vec(),
    }
}

#[test]
fn cached_response_survives_outage() {
    let mut cache = Cache::with_memory_size(1024 * 1024);
    let key = cache.cache_key(&get_request("/"));
    assert_eq!(Some("/".to_string()), key);

    let first = cache.handle_upstream_result(
        key.clone(),
        Some(upstream_response(Some("public,max-age=1800"))),
        0,
    );
    assert_eq!(200, first.status);

    // The upstream is gone; the second request is served from memory.
    let hit = cache.lookup(&key, 5_000);
    let cached = hit.expect("the primed response should be served");
    assert_eq!(200, cached.status);
    assert_eq!(b"hello".to_vec(), cached.body);
    let via = cached.headers.values_of(&b"Via".to_vec());
    assert_eq!(vec![b"1.1 rustnish-0.0.1".to_vec()], via);

    // A path that was never primed falls through to the dead upstream.
    let other_key = cache.cache_key(&get_request("/test"));
    assert!(cache.lookup(&other_key, 5_000).is_none());
    let error = cache.handle_upstream_result(other_key, None, 5_000);
    assert_eq!(502, error.status);
    assert_eq!(
        b"Something went wrong, please try again later.".to_vec(),
        error.body
    );
}

#[test]
fn uncachable_response_primes_nothing() {
    let mut cache = Cache::with_memory_size(1024 * 1024);
    let key = cache.cache_key(&get_request("/"));

    let first = cache.handle_upstream_result(key.clone(), Some(upstream_response(None)), 0);
    assert_eq!(200, first.status);

    assert!(cache.lookup(&key, 1).is_none());
    let error = cache.handle_upstream_result(key, None, 1);
    assert_eq!(502, error.status);
}

#[test]
fn entry_expires_after_its_ttl() {
    let mut cache = Cache::with_memory_size(1024 * 1024);
    let key = cache.cache_key(&get_request("/"));

    let _ = cache.handle_upstream_result(
        key.clone(),
        Some(upstream_response(Some("public,max-age=1"))),
        0,
    );

    assert!(cache.lookup(&key, 500).is_some());
    assert!(cache.lookup(&key, 1_001).is_none());
}

#[test]
fn session_cookie_bypasses_cache() {
    let mut cache = Cache::with_memory_size(1024 * 1024);
    let key = cache.cache_key(&get_request("/"));

    let _ = cache.handle_upstream_result(
        key,
        Some(upstream_response(Some("public,max-age=1800"))),
        0,
    );

    let mut bypassing = get_request("/");
    bypassing
        .headers
        .append(b"Cookie".to_vec(), b"SESS1234567=xyz".to_vec());
    let bypass_key = cache.cache_key(&bypassing);
    assert_eq!(None, bypass_key);
    assert!(cache.lookup(&bypass_key, 1).is_none());
    let error = cache.handle_upstream_result(bypass_key, None, 1);
    assert_eq!(502, error.status);
}

#[test]
fn stored_response_is_returned_unchanged() {
    let mut cache = Cache::with_memory_size(1024 * 1024);
    let response = upstream_response(Some("public,max-age=60"));
    let delivered = cache.store(Some("/".to_string()), response, 0);
    assert_eq!(200, delivered.status);
    assert_eq!(b"hello".to_vec(), delivered.body);
}

#[test]
fn max_age_decides_cachability() {
    let mut cache = Cache::with_memory_size(1024 * 1024);
    assert_eq!(
        Some(60),
        cache.get_max_age(&upstream_response(Some("public, max-age=60")))
    );
    assert_eq!(
        None,
        cache.get_max_age(&upstream_response(Some("max-age=60")))
    );
    assert_eq!(
        None,
        cache.get_max_age(&upstream_response(Some("public, max-age=0")))
    );

    let key = Some("/".to_string());
    let _ = cache.store(key.clone(), upstream_response(Some("public, max-age=60")), 0);
    assert!(cache.lookup(&key, 1).is_some());
    assert!(cache.lookup(&key, 59_999).is_some());
    assert!(cache.lookup(&key, 60_000).is_none());
}

#[test]
fn response_as_large_as_the_budget_is_cached() {
    let key = Some("/".to_string());
    let probe = upstream_response(Some("public,max-age=60"));
    let charged = rustnish::message::CachedResponse {
        status: probe.status,
        version: probe.version,
        headers: probe.headers.duplicate(),
        body: probe.body.clone(),
    }
    .get_memory_size();

    // A budget of exactly the entry's charge admits it.
    let mut fitted = Cache::with_memory_size(charged);
    let _ = fitted.store(key.clone(), probe, 0);
    assert!(fitted.lookup(&key, 1).is_some());

    // One byte less refuses it.
    let mut tight = Cache::with_memory_size(charged - 1);
    let _ = tight.store(key.clone(), upstream_response(Some("public,max-age=60")), 0);
    assert!(tight.lookup(&key, 1).is_none());
}
