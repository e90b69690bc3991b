use rustnish::headers::Headers;
use rustnish::message::{materialize, rehydrate, CachedResponse, Response, Version};

fn example_cache_entry() -> CachedResponse {
    CachedResponse {
        status: 200,
        version: Version::Http11,
        headers: Headers::new(),
        body: "a".as_bytes().to_vec(),
    }
}

#[test]
fn cache_memory_size() {
    let cache_entry = example_cache_entry();
    assert_eq!(129, cache_entry.get_memory_size());
}

#[test]
fn body_100_bytes() {
    let mut cache_entry = example_cache_entry();
    cache_entry.body = vec![b'a'; 100];
    assert_eq!(228, cache_entry.get_memory_size());
}

#[test]
fn one_header_size() {
    let mut cache_entry = example_cache_entry();
    cache_entry.headers.append(b"a".to_vec(), b"b".to_vec());
    assert_eq!(131, cache_entry.get_memory_size());
}

#[test]
fn materialize_then_rehydrate_preserves_everything() {
    let mut headers = Headers::new();
    headers.append(b"Via".to_vec(), b"1.1 test".to_vec());
    headers.append(b"via".to_vec(), b"1.1 other".to_vec());
    headers.append(b"Content-Type".to_vec(), b"text/plain".to_vec());
    let live = Response {
        status: 200,
        version: Version::Http11,
        headers,
        body: b"hello".to_vec(),
    };
    let stored = materialize(&live);
    let replayed = rehydrate(&stored);
    assert_eq!(live.status, replayed.status);
    assert_eq!(live.version, replayed.version);
    assert_eq!(live.body, replayed.body);
    assert_eq!(live.headers.len(), replayed.headers.len());
    for i in 0..live.headers.len() {
        assert_eq!(live.headers.name_at(i), replayed.headers.name_at(i));
        assert_eq!(live.headers.value_at(i), replayed.headers.value_at(i));
    }
}

#[test]
fn rehydrations_are_independent() {
    let live = Response {
        status: 200,
        version: Version::Http11,
        headers: Headers::new(),
        body: b"body".to_vec(),
    };
    let stored = materialize(&live);
    let mut first = rehydrate(&stored);
    first.body.push(b'!');
    let second = rehydrate(&stored);
    assert_eq!(b"body".to_vec(), second.body);
}
