//! A byte-level model of the HTTP messages the proxy handles.
//!
//! A request carries a method, a target URI (path, optional query,
//! optional fragment), a protocol version, headers and a body; a
//! response carries a status, a version, headers and a body.  A cached
//! response owns the same four fields with the body fully materialised,
//! so replaying it is independent of any live upstream stream.

use vstd::prelude::*;

verus! {

use crate::headers::Headers;

/// An HTTP request method.
#[derive(Clone, Copy, PartialEq, Eq, Structural, Debug)]
pub enum Method {
    Get,
    Head,
    Post,
    Put,
    Delete,
    Options,
    Patch,
    Other,
}

/// An HTTP protocol version.
#[derive(Clone, Copy, PartialEq, Eq, Structural, Debug)]
pub enum Version {
    Http09,
    Http10,
    Http11,
    Http2,
}

/// A request target: a path, an optional query, and an optional
/// fragment.
pub struct Uri {
    pub path: String,
    pub query: Option<String>,
    pub fragment: Option<String>,
}

/// The query as a sequence of characters, if present.
pub open spec fn query_view(u: &Uri) -> Option<Seq<char>> {
    match u.query {
        Some(q) => Some(q@),
        None => None,
    }
}

/// The fragment as a sequence of characters, if present.
pub open spec fn fragment_view(u: &Uri) -> Option<Seq<char>> {
    match u.fragment {
        Some(f) => Some(f@),
        None => None,
    }
}

/// The URI rendered as the string the proxy keys its cache by: the
/// path, then `?` and the query when one is present.  The fragment is
/// never part of it.
pub open spec fn uri_string_view(u: &Uri) -> Seq<char> {
    match u.query {
        Some(q) => u.path@ + seq!['?'] + q@,
        None => u.path@,
    }
}

/// Renders the URI as its cache-key string: path and query, no
/// fragment.
pub fn uri_to_string(u: &Uri) -> (r: String)
    ensures
        r@ == uri_string_view(u),
{
    let mut s = clone_string(&u.path);
    match &u.query {
        Some(q) => {
            s.append("?");
            s.append(q.as_str());
            proof {
                reveal_strlit("?");
                assert("?"@ =~= seq!['?']);
                assert(s@ =~= uri_string_view(u));
            }
        },
        None => {},
    }
    s
}

fn clone_string(s: &String) -> (r: String)
    ensures
        r@ == s@,
{
    s.clone()
}

/// Two URIs that differ only in their fragment render to the same
/// cache-key string, and a present query is part of that string.
pub proof fn lemma_uri_string_ignores_fragment(a: &Uri, b: &Uri)
    requires
        a.path@ == b.path@,
        query_view(a) == query_view(b),
    ensures
        uri_string_view(a) == uri_string_view(b),
        a.query is Some ==> uri_string_view(a).len() > a.path@.len(),
{
}

/// A live HTTP request.
pub struct Request {
    pub method: Method,
    pub uri: Uri,
    pub version: Version,
    pub headers: Headers,
    pub body: Vec<u8>,
}

/// A live HTTP response.
pub struct Response {
    pub status: u16,
    pub version: Version,
    pub headers: Headers,
    pub body: Vec<u8>,
}

/// A fully materialised response held by the cache.
pub struct CachedResponse {
    pub status: u16,
    pub version: Version,
    pub headers: Headers,
    pub body: Vec<u8>,
}

/// What a response consists of, mathematically: the shared view of
/// [`Response`] and [`CachedResponse`].
pub struct ResponseView {
    pub status: u16,
    pub version: Version,
    pub headers: Seq<(Seq<u8>, Seq<u8>)>,
    pub body: Seq<u8>,
}

impl View for Response {
    type V = ResponseView;

    open spec fn view(&self) -> ResponseView {
        ResponseView {
            status: self.status,
            version: self.version,
            headers: self.headers@,
            body: self.body@,
        }
    }
}

impl View for CachedResponse {
    type V = ResponseView;

    open spec fn view(&self) -> ResponseView {
        ResponseView {
            status: self.status,
            version: self.version,
            headers: self.headers@,
            body: self.body@,
        }
    }
}

/// Captures a live response into a cache entry carrying exactly the
/// same status, version, header lines and body bytes.  The response
/// itself is left untouched, so the same bytes go onward to the client.
pub fn materialize(response: &Response) -> (entry: CachedResponse)
    ensures
        entry@ == response@,
{
    CachedResponse {
        status: response.status,
        version: response.version,
        headers: response.headers.duplicate(),
        body: crate::headers::copy_bytes(&response.body),
    }
}

/// Builds a fresh response from a cache entry.  Each rehydration is
/// independent: the entry is copied, never aliased.
pub fn rehydrate(entry: &CachedResponse) -> (response: Response)
    ensures
        response@ == entry@,
{
    Response {
        status: entry.status,
        version: entry.version,
        headers: entry.headers.duplicate(),
        body: crate::headers::copy_bytes(&entry.body),
    }
}

/// Materialise-then-rehydrate is the identity on responses: the replay
/// preserves the status, the version, the full header multimap with
/// duplicates and order, and the body bytes exactly.
pub proof fn lemma_materialize_rehydrate(live: ResponseView, stored: ResponseView, replayed: ResponseView)
    requires
        stored == live,
        replayed == stored,
    ensures
        replayed.status == live.status,
        replayed.version == live.version,
        replayed.headers == live.headers,
        replayed.body == live.body,
{
}

/// The fixed memory charge of a cached response before its headers and
/// body are counted.
pub const BASE_FOOTPRINT: usize = 128;

/// The bytes taken by the header lines: the sum of the name and value
/// lengths over every line.
pub open spec fn header_bytes(h: Seq<(Seq<u8>, Seq<u8>)>) -> int
    decreases h.len(),
{
    if h.len() == 0 {
        0
    } else {
        header_bytes(h.drop_last()) + h.last().0.len() + h.last().1.len()
    }
}

/// The memory a cached response is charged for: the fixed charge, the
/// header bytes, and the body length.
pub open spec fn spec_footprint(v: ResponseView) -> int {
    BASE_FOOTPRINT + header_bytes(v.headers) + v.body.len()
}

proof fn lemma_header_bytes_nonneg(h: Seq<(Seq<u8>, Seq<u8>)>)
    ensures
        header_bytes(h) >= 0,
    decreases h.len(),
{
    if h.len() > 0 {
        lemma_header_bytes_nonneg(h.drop_last());
    }
}

impl CachedResponse {
    /// The memory this entry is charged for, saturating at the largest
    /// machine size.
    pub fn get_memory_size(&self) -> (size: usize)
        ensures
            size == if spec_footprint(self@) <= usize::MAX as int {
                spec_footprint(self@)
            } else {
                usize::MAX as int
            },
    {
        let ghost h = self.headers@;
        let mut size: usize = BASE_FOOTPRINT;
        let n = self.headers.len();
        let mut i: usize = 0;
        proof {
            assert(h.subrange(0, 0) =~= Seq::<(Seq<u8>, Seq<u8>)>::empty());
        }
        while i < n
            invariant
                h == self.headers@,
                n == h.len(),
                0 <= i <= n,
                size == if BASE_FOOTPRINT + header_bytes(h.subrange(0, i as int)) <= usize::MAX
                    as int {
                    BASE_FOOTPRINT + header_bytes(h.subrange(0, i as int))
                } else {
                    usize::MAX as int
                },
            decreases n - i,
        {
            proof {
                assert(h.subrange(0, i + 1).drop_last() =~= h.subrange(0, i as int));
                assert(h.subrange(0, i + 1).last() == h[i as int]);
                lemma_header_bytes_nonneg(h.subrange(0, i as int));
            }
            let name_len = self.headers.name_at(i).len();
            let value_len = self.headers.value_at(i).len();
            size = size.saturating_add(name_len);
            size = size.saturating_add(value_len);
            i = i + 1;
        }
        proof {
            assert(h.subrange(0, n as int) =~= h);
            lemma_header_bytes_nonneg(h);
        }
        size.saturating_add(self.body.len())
    }
}

} // verus!
