//! The cache-around-upstream pipeline.
//!
//! A [`Cache`] wraps the LRU store with the proxy's policies: requests
//! are keyed by [`crate::policy::spec_cache_key`], responses are stored
//! when their `Cache-Control` headers allow it, and every hit is served
//! as an independent rehydrated response.  The surrounding I/O — the
//! listener, the upstream client, the locking — lives outside; these
//! functions take the current instant and the upstream outcome as plain
//! values and decide everything else.

use vstd::prelude::*;

verus! {

use crate::cache::{Entry, LruCache, has_live, key_index, spec_insert, swept, sum_sizes,
    unique_keys};
use crate::message::{CachedResponse, Request, Response, ResponseView, materialize, rehydrate,
    spec_footprint};
use crate::policy::{compute_cache_key, max_age_of_headers, spec_cache_key, spec_max_age};
use crate::transform::{bad_gateway_response, bad_gateway_view, decorate_response, spec_decorate};

/// The default memory budget of the response cache: 256 MiB.
pub const DEFAULT_MEMORY_SIZE: usize = 256 * 1024 * 1024;

/// The memory an entry holding `v` is charged for, saturating at the
/// largest machine size.
pub open spec fn footprint_charge(v: ResponseView) -> usize {
    if spec_footprint(v) <= usize::MAX as int {
        spec_footprint(v) as usize
    } else {
        usize::MAX
    }
}

/// The absolute instant at which a response stored at `now` with
/// `age` seconds to live expires, saturating at the largest instant.
pub open spec fn expiry_instant(now: u64, age: u64) -> u64 {
    if now + age * 1000 <= u64::MAX as int {
        (now + age * 1000) as u64
    } else {
        u64::MAX
    }
}

/// What storing `response` under `cache_key` at `now` does to the
/// entries `s` of a store with budget `limit`: nothing without a key or
/// without cachability; otherwise an insertion of an entry that carries
/// the response, its memory charge, and its absolute expiry.
pub open spec fn spec_store(
    s: Seq<Entry<CachedResponse>>,
    cache_key: Option<Seq<char>>,
    response: ResponseView,
    now: u64,
    limit: usize,
    t: Seq<Entry<CachedResponse>>,
) -> bool {
    match cache_key {
        None => t == s,
        Some(k) => match spec_max_age(response.headers) {
            None => t == s,
            Some(age) => exists|cv: CachedResponse, ks: String|
                cv@ == response && ks@ == k && t == #[trigger] spec_insert(
                    s,
                    (Entry {
                        key: ks,
                        value: cv,
                        size: footprint_charge(response),
                        expires: expiry_instant(now, age),
                    }),
                    now,
                    limit,
                ),
        },
    }
}

/// A lookup immediately following a store sees the stored response:
/// when a cachable response whose charge fits the budget is stored
/// under a key, that key is live at the same instant and the slot it
/// names carries exactly the stored response.
pub proof fn lemma_store_then_lookup(
    s: Seq<Entry<CachedResponse>>,
    k: Seq<char>,
    response: ResponseView,
    now: u64,
    limit: usize,
    t: Seq<Entry<CachedResponse>>,
)
    requires
        spec_store(s, Some(k), response, now, limit, t),
        spec_max_age(response.headers) is Some,
        footprint_charge(response) <= limit,
        now < u64::MAX,
        unique_keys(t),
    ensures
        swept(t, now) == t,
        has_live(swept(t, now), k, now),
        swept(t, now)[key_index(swept(t, now), k)].value@ == response,
{
    let age = spec_max_age(response.headers)->Some_0;
    let (cv, ks) = choose|cv: CachedResponse, ks: String|
        cv@ == response && ks@ == k && t == #[trigger] spec_insert(
            s,
            (Entry {
                key: ks,
                value: cv,
                size: footprint_charge(response),
                expires: expiry_instant(now, age),
            }),
            now,
            limit,
        );
    let e = Entry {
        key: ks,
        value: cv,
        size: footprint_charge(response),
        expires: expiry_instant(now, age),
    };
    assert(age >= 1);
    assert(e.expires > now) by {
        if now + age * 1000 <= u64::MAX as int {
            assert(expiry_instant(now, age) == now + age * 1000);
        }
    }
    crate::cache::lemma_insert_then_lookup(s, e, now, limit);
}

/// The response cache: the LRU store of materialised responses.
pub struct Cache {
    lru: LruCache<CachedResponse>,
}

impl Cache {
    /// The resident slots in recency order.
    pub closed spec fn entries(&self) -> Seq<Entry<CachedResponse>> {
        self.lru.entries()
    }

    /// The configured memory budget in bytes.
    pub closed spec fn max_memory(&self) -> usize {
        self.lru.max_memory()
    }

    /// The aggregate memory charge of the resident slots.
    pub closed spec fn used_memory(&self) -> usize {
        self.lru.used_memory()
    }

    /// The cache's invariant, inherited from the store.
    pub open spec fn wf(&self) -> bool {
        &&& unique_keys(self.entries())
        &&& self.used_memory() == sum_sizes(self.entries())
        &&& self.used_memory() <= self.max_memory()
    }

    /// Constructs an empty cache with the given memory budget.
    pub fn with_memory_size(memory_size: usize) -> (c: Cache)
        ensures
            c.wf(),
            c.entries() == Seq::<Entry<CachedResponse>>::empty(),
            c.max_memory() == memory_size,
            c.used_memory() == 0,
    {
        Cache { lru: LruCache::with_memory_size(memory_size) }
    }

    /// Derives the cache key of a request: `GET` only, bypassed when
    /// the first `Cookie` header carries a session marker; the key is
    /// the URI string with path and query and no fragment.
    pub fn cache_key(&self, request: &Request) -> (r: Option<String>)
        ensures
            r is Some <==> spec_cache_key(request) is Some,
            r is Some ==> r->Some_0@ == spec_cache_key(request)->Some_0,
    {
        compute_cache_key(request)
    }

    /// Reads the seconds a response may be cached for from its
    /// `Cache-Control` headers: present exactly when they carry
    /// `public` and a positive `max-age`.
    pub fn get_max_age(&self, response: &Response) -> (r: Option<u64>)
        ensures
            r == spec_max_age(response@.headers),
    {
        max_age_of_headers(&response.headers)
    }

    /// Serves a request from memory if a live entry is keyed by it.
    /// A hit sweeps, promotes the entry, and answers with a fresh
    /// rehydrated response; a miss (or a keyless request) answers
    /// nothing.
    pub fn lookup(&mut self, cache_key: &Option<String>, now: u64) -> (r: Option<Response>)
        requires
            old(self).wf(),
        ensures
            final(self).wf(),
            final(self).max_memory() == old(self).max_memory(),
            match cache_key {
                None => r is None && final(self).entries() == old(self).entries(),
                Some(k) => ({
                    let s = swept(old(self).entries(), now);
                    if has_live(s, k@, now) {
                        &&& r is Some
                        &&& r->Some_0@ == s[key_index(s, k@)].value@
                        &&& final(self).entries() == s.remove(key_index(s, k@)).push(
                            s[key_index(s, k@)],
                        )
                    } else {
                        &&& r is None
                        &&& final(self).entries() == s
                    }
                }),
            },
    {
        match cache_key {
            None => None,
            Some(k) => {
                let hit = self.lru.get(k.as_str(), now);
                match hit {
                    Some(entry) => Some(rehydrate(entry)),
                    None => None,
                }
            },
        }
    }

    /// Stores a response under its cache key when the response is
    /// cachable at all, charging it for its memory footprint and
    /// stamping its absolute expiry; the response itself is handed
    /// back unchanged for onward delivery.
    pub fn store(&mut self, cache_key: Option<String>, response: Response, now: u64) -> (r:
        Response)
        requires
            old(self).wf(),
        ensures
            final(self).wf(),
            final(self).max_memory() == old(self).max_memory(),
            r == response,
            spec_store(
                old(self).entries(),
                match cache_key {
                    Some(k) => Some(k@),
                    None => None,
                },
                response@,
                now,
                old(self).max_memory(),
                final(self).entries(),
            ),
    {
        match cache_key {
            None => response,
            Some(key) => {
                let age = max_age_of_headers(&response.headers);
                match age {
                    None => response,
                    Some(age_secs) => {
                        let entry = materialize(&response);
                        let memory_size = entry.get_memory_size();
                        let millis = match age_secs.checked_mul(1000) {
                            Some(x) => x,
                            None => u64::MAX,
                        };
                        let expires = now.saturating_add(millis);
                        proof {
                            assert(expires == expiry_instant(now, age_secs));
                            assert(memory_size == footprint_charge(response@));
                        }
                        let ghost cv = entry;
                        let _ = self.lru.insert(key, entry, memory_size, expires, now);
                        proof {
                            assert(cv@ == response@);
                        }
                        response
                    },
                }
            },
        }
    }

    /// Finishes the pipeline once the upstream outcome is known.  A
    /// real response is decorated, stored when permitted, and handed
    /// back; a transport failure is answered with the fixed 502 and
    /// never cached.
    pub fn handle_upstream_result(
        &mut self,
        cache_key: Option<String>,
        upstream: Option<Response>,
        now: u64,
    ) -> (r: Response)
        requires
            old(self).wf(),
        ensures
            final(self).wf(),
            final(self).max_memory() == old(self).max_memory(),
            match upstream {
                None => r@ == bad_gateway_view() && final(self).entries() == old(self).entries(),
                Some(resp) => ({
                    &&& r@ == spec_decorate(resp@)
                    &&& spec_store(
                        old(self).entries(),
                        match cache_key {
                            Some(k) => Some(k@),
                            None => None,
                        },
                        spec_decorate(resp@),
                        now,
                        old(self).max_memory(),
                        final(self).entries(),
                    )
                }),
            },
    {
        match upstream {
            Some(mut resp) => {
                decorate_response(&mut resp);
                self.store(cache_key, resp, now)
            },
            None => bad_gateway_response(),
        }
    }
}

} // verus!
