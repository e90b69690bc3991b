//! The header transformations of the proxy path.
//!
//! On the way upstream a request's target is rewritten to the upstream
//! authority and `X-Forwarded-For` / `X-Forwarded-Port` lines are
//! appended (never replaced).  On the way back a `Via` line is appended
//! and a `Server` line is inserted only when none is present.  The
//! synthesized error responses the proxy may answer with on its own are
//! also built here.

use vstd::prelude::*;

verus! {

use vstd::string::StrSliceExecFns;
use vstd::string::StringExecFns;
use vstd::string::StringSliceAdditionalSpecFns;
use crate::headers::{Headers, count_name, has_name, name_matches, values_named};
use crate::headers::{lemma_count_name_push, lemma_has_name_count, lemma_values_named_push};
use crate::message::{Response, ResponseView, Uri, Version};

/// The header name `via`, as bytes.
pub open spec fn via_name() -> Seq<u8> {
    seq![118u8, 105u8, 97u8]
}

/// The header name `server`, as bytes.
pub open spec fn server_name() -> Seq<u8> {
    seq![115u8, 101u8, 114u8, 118u8, 101u8, 114u8]
}

/// The header name `x-forwarded-for`, as bytes.
pub open spec fn xff_name() -> Seq<u8> {
    seq![
        120u8, 45u8, 102u8, 111u8, 114u8, 119u8, 97u8, 114u8, 100u8, 101u8, 100u8, 45u8, 102u8,
        111u8, 114u8,
    ]
}

/// The header name `x-forwarded-port`, as bytes.
pub open spec fn xfp_name() -> Seq<u8> {
    seq![
        120u8, 45u8, 102u8, 111u8, 114u8, 119u8, 97u8, 114u8, 100u8, 101u8, 100u8, 45u8, 112u8,
        111u8, 114u8, 116u8,
    ]
}

/// The value `rustnish` inserted as the `Server` header.
pub open spec fn server_value() -> Seq<u8> {
    seq![114u8, 117u8, 115u8, 116u8, 110u8, 105u8, 115u8, 104u8]
}

/// The suffix ` rustnish-0.0.1` of every `Via` value.
pub open spec fn via_suffix() -> Seq<u8> {
    seq![
        32u8, 114u8, 117u8, 115u8, 116u8, 110u8, 105u8, 115u8, 104u8, 45u8, 48u8, 46u8, 48u8,
        46u8, 49u8,
    ]
}

/// The protocol label of a version: `0.9`, `1.0`, `1.1` or `2.0`.
pub open spec fn version_label(v: Version) -> Seq<u8> {
    match v {
        Version::Http09 => seq![48u8, 46u8, 57u8],
        Version::Http10 => seq![49u8, 46u8, 48u8],
        Version::Http11 => seq![49u8, 46u8, 49u8],
        Version::Http2 => seq![50u8, 46u8, 48u8],
    }
}

/// The `Via` value appended for a response of version `v`.
pub open spec fn via_value(v: Version) -> Seq<u8> {
    version_label(v) + via_suffix()
}

/// The decimal digits of `n`, most significant first, as bytes.
pub open spec fn dec_bytes(n: u64) -> Seq<u8>
    decreases n,
{
    if n < 10 {
        seq![(48 + n) as u8]
    } else {
        dec_bytes(n / 10).push((48 + n % 10) as u8)
    }
}

/// The decimal digit `d` as a character.
pub open spec fn dec_digit_char(d: u64) -> char {
    if d == 0 {
        '0'
    } else if d == 1 {
        '1'
    } else if d == 2 {
        '2'
    } else if d == 3 {
        '3'
    } else if d == 4 {
        '4'
    } else if d == 5 {
        '5'
    } else if d == 6 {
        '6'
    } else if d == 7 {
        '7'
    } else if d == 8 {
        '8'
    } else {
        '9'
    }
}

/// The decimal digits of `n`, most significant first, as characters.
pub open spec fn dec_chars(n: u64) -> Seq<char>
    decreases n,
{
    if n < 10 {
        seq![dec_digit_char(n)]
    } else {
        dec_chars(n / 10).push(dec_digit_char(n % 10))
    }
}

/// Appends the decimal digits of `n` to a byte string.
pub fn push_dec_bytes(v: &mut Vec<u8>, n: u64)
    ensures
        final(v)@ == old(v)@ + dec_bytes(n),
    decreases n,
{
    if n >= 10 {
        push_dec_bytes(v, n / 10);
    }
    let d: u8 = (n % 10) as u8 + 48;
    v.push(d);
    proof {
        if n < 10 {
            assert(v@ =~= old(v)@ + dec_bytes(n));
        } else {
            assert(v@ =~= old(v)@ + dec_bytes(n / 10).push((48 + n % 10) as u8));
        }
    }
}

fn digit_str(d: u64) -> (r: &'static str)
    requires
        d < 10,
    ensures
        r@ == seq![dec_digit_char(d)],
{
    proof {
        reveal_strlit("0");
        reveal_strlit("1");
        reveal_strlit("2");
        reveal_strlit("3");
        reveal_strlit("4");
        reveal_strlit("5");
        reveal_strlit("6");
        reveal_strlit("7");
        reveal_strlit("8");
        reveal_strlit("9");
    }
    if d == 0 {
        proof {
            assert("0"@ =~= seq![dec_digit_char(d)]);
        }
        "0"
    } else if d == 1 {
        proof {
            assert("1"@ =~= seq![dec_digit_char(d)]);
        }
        "1"
    } else if d == 2 {
        proof {
            assert("2"@ =~= seq![dec_digit_char(d)]);
        }
        "2"
    } else if d == 3 {
        proof {
            assert("3"@ =~= seq![dec_digit_char(d)]);
        }
        "3"
    } else if d == 4 {
        proof {
            assert("4"@ =~= seq![dec_digit_char(d)]);
        }
        "4"
    } else if d == 5 {
        proof {
            assert("5"@ =~= seq![dec_digit_char(d)]);
        }
        "5"
    } else if d == 6 {
        proof {
            assert("6"@ =~= seq![dec_digit_char(d)]);
        }
        "6"
    } else if d == 7 {
        proof {
            assert("7"@ =~= seq![dec_digit_char(d)]);
        }
        "7"
    } else if d == 8 {
        proof {
            assert("8"@ =~= seq![dec_digit_char(d)]);
        }
        "8"
    } else {
        proof {
            assert("9"@ =~= seq![dec_digit_char(d)]);
        }
        "9"
    }
}

/// Appends the decimal digits of `n` to a string.
pub fn push_dec_chars(s: &mut String, n: u64)
    ensures
        final(s)@ == old(s)@ + dec_chars(n),
    decreases n,
{
    if n >= 10 {
        push_dec_chars(s, n / 10);
    }
    s.append(digit_str(n % 10));
    proof {
        if n < 10 {
            assert(s@ =~= old(s)@ + dec_chars(n));
        } else {
            assert(s@ =~= old(s)@ + dec_chars(n / 10).push(dec_digit_char(n % 10)));
        }
    }
}

/// Builds the header name `via`.
pub fn make_via_name() -> (r: Vec<u8>)
    ensures
        r@ == via_name(),
{
    let mut r: Vec<u8> = Vec::new();
    r.push(118);
    r.push(105);
    r.push(97);
    proof {
        assert(r@ =~= via_name());
    }
    r
}

/// Builds the header name `server`.
pub fn make_server_name() -> (r: Vec<u8>)
    ensures
        r@ == server_name(),
{
    let mut r: Vec<u8> = Vec::new();
    r.push(115);
    r.push(101);
    r.push(114);
    r.push(118);
    r.push(101);
    r.push(114);
    proof {
        assert(r@ =~= server_name());
    }
    r
}

/// Builds the value `rustnish`.
pub fn make_server_value() -> (r: Vec<u8>)
    ensures
        r@ == server_value(),
{
    let mut r: Vec<u8> = Vec::new();
    r.push(114);
    r.push(117);
    r.push(115);
    r.push(116);
    r.push(110);
    r.push(105);
    r.push(115);
    r.push(104);
    proof {
        assert(r@ =~= server_value());
    }
    r
}

/// Builds the header name `x-forwarded-for`.
pub fn make_xff_name() -> (r: Vec<u8>)
    ensures
        r@ == xff_name(),
{
    let mut r: Vec<u8> = Vec::new();
    r.push(120);
    r.push(45);
    r.push(102);
    r.push(111);
    r.push(114);
    r.push(119);
    r.push(97);
    r.push(114);
    r.push(100);
    r.push(101);
    r.push(100);
    r.push(45);
    r.push(102);
    r.push(111);
    r.push(114);
    proof {
        assert(r@ =~= xff_name());
    }
    r
}

/// Builds the header name `x-forwarded-port`.
pub fn make_xfp_name() -> (r: Vec<u8>)
    ensures
        r@ == xfp_name(),
{
    let mut r: Vec<u8> = Vec::new();
    r.push(120);
    r.push(45);
    r.push(102);
    r.push(111);
    r.push(114);
    r.push(119);
    r.push(97);
    r.push(114);
    r.push(100);
    r.push(101);
    r.push(100);
    r.push(45);
    r.push(112);
    r.push(111);
    r.push(114);
    r.push(116);
    proof {
        assert(r@ =~= xfp_name());
    }
    r
}

/// Builds the `Via` value for a response of version `v`.
pub fn make_via_value(v: Version) -> (r: Vec<u8>)
    ensures
        r@ == via_value(v),
{
    let mut r: Vec<u8> = Vec::new();
    match v {
        Version::Http09 => {
            r.push(48);
            r.push(46);
            r.push(57);
        },
        Version::Http10 => {
            r.push(49);
            r.push(46);
            r.push(48);
        },
        Version::Http11 => {
            r.push(49);
            r.push(46);
            r.push(49);
        },
        Version::Http2 => {
            r.push(50);
            r.push(46);
            r.push(48);
        },
    }
    r.push(32);
    r.push(114);
    r.push(117);
    r.push(115);
    r.push(116);
    r.push(110);
    r.push(105);
    r.push(115);
    r.push(104);
    r.push(45);
    r.push(48);
    r.push(46);
    r.push(48);
    r.push(46);
    r.push(49);
    proof {
        assert(r@ =~= via_value(v));
    }
    r
}

/// The upstream target string: scheme and loopback authority with the
/// upstream port, then the request's path, then `?` and the query when
/// one is present.
pub open spec fn upstream_uri_view(upstream_port: u16, u: &Uri) -> Seq<char> {
    "http://127.0.0.1:"@ + dec_chars(upstream_port as u64) + u.path@ + (match u.query {
        Some(q) => seq!['?'] + q@,
        None => Seq::<char>::empty(),
    })
}

/// Renders the upstream target string for a request URI.
pub fn build_upstream_uri(upstream_port: u16, u: &Uri) -> (r: String)
    ensures
        r@ == upstream_uri_view(upstream_port, u),
{
    let mut s = String::from_str("http://127.0.0.1:");
    push_dec_chars(&mut s, upstream_port as u64);
    s.append(u.path.as_str());
    match &u.query {
        Some(q) => {
            s.append("?");
            s.append(q.as_str());
            proof {
                reveal_strlit("?");
                assert("?"@ =~= seq!['?']);
                assert(s@ =~= upstream_uri_view(upstream_port, u));
            }
        },
        None => {
            proof {
                assert(s@ =~= upstream_uri_view(upstream_port, u));
            }
        },
    }
    s
}

/// Rewrites a request for the upstream hop: returns the upstream target
/// string and appends `X-Forwarded-For` with the peer's address and
/// `X-Forwarded-Port` with the listen port.  Existing lines, including
/// earlier `X-Forwarded-For` lines, are kept: the new values are
/// additional lines, never a concatenation.
pub fn rewrite_request(
    req: &mut crate::message::Request,
    peer_ip: Vec<u8>,
    listen_port: u16,
    upstream_port: u16,
) -> (upstream_uri: String)
    ensures
        upstream_uri@ == upstream_uri_view(upstream_port, &old(req).uri),
        final(req).headers@ == old(req).headers@.push((xff_name(), peer_ip@)).push(
            (xfp_name(), dec_bytes(listen_port as u64)),
        ),
        final(req).method == old(req).method,
        final(req).uri == old(req).uri,
        final(req).version == old(req).version,
        final(req).body == old(req).body,
{
    let upstream_uri = build_upstream_uri(upstream_port, &req.uri);
    let xff = make_xff_name();
    req.headers.append(xff, peer_ip);
    let xfp = make_xfp_name();
    let mut port_value: Vec<u8> = Vec::new();
    push_dec_bytes(&mut port_value, listen_port as u64);
    req.headers.append(xfp, port_value);
    upstream_uri
}

/// What decoration does to a response: a `Via` line for its protocol
/// version is appended, and a `Server: rustnish` line is added only
/// when no `Server` line is present.
pub open spec fn spec_decorate(v: ResponseView) -> ResponseView {
    let h1 = v.headers.push((via_name(), via_value(v.version)));
    let h2 = if has_name(h1, server_name()) {
        h1
    } else {
        h1.push((server_name(), server_value()))
    };
    ResponseView { status: v.status, version: v.version, headers: h2, body: v.body }
}

/// Decorates a real upstream response before it goes back to the
/// client.
pub fn decorate_response(resp: &mut Response)
    ensures
        final(resp)@ == spec_decorate(old(resp)@),
{
    let via = make_via_name();
    let value = make_via_value(resp.version);
    resp.headers.append(via, value);
    let sname = make_server_name();
    if !resp.headers.contains_name(&sname) {
        let svalue = make_server_value();
        resp.headers.append(sname, svalue);
    }
}

/// Decorating twice appends two `Via` lines but still leaves exactly
/// one `Server` line on a response that arrived without one.
pub proof fn lemma_decorate_twice(v: ResponseView)
    requires
        !has_name(v.headers, server_name()),
    ensures
        count_name(spec_decorate(spec_decorate(v)).headers, via_name()) == count_name(
            v.headers,
            via_name(),
        ) + 2,
        count_name(spec_decorate(spec_decorate(v)).headers, server_name()) == 1,
{
    assert(name_matches(via_name(), via_name()));
    assert(name_matches(server_name(), server_name()));
    assert(!name_matches(via_name(), server_name())) by {
        assert(crate::headers::lower_all(via_name()).len() == 3);
        assert(crate::headers::lower_all(server_name()).len() == 6);
    }
    assert(!name_matches(server_name(), via_name())) by {
        assert(crate::headers::lower_all(via_name()).len() == 3);
        assert(crate::headers::lower_all(server_name()).len() == 6);
    }
    let h0 = v.headers;
    let h1 = h0.push((via_name(), via_value(v.version)));
    lemma_count_name_push(h0, (via_name(), via_value(v.version)), server_name());
    lemma_count_name_push(h0, (via_name(), via_value(v.version)), via_name());
    lemma_has_name_count(h0, server_name());
    lemma_has_name_count(h1, server_name());
    assert(!has_name(h1, server_name()));
    let h2 = h1.push((server_name(), server_value()));
    lemma_count_name_push(h1, (server_name(), server_value()), server_name());
    lemma_count_name_push(h1, (server_name(), server_value()), via_name());
    assert(spec_decorate(v).headers == h2);
    let w = spec_decorate(v);
    let h3 = h2.push((via_name(), via_value(w.version)));
    lemma_count_name_push(h2, (via_name(), via_value(w.version)), server_name());
    lemma_count_name_push(h2, (via_name(), via_value(w.version)), via_name());
    lemma_has_name_count(h3, server_name());
    assert(has_name(h3, server_name()));
    assert(spec_decorate(w).headers == h3);
}

/// Decoration never touches existing `Server` lines: a response that
/// arrived with one keeps exactly the values it had.
pub proof fn lemma_decorate_preserves_server(v: ResponseView)
    requires
        has_name(v.headers, server_name()),
    ensures
        values_named(spec_decorate(v).headers, server_name()) == values_named(
            v.headers,
            server_name(),
        ),
{
    assert(!name_matches(via_name(), server_name())) by {
        assert(crate::headers::lower_all(via_name()).len() == 3);
        assert(crate::headers::lower_all(server_name()).len() == 6);
    }
    let h0 = v.headers;
    let h1 = h0.push((via_name(), via_value(v.version)));
    lemma_values_named_push(h0, (via_name(), via_value(v.version)), server_name());
    lemma_count_name_push(h0, (via_name(), via_value(v.version)), server_name());
    lemma_has_name_count(h0, server_name());
    lemma_has_name_count(h1, server_name());
    assert(has_name(h1, server_name()));
}

/// The response the proxy answers with when the upstream exchange
/// fails: a bare 502 whose fixed body never exposes the underlying
/// error.
pub open spec fn bad_gateway_view() -> ResponseView {
    ResponseView {
        status: 502,
        version: Version::Http11,
        headers: Seq::<(Seq<u8>, Seq<u8>)>::empty(),
        body: "Something went wrong, please try again later.".spec_bytes(),
    }
}

/// The response the proxy answers with when the upstream target cannot
/// be constructed: a bare 400 with a fixed body.
pub open spec fn bad_request_view() -> ResponseView {
    ResponseView {
        status: 400,
        version: Version::Http11,
        headers: Seq::<(Seq<u8>, Seq<u8>)>::empty(),
        body: "Invalid upstream URI".spec_bytes(),
    }
}

/// Synthesizes the 502 answered on any transport failure.
pub fn bad_gateway_response() -> (r: Response)
    ensures
        r@ == bad_gateway_view(),
{
    let body = "Something went wrong, please try again later.".as_bytes_vec();
    Response { status: 502, version: Version::Http11, headers: Headers::new(), body }
}

/// Synthesizes the 400 answered when the upstream target cannot be
/// constructed.
pub fn bad_request_response() -> (r: Response)
    ensures
        r@ == bad_request_view(),
{
    let body = "Invalid upstream URI".as_bytes_vec();
    Response { status: 400, version: Version::Http11, headers: Headers::new(), body }
}

} // verus!
