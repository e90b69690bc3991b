//! The cache policies: which requests are cacheable at all, and which
//! responses may be stored and for how long.
//!
//! Everything here works on raw header bytes.  `Cache-Control` values
//! are split on commas, each token is trimmed, and the `public` flag
//! and the last `max-age=<seconds>` assignment decide cachability; a
//! `Cookie` value carrying a session marker (`SESS`, one or more word
//! characters, `=`) bypasses the cache.

use vstd::prelude::*;

verus! {

use crate::headers::{Headers, first_value, values_named};
use crate::message::{Method, Request, uri_string_view, uri_to_string};

/// ASCII space or horizontal tab: what trimming removes.
pub open spec fn is_ws(b: u8) -> bool {
    b == 32 || b == 9
}

/// An ASCII decimal digit.
pub open spec fn is_digit(b: u8) -> bool {
    48 <= b <= 57
}

/// A word character of the session marker: a letter, a digit, or an
/// underscore.
pub open spec fn is_word_byte(b: u8) -> bool {
    (65 <= b <= 90) || (97 <= b <= 122) || (48 <= b <= 57) || b == 95
}

/// The position of the first occurrence of `b`, or the length when `b`
/// does not occur.
pub open spec fn first_byte(s: Seq<u8>, b: u8) -> int
    decreases s.len(),
{
    if s.len() == 0 {
        0
    } else if s[0] == b {
        0
    } else {
        1 + first_byte(s.drop_first(), b)
    }
}

pub proof fn lemma_first_byte(s: Seq<u8>, b: u8)
    ensures
        0 <= first_byte(s, b) <= s.len(),
        forall|t: int| 0 <= t < first_byte(s, b) ==> s[t] != b,
        first_byte(s, b) < s.len() ==> s[first_byte(s, b)] == b,
    decreases s.len(),
{
    if s.len() > 0 && s[0] != b {
        lemma_first_byte(s.drop_first(), b);
        assert forall|t: int| 0 <= t < first_byte(s, b) implies s[t] != b by {
            if t > 0 {
                assert(s.drop_first()[t - 1] == s[t]);
            }
        }
        if first_byte(s, b) < s.len() {
            assert(s.drop_first()[first_byte(s, b) - 1] == s[first_byte(s, b)]);
        }
    }
}

/// An index before which `b` does not occur and at which `b` stands (or
/// the end) is the first occurrence.
proof fn lemma_first_byte_unique(s: Seq<u8>, b: u8, r: int)
    requires
        0 <= r <= s.len(),
        forall|t: int| 0 <= t < r ==> s[t] != b,
        r < s.len() ==> s[r] == b,
    ensures
        first_byte(s, b) == r,
{
    lemma_first_byte(s, b);
    let f = first_byte(s, b);
    if f < r {
        assert(s[f] != b);
    }
    if r < f {
        assert(s[r] != b);
    }
}

/// Finds the first occurrence of `b` in `v` between `from` and `to`.
fn find_byte(v: &Vec<u8>, from: usize, to: usize, b: u8) -> (r: usize)
    requires
        from <= to <= v@.len(),
    ensures
        from <= r <= to,
        r - from == first_byte(v@.subrange(from as int, to as int), b),
        forall|t: int| from <= t < r ==> v@[t] != b,
        r < to ==> v@[r as int] == b,
{
    let mut r = from;
    while r < to && v[r] != b
        invariant
            from <= r <= to,
            to <= v@.len(),
            forall|t: int| from <= t < r ==> v@[t] != b,
        decreases to - r,
    {
        r = r + 1;
    }
    proof {
        let s = v@.subrange(from as int, to as int);
        assert forall|t: int| 0 <= t < r - from implies s[t] != b by {
            assert(s[t] == v@[from + t]);
        }
        if r < to {
            assert(s[r - from] == v@[r as int]);
        }
        lemma_first_byte_unique(s, b, r - from);
    }
    r
}

/// The sequence with leading whitespace removed.
pub open spec fn trim_start(s: Seq<u8>) -> Seq<u8>
    decreases s.len(),
{
    if s.len() > 0 && is_ws(s[0]) {
        trim_start(s.drop_first())
    } else {
        s
    }
}

/// The sequence with trailing whitespace removed.
pub open spec fn trim_end(s: Seq<u8>) -> Seq<u8>
    decreases s.len(),
{
    if s.len() > 0 && is_ws(s.last()) {
        trim_end(s.drop_last())
    } else {
        s
    }
}

/// The sequence with whitespace removed at both ends.
pub open spec fn trimmed(s: Seq<u8>) -> Seq<u8> {
    trim_end(trim_start(s))
}

fn is_ws_byte(b: u8) -> (r: bool)
    ensures
        r == is_ws(b),
{
    b == 32 || b == 9
}

/// Trims the range `[from, to)` of `v` and returns the trimmed range.
fn trim_range(v: &Vec<u8>, from: usize, to: usize) -> (r: (usize, usize))
    requires
        from <= to <= v@.len(),
    ensures
        from <= r.0 <= r.1 <= to,
        v@.subrange(r.0 as int, r.1 as int) == trimmed(v@.subrange(from as int, to as int)),
{
    let mut a = from;
    while a < to && is_ws_byte(v[a])
        invariant
            from <= a <= to,
            to <= v@.len(),
            trim_start(v@.subrange(from as int, to as int)) == trim_start(
                v@.subrange(a as int, to as int),
            ),
        decreases to - a,
    {
        proof {
            let s = v@.subrange(a as int, to as int);
            assert(s[0] == v@[a as int]);
            assert(s.drop_first() =~= v@.subrange(a + 1, to as int));
        }
        a = a + 1;
    }
    proof {
        let s = v@.subrange(a as int, to as int);
        if s.len() > 0 {
            assert(s[0] == v@[a as int]);
        }
        assert(trim_start(s) == s);
    }
    let mut b = to;
    while b > a && is_ws_byte(v[b - 1])
        invariant
            from <= a <= b <= to,
            to <= v@.len(),
            trim_start(v@.subrange(from as int, to as int)) == v@.subrange(a as int, to as int),
            trim_end(v@.subrange(a as int, to as int)) == trim_end(v@.subrange(a as int, b as int)),
        decreases b - a,
    {
        proof {
            let s = v@.subrange(a as int, b as int);
            assert(s.last() == v@[b - 1]);
            assert(s.drop_last() =~= v@.subrange(a as int, b - 1));
        }
        b = b - 1;
    }
    proof {
        let s = v@.subrange(a as int, b as int);
        if s.len() > 0 {
            assert(s.last() == v@[b - 1]);
        }
        assert(trim_end(s) == s);
    }
    (a, b)
}

/// The numeric value of a sequence of digit bytes, most significant
/// first.
pub open spec fn dec_value(s: Seq<u8>) -> int
    decreases s.len(),
{
    if s.len() == 0 {
        0
    } else {
        dec_value(s.drop_last()) * 10 + (s.last() - 48)
    }
}

/// Every byte is a decimal digit.
pub open spec fn all_digits(s: Seq<u8>) -> bool {
    forall|i: int| 0 <= i < s.len() ==> is_digit(s[i])
}

/// What parsing an unsigned decimal yields: the value, unless the text
/// is empty, holds a non-digit, or overflows the 64-bit range.
pub open spec fn spec_parse_u64(s: Seq<u8>) -> Option<u64> {
    if s.len() > 0 && all_digits(s) && dec_value(s) <= u64::MAX as int {
        Some(dec_value(s) as u64)
    } else {
        None
    }
}

proof fn lemma_dec_value_nonneg(s: Seq<u8>)
    requires
        all_digits(s),
    ensures
        dec_value(s) >= 0,
    decreases s.len(),
{
    if s.len() > 0 {
        let rest = s.drop_last();
        assert(forall|i: int| 0 <= i < rest.len() ==> #[trigger] rest[i] == s[i]);
        lemma_dec_value_nonneg(rest);
        assert(is_digit(s[s.len() - 1]));
    }
}

/// Parses the range `[from, to)` of `v` as an unsigned decimal.
fn parse_u64_range(v: &Vec<u8>, from: usize, to: usize) -> (r: Option<u64>)
    requires
        from <= to <= v@.len(),
    ensures
        r == spec_parse_u64(v@.subrange(from as int, to as int)),
{
    let ghost s = v@.subrange(from as int, to as int);
    if from == to {
        return None;
    }
    let mut acc: u64 = 0;
    let mut over: bool = false;
    let mut i = from;
    while i < to
        invariant
            from <= i <= to,
            to <= v@.len(),
            s == v@.subrange(from as int, to as int),
            all_digits(s.subrange(0, i - from)),
            !over ==> acc as int == dec_value(s.subrange(0, i - from)),
            over ==> dec_value(s.subrange(0, i - from)) > u64::MAX as int,
        decreases to - i,
    {
        let b = v[i];
        proof {
            assert(s[i - from] == v@[i as int]);
        }
        if b < 48 || b > 57 {
            proof {
                assert(!is_digit(s[i - from]));
            }
            return None;
        }
        let d = b - 48;
        proof {
            let pre = s.subrange(0, i - from);
            let cur = s.subrange(0, i - from + 1);
            assert(cur.drop_last() =~= pre);
            assert(cur.last() == s[i - from]);
            assert(dec_value(cur) == dec_value(pre) * 10 + d);
            assert(all_digits(cur)) by {
                assert forall|t: int| 0 <= t < cur.len() implies is_digit(cur[t]) by {
                    if t < cur.len() - 1 {
                        assert(cur[t] == pre[t]);
                    }
                }
            }
            if over {
                lemma_dec_value_nonneg(pre);
            }
        }
        if !over {
            match acc.checked_mul(10) {
                Some(x) => {
                    match x.checked_add(d as u64) {
                        Some(y) => {
                            acc = y;
                        },
                        None => {
                            over = true;
                        },
                    }
                },
                None => {
                    over = true;
                },
            }
        }
        i = i + 1;
    }
    proof {
        assert(s.subrange(0, to - from) =~= s);
    }
    if over {
        None
    } else {
        Some(acc)
    }
}

/// The comma-separated tokens of a value.  An empty value has one empty
/// token, and a trailing comma yields a trailing empty token.
pub open spec fn split_commas(s: Seq<u8>) -> Seq<Seq<u8>>
    decreases s.len(),
{
    if s.len() == 0 {
        seq![Seq::<u8>::empty()]
    } else if s[0] == 44 {
        seq![Seq::<u8>::empty()] + split_commas(s.drop_first())
    } else {
        let rest = split_commas(s.drop_first());
        seq![seq![s[0]] + rest[0]] + rest.drop_first()
    }
}

/// The head token runs to the first comma; the remaining tokens are
/// those of the text after it.
pub proof fn lemma_split_commas_head(s: Seq<u8>)
    ensures
        split_commas(s).len() >= 1,
        split_commas(s)[0] == s.subrange(0, first_byte(s, 44)),
        first_byte(s, 44) < s.len() ==> split_commas(s).drop_first() == split_commas(
            s.subrange(first_byte(s, 44) + 1, s.len() as int),
        ),
        first_byte(s, 44) == s.len() ==> split_commas(s) == seq![s],
    decreases s.len(),
{
    lemma_first_byte(s, 44);
    if s.len() == 0 {
        assert(s.subrange(0, 0) =~= s);
        assert(split_commas(s) =~~= seq![s]);
    } else if s[0] == 44 {
        assert(first_byte(s, 44) == 0);
        assert(s.subrange(0, 0) =~= Seq::<u8>::empty());
        assert(split_commas(s).drop_first() =~= split_commas(s.drop_first()));
        assert(s.drop_first() =~= s.subrange(1, s.len() as int));
    } else {
        let d = s.drop_first();
        lemma_split_commas_head(d);
        let fd = first_byte(d, 44);
        assert(first_byte(s, 44) == 1 + fd);
        let rest = split_commas(d);
        assert(split_commas(s)[0] == seq![s[0]] + rest[0]);
        assert(seq![s[0]] + d.subrange(0, fd) =~= s.subrange(0, 1 + fd));
        if fd < d.len() {
            assert(split_commas(s).drop_first() =~= rest.drop_first());
            assert(d.subrange(fd + 1, d.len() as int) =~= s.subrange(1 + fd + 1, s.len() as int));
        } else {
            assert(rest == seq![d]);
            assert(rest.drop_first() =~= Seq::<Seq<u8>>::empty());
            assert(seq![s[0]] + d =~= s);
            assert(split_commas(s) =~~= seq![s]);
        }
    }
}

/// The token `public`, as bytes.
pub open spec fn public_bytes() -> Seq<u8> {
    seq![112u8, 117u8, 98u8, 108u8, 105u8, 99u8]
}

/// The directive name `max-age`, as bytes.
pub open spec fn max_age_bytes() -> Seq<u8> {
    seq![109u8, 97u8, 120u8, 45u8, 97u8, 103u8, 101u8]
}

/// The header name `cache-control`, as bytes.
pub open spec fn cache_control_name() -> Seq<u8> {
    seq![99u8, 97u8, 99u8, 104u8, 101u8, 45u8, 99u8, 111u8, 110u8, 116u8, 114u8, 111u8, 108u8]
}

/// The header name `cookie`, as bytes.
pub open spec fn cookie_name() -> Seq<u8> {
    seq![99u8, 111u8, 111u8, 107u8, 105u8, 101u8]
}

/// A trimmed token of the shape `max-age=<text>`: one `=`, with
/// `max-age` on its left.
pub open spec fn is_max_age_token(w: Seq<u8>) -> bool {
    let e = first_byte(w, 61);
    &&& e < w.len()
    &&& w.subrange(0, e) == max_age_bytes()
    &&& first_byte(w.subrange(e + 1, w.len() as int), 61) == w.len() - e - 1
}

/// The seconds a `max-age` token assigns: its right-hand side read as
/// an unsigned decimal, or zero when that fails.
pub open spec fn max_age_of_token(w: Seq<u8>) -> u64 {
    let e = first_byte(w, 61);
    match spec_parse_u64(w.subrange(e + 1, w.len() as int)) {
        Some(x) => x,
        None => 0u64,
    }
}

/// One token applied to the running state (public flag, max-age): the
/// trimmed token `public` raises the flag, a `max-age=` token replaces
/// the seconds, anything else is ignored.
pub open spec fn apply_token(st: (bool, u64), t: Seq<u8>) -> (bool, u64) {
    let w = trimmed(t);
    if w == public_bytes() {
        (true, st.1)
    } else if is_max_age_token(w) {
        (st.0, max_age_of_token(w))
    } else {
        st
    }
}

/// A token list applied left to right.
pub open spec fn apply_tokens(st: (bool, u64), ts: Seq<Seq<u8>>) -> (bool, u64)
    decreases ts.len(),
{
    if ts.len() == 0 {
        st
    } else {
        apply_tokens(apply_token(st, ts[0]), ts.drop_first())
    }
}

/// A list of header values applied left to right, each split on commas.
pub open spec fn apply_values(st: (bool, u64), vs: Seq<Seq<u8>>) -> (bool, u64)
    decreases vs.len(),
{
    if vs.len() == 0 {
        st
    } else {
        apply_values(apply_tokens(st, split_commas(vs[0])), vs.drop_first())
    }
}

/// The state after every `Cache-Control` value of `h` is processed.
pub open spec fn cache_control_state(h: Seq<(Seq<u8>, Seq<u8>)>) -> (bool, u64) {
    apply_values((false, 0u64), values_named(h, cache_control_name()))
}

/// The seconds a response may be cached for: present exactly when its
/// `Cache-Control` headers carry `public` and a positive `max-age`.
pub open spec fn spec_max_age(h: Seq<(Seq<u8>, Seq<u8>)>) -> Option<u64> {
    let st = cache_control_state(h);
    if st.0 && st.1 > 0 {
        Some(st.1)
    } else {
        None
    }
}

fn token_is_public(v: &Vec<u8>, a: usize, b: usize) -> (r: bool)
    requires
        a <= b <= v@.len(),
    ensures
        r == (v@.subrange(a as int, b as int) == public_bytes()),
{
    let ghost w = v@.subrange(a as int, b as int);
    proof {
        assert(public_bytes().len() == 6);
    }
    if b - a != 6 {
        return false;
    }
    let r = v[a] == 112 && v[a + 1] == 117 && v[a + 2] == 98 && v[a + 3] == 108 && v[a + 4] == 105
        && v[a + 5] == 99;
    proof {
        assert(w.len() == 6);
        assert forall|t: int| 0 <= t < 6 implies w[t] == v@[a + t] by {}
        if r {
            assert(w =~= public_bytes());
        } else {
            assert(w != public_bytes());
        }
    }
    r
}

fn range_is_max_age(v: &Vec<u8>, a: usize, b: usize) -> (r: bool)
    requires
        a <= b <= v@.len(),
    ensures
        r == (v@.subrange(a as int, b as int) == max_age_bytes()),
{
    let ghost w = v@.subrange(a as int, b as int);
    proof {
        assert(max_age_bytes().len() == 7);
    }
    if b - a != 7 {
        return false;
    }
    let r = v[a] == 109 && v[a + 1] == 97 && v[a + 2] == 120 && v[a + 3] == 45 && v[a + 4] == 97
        && v[a + 5] == 103 && v[a + 6] == 101;
    proof {
        assert(w.len() == 7);
        assert forall|t: int| 0 <= t < 7 implies w[t] == v@[a + t] by {}
        if r {
            assert(w =~= max_age_bytes());
        } else {
            assert(w != max_age_bytes());
        }
    }
    r
}

/// Applies one comma-token of `v` (the range `[from, to)`) to the
/// state.
fn apply_token_range(public_flag: bool, max_age: u64, v: &Vec<u8>, from: usize, to: usize) -> (r:
    (bool, u64))
    requires
        from <= to <= v@.len(),
    ensures
        r == apply_token((public_flag, max_age), v@.subrange(from as int, to as int)),
{
    let ghost t = v@.subrange(from as int, to as int);
    let (a, b) = trim_range(v, from, to);
    let ghost w = trimmed(t);
    proof {
        assert(v@.subrange(a as int, b as int) == w);
    }
    if token_is_public(v, a, b) {
        return (true, max_age);
    }
    let e = find_byte(v, a, b, 61);
    if e == b {
        proof {
            let s = v@.subrange(a as int, b as int);
            assert(first_byte(s, 61) == s.len());
            assert(!is_max_age_token(w));
        }
        return (public_flag, max_age);
    }
    let e2 = find_byte(v, e + 1, b, 61);
    proof {
        let s = v@.subrange(a as int, b as int);
        assert(w.subrange(e + 1 - a, w.len() as int) =~= v@.subrange(e + 1, b as int));
        assert(first_byte(w, 61) == e - a);
        assert(first_byte(w.subrange(e + 1 - a, w.len() as int), 61) == e2 - (e + 1));
    }
    if e2 < b {
        proof {
            assert(!is_max_age_token(w));
        }
        return (public_flag, max_age);
    }
    if !range_is_max_age(v, a, e) {
        proof {
            assert(w.subrange(0, e - a) =~= v@.subrange(a as int, e as int));
            assert(!is_max_age_token(w));
        }
        return (public_flag, max_age);
    }
    proof {
        assert(w.subrange(0, e - a) =~= v@.subrange(a as int, e as int));
        assert(is_max_age_token(w));
    }
    let parsed = parse_u64_range(v, e + 1, b);
    match parsed {
        Some(x) => (public_flag, x),
        None => (public_flag, 0),
    }
}

/// Applies every comma-token of one header value to the state.
fn apply_value_bytes(public_flag: bool, max_age: u64, v: &Vec<u8>) -> (r: (bool, u64))
    ensures
        r == apply_tokens((public_flag, max_age), split_commas(v@)),
{
    let n = v.len();
    let mut p = public_flag;
    let mut m = max_age;
    let mut pos: usize = 0;
    let mut fc = find_byte(v, 0, n, 44);
    proof {
        assert(v@.subrange(0, n as int) =~= v@);
    }
    while fc < n
        invariant
            0 <= pos <= fc <= n,
            n == v@.len(),
            fc - pos == first_byte(v@.subrange(pos as int, n as int), 44),
            apply_tokens((public_flag, max_age), split_commas(v@)) == apply_tokens(
                (p, m),
                split_commas(v@.subrange(pos as int, n as int)),
            ),
        decreases n - fc,
    {
        let ghost rem = v@.subrange(pos as int, n as int);
        proof {
            lemma_split_commas_head(rem);
            assert(rem.subrange(0, fc - pos) =~= v@.subrange(pos as int, fc as int));
            assert(rem.subrange(fc - pos + 1, rem.len() as int) =~= v@.subrange(
                fc + 1,
                n as int,
            ));
            let ts = split_commas(rem);
            assert(apply_tokens((p, m), ts) == apply_tokens(
                apply_token((p, m), ts[0]),
                ts.drop_first(),
            ));
        }
        let st = apply_token_range(p, m, v, pos, fc);
        p = st.0;
        m = st.1;
        pos = fc + 1;
        fc = find_byte(v, pos, n, 44);
    }
    let ghost rem = v@.subrange(pos as int, n as int);
    proof {
        lemma_split_commas_head(rem);
        assert(split_commas(rem) == seq![rem]);
        assert(rem =~= v@.subrange(pos as int, n as int));
        let ts = split_commas(rem);
        assert(ts[0] == rem);
        assert(ts.drop_first() =~= Seq::<Seq<u8>>::empty());
        let st1 = apply_token((p, m), rem);
        assert(apply_tokens(st1, ts.drop_first()) == st1);
        assert(apply_tokens((p, m), ts) == apply_tokens(st1, ts.drop_first()));
    }
    let st = apply_token_range(p, m, v, pos, n);
    proof {
        assert(v@.subrange(pos as int, n as int) == rem);
    }
    st
}

/// Builds the header name `cache-control`.
pub fn make_cache_control_name() -> (r: Vec<u8>)
    ensures
        r@ == cache_control_name(),
{
    let mut r: Vec<u8> = Vec::new();
    r.push(99);
    r.push(97);
    r.push(99);
    r.push(104);
    r.push(101);
    r.push(45);
    r.push(99);
    r.push(111);
    r.push(110);
    r.push(116);
    r.push(114);
    r.push(111);
    r.push(108);
    proof {
        assert(r@ =~= cache_control_name());
    }
    r
}

/// Builds the header name `cookie`.
pub fn make_cookie_name() -> (r: Vec<u8>)
    ensures
        r@ == cookie_name(),
{
    let mut r: Vec<u8> = Vec::new();
    r.push(99);
    r.push(111);
    r.push(111);
    r.push(107);
    r.push(105);
    r.push(101);
    proof {
        assert(r@ =~= cookie_name());
    }
    r
}

/// Reads every `Cache-Control` header of a response and returns the
/// seconds it may be cached for: present exactly when the headers carry
/// `public` and a positive `max-age`.
pub fn max_age_of_headers(headers: &Headers) -> (r: Option<u64>)
    ensures
        r == spec_max_age(headers@),
{
    let name = make_cache_control_name();
    let vs = headers.values_of(&name);
    let ghost vals = values_named(headers@, cache_control_name());
    let mut p: bool = false;
    let mut m: u64 = 0;
    let mut i: usize = 0;
    proof {
        assert(vals.subrange(0, vals.len() as int) =~= vals);
    }
    while i < vs.len()
        invariant
            vs@.len() == vals.len(),
            forall|t: int| 0 <= t < vs@.len() ==> vs@[t]@ == vals[t],
            0 <= i <= vals.len(),
            apply_values((false, 0u64), vals) == apply_values(
                (p, m),
                vals.subrange(i as int, vals.len() as int),
            ),
        decreases vs@.len() - i,
    {
        let ghost rem = vals.subrange(i as int, vals.len() as int);
        proof {
            assert(rem[0] == vals[i as int]);
            assert(rem.drop_first() =~= vals.subrange(i + 1, vals.len() as int));
            assert(vs@[i as int]@ == rem[0]);
        }
        let st = apply_value_bytes(p, m, &vs[i]);
        p = st.0;
        m = st.1;
        i = i + 1;
    }
    proof {
        assert(vals.subrange(vals.len() as int, vals.len() as int).len() == 0);
    }
    if p && m > 0 {
        Some(m)
    } else {
        None
    }
}

/// A session marker starts at `i`: the bytes `SESS`, then at least one
/// word character, then `=`.
pub open spec fn sess_at(s: Seq<u8>, i: int) -> bool {
    &&& 0 <= i
    &&& i + 4 <= s.len()
    &&& s[i] == 83
    &&& s[i + 1] == 69
    &&& s[i + 2] == 83
    &&& s[i + 3] == 83
    &&& exists|j: int|
        i + 4 < j < s.len() && s[j] == 61 && (forall|t: int| i + 4 <= t < j ==> is_word_byte(s[t]))
}

/// The value carries a session marker somewhere.
pub open spec fn has_session_marker(s: Seq<u8>) -> bool {
    exists|i: int| sess_at(s, i)
}

/// Scans a cookie value for a session marker.
pub fn contains_session_marker(v: &Vec<u8>) -> (r: bool)
    ensures
        r == has_session_marker(v@),
{
    let n = v.len();
    if n < 4 {
        proof {
            if has_session_marker(v@) {
                let w = choose|w: int| sess_at(v@, w);
                assert(w + 4 <= v@.len());
            }
        }
        return false;
    }
    let mut i: usize = 0;
    while i <= n - 4
        invariant
            n == v@.len(),
            4 <= n,
            0 <= i,
            i <= n,
            forall|t: int| 0 <= t < i ==> !sess_at(v@, t),
        decreases n - i,
    {
        if v[i] == 83 && v[i + 1] == 69 && v[i + 2] == 83 && v[i + 3] == 83 {
            let mut p = i + 4;
            while p < n && (v[p] == 95 || (v[p] >= 65 && v[p] <= 90) || (v[p] >= 97 && v[p]
                <= 122) || (v[p] >= 48 && v[p] <= 57))
                invariant
                    n == v@.len(),
                    i + 4 <= p <= n,
                    forall|t: int| i + 4 <= t < p ==> is_word_byte(v@[t]),
                decreases n - p,
            {
                p = p + 1;
            }
            proof {
                assert(p == n || !is_word_byte(v@[p as int]));
            }
            if p > i + 4 && p < n && v[p] == 61 {
                proof {
                    assert(sess_at(v@, i as int)) by {
                        assert(i + 4 < p < v@.len() && v@[p as int] == 61 && (forall|t: int|
                            i + 4 <= t < p ==> is_word_byte(v@[t])));
                    }
                }
                return true;
            }
            proof {
                assert(!sess_at(v@, i as int)) by {
                    if sess_at(v@, i as int) {
                        let j = choose|j: int|
                            i + 4 < j < v@.len() && v@[j] == 61 && (forall|t: int|
                                i + 4 <= t < j ==> is_word_byte(v@[t]));
                        if p < j {
                            assert(is_word_byte(v@[p as int]));
                        }
                        if j < p {
                            assert(is_word_byte(v@[j]));
                        }
                        assert(p == j);
                    }
                }
            }
        } else {
            proof {
                assert(!sess_at(v@, i as int));
            }
        }
        i = i + 1;
    }
    proof {
        if has_session_marker(v@) {
            let w = choose|w: int| sess_at(v@, w);
            assert(w + 4 <= v@.len());
            assert(w < i);
            assert(!sess_at(v@, w));
        }
    }
    false
}

/// What the cache is keyed by for a request, if the request is
/// cacheable at all: only bypass-free GET requests are, and the key is
/// the URI rendered as path and query.
pub open spec fn spec_cache_key(req: &Request) -> Option<Seq<char>> {
    if req.method != Method::Get {
        None
    } else if match first_value(req.headers@, cookie_name()) {
        Some(c) => has_session_marker(c),
        None => false,
    } {
        None
    } else {
        Some(uri_string_view(&req.uri))
    }
}

/// Derives the cache key of a request: `GET` only, bypassed when the
/// first `Cookie` header carries a session marker; the key is the URI
/// string with path and query and no fragment.
pub fn compute_cache_key(req: &Request) -> (r: Option<String>)
    ensures
        r is Some <==> spec_cache_key(req) is Some,
        r is Some ==> r->Some_0@ == spec_cache_key(req)->Some_0,
{
    if !matches!(req.method, Method::Get) {
        return None;
    }
    let name = make_cookie_name();
    let cookie = req.headers.first_value_of(&name);
    match cookie {
        Some(c) => {
            if contains_session_marker(c) {
                return None;
            }
        },
        None => {},
    }
    Some(uri_to_string(&req.uri))
}

} // verus!

