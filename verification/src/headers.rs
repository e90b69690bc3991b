//! An ordered multimap of HTTP header lines.
//!
//! Names and values are raw bytes.  Names compare case-insensitively
//! over ASCII letters; the spelling of every line is preserved exactly
//! as received, and repeated names keep their order.

use vstd::prelude::*;

verus! {

/// One header line: a name and a value.
pub struct HeaderField {
    pub name: Vec<u8>,
    pub value: Vec<u8>,
}

/// ASCII lower-casing of one byte.
pub open spec fn lower(b: u8) -> u8 {
    if 65 <= b <= 90 {
        (b + 32) as u8
    } else {
        b
    }
}

/// ASCII lower-casing of a byte sequence.
pub open spec fn lower_all(s: Seq<u8>) -> Seq<u8> {
    s.map_values(|b: u8| lower(b))
}

/// Header names are equal up to ASCII case.
pub open spec fn name_matches(a: Seq<u8>, b: Seq<u8>) -> bool {
    lower_all(a) == lower_all(b)
}

/// Whether some line of `h` carries the name `n`.
pub open spec fn has_name(h: Seq<(Seq<u8>, Seq<u8>)>, n: Seq<u8>) -> bool {
    exists|i: int| 0 <= i < h.len() && name_matches(h[i].0, n)
}

/// How many lines of `h` carry the name `n`.
pub open spec fn count_name(h: Seq<(Seq<u8>, Seq<u8>)>, n: Seq<u8>) -> int {
    h.filter(|p: (Seq<u8>, Seq<u8>)| name_matches(p.0, n)).len() as int
}

/// The values of the lines carrying the name `n`, in order.
pub open spec fn values_named(h: Seq<(Seq<u8>, Seq<u8>)>, n: Seq<u8>) -> Seq<Seq<u8>> {
    h.filter(|p: (Seq<u8>, Seq<u8>)| name_matches(p.0, n)).map_values(
        |p: (Seq<u8>, Seq<u8>)| p.1,
    )
}

/// The value of the first line carrying the name `n`.
pub open spec fn first_value(h: Seq<(Seq<u8>, Seq<u8>)>, n: Seq<u8>) -> Option<Seq<u8>>
    decreases h.len(),
{
    if h.len() == 0 {
        None
    } else if name_matches(h[0].0, n) {
        Some(h[0].1)
    } else {
        first_value(h.drop_first(), n)
    }
}

/// Appending a line adds one to the count of its name and leaves every
/// other name's count alone.
pub proof fn lemma_count_name_push(h: Seq<(Seq<u8>, Seq<u8>)>, p: (Seq<u8>, Seq<u8>), n: Seq<u8>)
    ensures
        count_name(h.push(p), n) == count_name(h, n) + if name_matches(p.0, n) {
            1int
        } else {
            0int
        },
{
    reveal(Seq::filter);
    assert(h.push(p).drop_last() =~= h);
}

/// Appending a line extends the values recorded under its name by its
/// value and leaves every other name's values alone.
pub proof fn lemma_values_named_push(h: Seq<(Seq<u8>, Seq<u8>)>, p: (Seq<u8>, Seq<u8>), n: Seq<u8>)
    ensures
        values_named(h.push(p), n) == if name_matches(p.0, n) {
            values_named(h, n).push(p.1)
        } else {
            values_named(h, n)
        },
{
    reveal(Seq::filter);
    assert(h.push(p).drop_last() =~= h);
    let pred = |q: (Seq<u8>, Seq<u8>)| name_matches(q.0, n);
    if name_matches(p.0, n) {
        assert(h.push(p).filter(pred) == h.filter(pred).push(p)) by {
            assert(h.push(p).drop_last() =~= h);
        }
        assert(h.filter(pred).push(p).map_values(|q: (Seq<u8>, Seq<u8>)| q.1) =~= h.filter(
            pred,
        ).map_values(|q: (Seq<u8>, Seq<u8>)| q.1).push(p.1));
    }
}

/// A name occurs in `h` exactly when its count is positive.
pub proof fn lemma_has_name_count(h: Seq<(Seq<u8>, Seq<u8>)>, n: Seq<u8>)
    ensures
        has_name(h, n) <==> count_name(h, n) > 0,
    decreases h.len(),
{
    reveal(Seq::filter);
    if h.len() > 0 {
        let rest = h.drop_last();
        lemma_has_name_count(rest, n);
        assert(h.last() == h[h.len() - 1]);
        assert(forall|i: int| 0 <= i < rest.len() ==> #[trigger] rest[i] == h[i]);
        lemma_count_name_push(rest, h.last(), n);
        assert(rest.push(h.last()) =~= h);
        if count_name(h, n) > 0 {
            if name_matches(h.last().0, n) {
                assert(has_name(h, n));
            } else {
                assert(count_name(rest, n) > 0);
                let w = choose|i: int| 0 <= i < rest.len() && name_matches(rest[i].0, n);
                assert(name_matches(h[w].0, n));
                assert(has_name(h, n));
            }
        }
        if has_name(h, n) {
            let w = choose|i: int| 0 <= i < h.len() && name_matches(h[i].0, n);
            if w < h.len() - 1 {
                assert(name_matches(rest[w].0, n));
                assert(has_name(rest, n));
            }
        }
    }
}

fn lower_byte(b: u8) -> (r: u8)
    ensures
        r == lower(b),
{
    if b >= 65 && b <= 90 {
        b + 32
    } else {
        b
    }
}

/// Compares two byte strings up to ASCII case.
pub fn bytes_eq_ci(a: &Vec<u8>, b: &Vec<u8>) -> (r: bool)
    ensures
        r == name_matches(a@, b@),
{
    if a.len() != b.len() {
        return false;
    }
    let n = a.len();
    let mut i: usize = 0;
    while i < n
        invariant
            n == a@.len(),
            n == b@.len(),
            0 <= i <= n,
            forall|t: int| 0 <= t < i ==> lower(a@[t]) == lower(b@[t]),
        decreases n - i,
    {
        if lower_byte(a[i]) != lower_byte(b[i]) {
            proof {
                assert(lower_all(a@)[i as int] != lower_all(b@)[i as int]);
            }
            return false;
        }
        i = i + 1;
    }
    proof {
        assert(lower_all(a@) =~= lower_all(b@));
    }
    true
}

/// Copies a byte string.
pub fn copy_bytes(v: &Vec<u8>) -> (r: Vec<u8>)
    ensures
        r@ == v@,
{
    let mut r: Vec<u8> = Vec::new();
    let mut i: usize = 0;
    while i < v.len()
        invariant
            0 <= i <= v@.len(),
            r@ == v@.subrange(0, i as int),
        decreases v@.len() - i,
    {
        r.push(v[i]);
        proof {
            assert(r@ =~= v@.subrange(0, i + 1));
        }
        i = i + 1;
    }
    proof {
        assert(v@.subrange(0, v@.len() as int) =~= v@);
    }
    r
}

/// An ordered multimap of header lines.
pub struct Headers {
    fields: Vec<HeaderField>,
}

impl View for Headers {
    type V = Seq<(Seq<u8>, Seq<u8>)>;

    closed spec fn view(&self) -> Seq<(Seq<u8>, Seq<u8>)> {
        self.fields@.map_values(|f: HeaderField| (f.name@, f.value@))
    }
}

impl Headers {
    /// Constructs an empty header map.
    pub fn new() -> (h: Headers)
        ensures
            h@ == Seq::<(Seq<u8>, Seq<u8>)>::empty(),
    {
        let h = Headers { fields: Vec::new() };
        proof {
            assert(h@ =~= Seq::<(Seq<u8>, Seq<u8>)>::empty());
        }
        h
    }

    /// The number of header lines.
    pub fn len(&self) -> (n: usize)
        ensures
            n == self@.len(),
    {
        self.fields.len()
    }

    /// Appends one line at the end; existing lines, including lines
    /// under the same name, are untouched.
    pub fn append(&mut self, name: Vec<u8>, value: Vec<u8>)
        ensures
            final(self)@ == old(self)@.push((name@, value@)),
    {
        self.fields.push(HeaderField { name, value });
        proof {
            assert(self@ =~= old(self)@.push((name@, value@)));
        }
    }

    /// The name of the line at position `i`.
    pub fn name_at(&self, i: usize) -> (r: &Vec<u8>)
        requires
            i < self@.len(),
        ensures
            r@ == self@[i as int].0,
    {
        &self.fields[i].name
    }

    /// The value of the line at position `i`.
    pub fn value_at(&self, i: usize) -> (r: &Vec<u8>)
        requires
            i < self@.len(),
        ensures
            r@ == self@[i as int].1,
    {
        &self.fields[i].value
    }

    /// Whether some line carries the name, up to ASCII case.
    pub fn contains_name(&self, name: &Vec<u8>) -> (r: bool)
        ensures
            r == has_name(self@, name@),
    {
        let n = self.fields.len();
        let mut i: usize = 0;
        while i < n
            invariant
                n == self@.len(),
                n == self.fields@.len(),
                0 <= i <= n,
                forall|t: int| 0 <= t < i ==> !name_matches(self@[t].0, name@),
            decreases n - i,
        {
            if bytes_eq_ci(&self.fields[i].name, name) {
                proof {
                    assert(name_matches(self@[i as int].0, name@));
                }
                return true;
            }
            i = i + 1;
        }
        proof {
            if has_name(self@, name@) {
                let w = choose|w: int| 0 <= w < self@.len() && name_matches(self@[w].0, name@);
                assert(!name_matches(self@[w].0, name@));
            }
        }
        false
    }

    /// The value of the first line carrying the name, if any.
    pub fn first_value_of(&self, name: &Vec<u8>) -> (r: Option<&Vec<u8>>)
        ensures
            r is Some <==> first_value(self@, name@) is Some,
            r is Some ==> r->Some_0@ == first_value(self@, name@)->Some_0,
    {
        let n = self.fields.len();
        let mut i: usize = 0;
        proof {
            assert(self@.subrange(0, self@.len() as int) =~= self@);
        }
        while i < n
            invariant
                n == self@.len(),
                n == self.fields@.len(),
                0 <= i <= n,
                first_value(self@, name@) == first_value(
                    self@.subrange(i as int, self@.len() as int),
                    name@,
                ),
            decreases n - i,
        {
            let ghost tail = self@.subrange(i as int, self@.len() as int);
            if bytes_eq_ci(&self.fields[i].name, name) {
                proof {
                    assert(tail[0] == self@[i as int]);
                    assert(first_value(tail, name@) == Some(self@[i as int].1));
                }
                return Some(&self.fields[i].value);
            }
            proof {
                assert(tail[0] == self@[i as int]);
                assert(tail.drop_first() =~= self@.subrange(i + 1, self@.len() as int));
            }
            i = i + 1;
        }
        proof {
            assert(self@.subrange(n as int, self@.len() as int).len() == 0);
        }
        None
    }

    /// Copies the values of every line carrying the name, in order.
    pub fn values_of(&self, name: &Vec<u8>) -> (vs: Vec<Vec<u8>>)
        ensures
            vs@.len() == values_named(self@, name@).len(),
            forall|t: int| 0 <= t < vs@.len() ==> vs@[t]@ == values_named(self@, name@)[t],
    {
        let ghost h = self@;
        let n = self.fields.len();
        let mut vs: Vec<Vec<u8>> = Vec::new();
        let mut i: usize = 0;
        proof {
            assert(h.subrange(0, 0) =~= Seq::<(Seq<u8>, Seq<u8>)>::empty());
            assert(values_named(h.subrange(0, 0), name@) =~= Seq::<Seq<u8>>::empty()) by {
                reveal(Seq::filter);
            }
        }
        while i < n
            invariant
                h == self@,
                n == h.len(),
                n == self.fields@.len(),
                0 <= i <= n,
                vs@.len() == values_named(h.subrange(0, i as int), name@).len(),
                forall|t: int|
                    0 <= t < vs@.len() ==> vs@[t]@ == values_named(
                        h.subrange(0, i as int),
                        name@,
                    )[t],
            decreases n - i,
        {
            proof {
                assert(h.subrange(0, i + 1).drop_last() =~= h.subrange(0, i as int));
                assert(h.subrange(0, i + 1) =~= h.subrange(0, i as int).push(h[i as int]));
                lemma_values_named_push(h.subrange(0, i as int), h[i as int], name@);
            }
            if bytes_eq_ci(&self.fields[i].name, name) {
                proof {
                    assert(name_matches(h[i as int].0, name@));
                }
                let v = copy_bytes(&self.fields[i].value);
                vs.push(v);
            } else {
                proof {
                    assert(!name_matches(h[i as int].0, name@));
                }
            }
            i = i + 1;
        }
        proof {
            assert(h.subrange(0, n as int) =~= h);
        }
        vs
    }

    /// Copies the whole header map, every line in order.
    pub fn duplicate(&self) -> (r: Headers)
        ensures
            r@ == self@,
    {
        let n = self.fields.len();
        let mut r = Headers::new();
        let mut i: usize = 0;
        while i < n
            invariant
                n == self@.len(),
                n == self.fields@.len(),
                0 <= i <= n,
                r@ == self@.subrange(0, i as int),
            decreases n - i,
        {
            let nm = copy_bytes(&self.fields[i].name);
            let vl = copy_bytes(&self.fields[i].value);
            r.append(nm, vl);
            proof {
                assert(r@ =~= self@.subrange(0, i + 1));
            }
            i = i + 1;
        }
        proof {
            assert(self@.subrange(0, n as int) =~= self@);
        }
        r
    }
}

} // verus!
