use vstd::prelude::*;

use crate::validation::chars_of;

verus! {

/// Lexicographic order on character sequences, the order of `<` on strings.
pub open spec fn seq_lt(a: Seq<char>, b: Seq<char>) -> bool
    decreases a.len(),
{
    if a.len() == 0 {
        b.len() > 0
    } else if b.len() == 0 {
        false
    } else if a[0] != b[0] {
        a[0] < b[0]
    } else {
        seq_lt(a.drop_first(), b.drop_first())
    }
}

/// An unordered pair of hostnames written as a sorted tuple: the smaller one first.
pub open spec fn canonical_pair(a: Seq<char>, b: Seq<char>) -> (Seq<char>, Seq<char>) {
    if seq_lt(a, b) {
        (a, b)
    } else {
        (b, a)
    }
}

/// Whether the pair holds `h` on either side.
pub open spec fn pair_contains(p: (Seq<char>, Seq<char>), h: Seq<char>) -> bool {
    p.0 == h || p.1 == h
}

/// Of two distinct sequences exactly one is smaller; none is smaller than itself.
pub proof fn lemma_seq_lt_total(a: Seq<char>, b: Seq<char>)
    ensures
        !seq_lt(a, a),
        a != b ==> (seq_lt(a, b) <==> !seq_lt(b, a)),
    decreases a.len(),
{
    if a.len() == 0 && b.len() == 0 {
        assert(a =~= b);
    }
    if a.len() > 0 {
        lemma_seq_lt_total(a.drop_first(), a.drop_first());
        if b.len() > 0 {
            lemma_seq_lt_total(a.drop_first(), b.drop_first());
            if a[0] == b[0] && a.drop_first() == b.drop_first() {
                assert(a =~= seq![a[0]] + a.drop_first());
                assert(b =~= seq![b[0]] + b.drop_first());
            }
        }
    }
}

/// The pair does not depend on the order of its two hostnames.
pub proof fn lemma_canonical_pair_symmetric(a: Seq<char>, b: Seq<char>)
    ensures
        canonical_pair(a, b) == canonical_pair(b, a),
        pair_contains(canonical_pair(a, b), a),
        pair_contains(canonical_pair(a, b), b),
{
    lemma_seq_lt_total(a, b);
}

/// Whether `a` comes before `b`, as `<` on strings orders them.
pub fn str_lt(a: &str, b: &str) -> (r: bool)
    ensures
        r == seq_lt(a@, b@),
{
    let x = chars_of(a);
    let y = chars_of(b);
    let mut i: usize = 0;
    assert(x@.skip(0) =~= x@);
    assert(y@.skip(0) =~= y@);
    while i < x.len() && i < y.len()
        invariant
            i <= x.len(),
            i <= y.len(),
            x@ == a@,
            y@ == b@,
            seq_lt(x@, y@) == seq_lt(x@.skip(i as int), y@.skip(i as int)),
        decreases x.len() - i,
    {
        assert(x@.skip(i as int)[0] == x@[i as int]);
        assert(y@.skip(i as int)[0] == y@[i as int]);
        if x[i] != y[i] {
            return x[i] < y[i];
        }
        assert(x@.skip(i as int).drop_first() =~= x@.skip(i + 1));
        assert(y@.skip(i as int).drop_first() =~= y@.skip(i + 1));
        i += 1;
    }
    i < y.len()
}

/// A pair of two peers by their hostname, where the order of the peers doesn't matter.
#[derive(Debug, Clone, Hash)]
pub struct PeerPair {
    low: String,
    high: String,
}

impl PeerPair {
    /// The pair as a sorted tuple of hostnames.
    pub closed spec fn view(&self) -> (Seq<char>, Seq<char>) {
        (self.low@, self.high@)
    }

    /// Creates a new peer pair, the order of the two hostnames doesn't matter.
    pub fn new(a: String, b: String) -> (r: Self)
        ensures
            r@ == canonical_pair(a@, b@),
    {
        if str_lt(a.as_str(), b.as_str()) {
            Self { low: a, high: b }
        } else {
            Self { low: b, high: a }
        }
    }

    /// The smaller hostname.
    pub fn first(&self) -> (r: &String)
        ensures
            r@ == self@.0,
    {
        &self.low
    }

    /// The larger hostname.
    pub fn second(&self) -> (r: &String)
        ensures
            r@ == self@.1,
    {
        &self.high
    }

    /// Whether `hostname` is one of the two.
    pub fn contains(&self, hostname: &str) -> (r: bool)
        ensures
            r == pair_contains(self@, hostname@),
    {
        let h = hostname.to_owned();
        self.low == h || self.high == h
    }
}

impl PartialEq for PeerPair {
    fn eq(&self, other: &PeerPair) -> (r: bool) {
        self.low == other.low && self.high == other.high
    }
}

impl vstd::std_specs::cmp::PartialEqSpecImpl for PeerPair {
    open spec fn obeys_eq_spec() -> bool {
        true
    }

    open spec fn eq_spec(&self, other: &PeerPair) -> bool {
        self@ == other@
    }
}

impl Eq for PeerPair {

}

} // verus!
