//! Player tokens, their total order, and the canonical unordered pair.

use vstd::prelude::*;
use vstd::string::*;
use vstd::utf8::encode_utf8;

verus! {

/// `a` and `b` hold the same bytes at every position below `k`.
pub open spec fn agree_below(a: Seq<u8>, b: Seq<u8>, k: int) -> bool {
    forall|j: int| 0 <= j < k ==> a[j] == b[j]
}

/// `a` and `b` agree below `k`, and at `k` either `a` ends while `b` goes on,
/// or `a` holds the smaller byte.
pub open spec fn splits_at(a: Seq<u8>, b: Seq<u8>, k: int) -> bool {
    &&& 0 <= k <= a.len()
    &&& k <= b.len()
    &&& agree_below(a, b, k)
    &&& if k == a.len() {
        k < b.len()
    } else {
        k < b.len() && a[k] < b[k]
    }
}

/// The strict lexicographic order on tokens, byte by byte.
pub open spec fn precedes(a: Seq<u8>, b: Seq<u8>) -> bool {
    exists|k: int| splits_at(a, b, k)
}

/// No token precedes itself, and no two tokens precede each other.
pub proof fn lemma_precedes_asymmetric(a: Seq<u8>, b: Seq<u8>)
    requires
        precedes(a, b),
    ensures
        a != b,
        !precedes(b, a),
{
    let k = choose|k: int| splits_at(a, b, k);
    if a == b {
        assert(false);
    }
    if precedes(b, a) {
        let m = choose|m: int| splits_at(b, a, m);
        if m < k {
            assert(a[m] == b[m]);
        } else if k < m {
            assert(b[k] == a[k]);
        }
        assert(false);
    }
}

/// The order is transitive.
pub proof fn lemma_precedes_transitive(a: Seq<u8>, b: Seq<u8>, c: Seq<u8>)
    requires
        precedes(a, b),
        precedes(b, c),
    ensures
        precedes(a, c),
{
    let k = choose|k: int| splits_at(a, b, k);
    let m = choose|m: int| splits_at(b, c, m);
    let n = if k <= m { k } else { m };
    assert forall|j: int| 0 <= j < n implies a[j] == c[j] by {
        assert(a[j] == b[j]);
        assert(b[j] == c[j]);
    }
    if m < k {
        assert(a[m] == b[m]);
    }
    assert(splits_at(a, c, n));
}

proof fn lemma_total_from(a: Seq<u8>, b: Seq<u8>, k: int)
    requires
        0 <= k <= a.len(),
        k <= b.len(),
        agree_below(a, b, k),
    ensures
        a == b || precedes(a, b) || precedes(b, a),
    decreases a.len() - k,
{
    if k == a.len() {
        if k == b.len() {
            assert(a =~= b);
        } else {
            assert(splits_at(a, b, k));
        }
    } else if k == b.len() {
        assert(splits_at(b, a, k));
    } else if a[k] < b[k] {
        assert(splits_at(a, b, k));
    } else if b[k] < a[k] {
        assert(splits_at(b, a, k));
    } else {
        lemma_total_from(a, b, k + 1);
    }
}

/// Any two tokens are equal or ordered one way or the other.
pub proof fn lemma_precedes_total(a: Seq<u8>, b: Seq<u8>)
    ensures
        a == b || precedes(a, b) || precedes(b, a),
{
    lemma_total_from(a, b, 0);
}

/// Where one value stands relative to another in a strict total order.
#[derive(Debug, Clone, Copy, PartialEq, Eq, Structural)]
pub enum Rank {
    Before,
    Same,
    After,
}

/// An opaque player token: a text, taken by its bytes in UTF-8 and ordered by
/// them as texts are ordered.
#[derive(Debug, PartialEq, Eq, PartialOrd, Ord, Hash)]
pub struct ID(pub String);

impl View for ID {
    type V = Seq<u8>;

    open spec fn view(&self) -> Seq<u8> {
        encode_utf8(self.0@)
    }
}

impl Clone for ID {
    fn clone(&self) -> (copy: Self)
        ensures
            copy@ == self@,
    {
        ID(self.0.clone())
    }
}

impl ID {
    /// The token that a text makes.
    pub fn from_text(text: &str) -> (id: ID)
        ensures
            id@ == text.spec_bytes(),
    {
        ID(String::from_str(text))
    }

    /// Where `self` stands relative to `other`.
    pub fn rank(&self, other: &ID) -> (r: Rank)
        ensures
            r == Rank::Before <==> precedes(self@, other@),
            r == Rank::Same <==> self@ == other@,
            r == Rank::After <==> precedes(other@, self@),
    {
        let mine = self.0.as_str().as_bytes();
        let theirs = other.0.as_str().as_bytes();
        let n: usize = if mine.len() < theirs.len() {
            mine.len()
        } else {
            theirs.len()
        };
        let mut i: usize = 0;
        while i < n
            invariant
                i <= n,
                n <= mine@.len(),
                n <= theirs@.len(),
                mine@ == self@,
                theirs@ == other@,
                agree_below(self@, other@, i as int),
            decreases n - i,
        {
            if mine[i] < theirs[i] {
                proof {
                    assert(splits_at(self@, other@, i as int));
                    lemma_precedes_asymmetric(self@, other@);
                }
                return Rank::Before;
            }
            if mine[i] > theirs[i] {
                proof {
                    assert(splits_at(other@, self@, i as int));
                    lemma_precedes_asymmetric(other@, self@);
                }
                return Rank::After;
            }
            i += 1;
        }
        if mine.len() < theirs.len() {
            proof {
                assert(splits_at(self@, other@, i as int));
                lemma_precedes_asymmetric(self@, other@);
            }
            Rank::Before
        } else if mine.len() > theirs.len() {
            proof {
                assert(splits_at(other@, self@, i as int));
                lemma_precedes_asymmetric(other@, self@);
            }
            Rank::After
        } else {
            proof {
                assert(self@ =~= other@);
                if precedes(self@, other@) {
                    lemma_precedes_asymmetric(self@, other@);
                }
                if precedes(other@, self@) {
                    lemma_precedes_asymmetric(other@, self@);
                }
            }
            Rank::Same
        }
    }

    /// Whether the two tokens denote the same player.
    pub fn same(&self, other: &ID) -> (r: bool)
        ensures
            r <==> self@ == other@,
    {
        self.rank(other) == Rank::Same
    }
}

/// The order on pairs: by the first token, then by the second.
pub open spec fn pair_precedes(p: (Seq<u8>, Seq<u8>), q: (Seq<u8>, Seq<u8>)) -> bool {
    precedes(p.0, q.0) || (p.0 == q.0 && precedes(p.1, q.1))
}

/// No pair precedes itself, and no two pairs precede each other.
pub proof fn lemma_pair_precedes_asymmetric(p: (Seq<u8>, Seq<u8>), q: (Seq<u8>, Seq<u8>))
    requires
        pair_precedes(p, q),
    ensures
        p != q,
        !pair_precedes(q, p),
{
    if precedes(p.0, q.0) {
        lemma_precedes_asymmetric(p.0, q.0);
    } else {
        lemma_precedes_asymmetric(p.1, q.1);
        if precedes(q.0, p.0) {
            lemma_precedes_asymmetric(q.0, p.0);
        }
    }
}

/// The order on pairs is transitive.
pub proof fn lemma_pair_precedes_transitive(
    p: (Seq<u8>, Seq<u8>),
    q: (Seq<u8>, Seq<u8>),
    r: (Seq<u8>, Seq<u8>),
)
    requires
        pair_precedes(p, q),
        pair_precedes(q, r),
    ensures
        pair_precedes(p, r),
{
    if precedes(p.0, q.0) && precedes(q.0, r.0) {
        lemma_precedes_transitive(p.0, q.0, r.0);
    } else if p.0 == q.0 && q.0 == r.0 {
        lemma_precedes_transitive(p.1, q.1, r.1);
    }
}

/// Any two pairs are equal or ordered one way or the other.
pub proof fn lemma_pair_precedes_total(p: (Seq<u8>, Seq<u8>), q: (Seq<u8>, Seq<u8>))
    ensures
        p == q || pair_precedes(p, q) || pair_precedes(q, p),
{
    lemma_precedes_total(p.0, q.0);
    lemma_precedes_total(p.1, q.1);
}

/// Two distinct players who meet, held with the smaller token first, so that
/// the same two players always give the same pair.
#[derive(Debug, PartialEq, Eq, PartialOrd, Ord, Hash)]
pub struct IdPair(ID, ID);

impl View for IdPair {
    type V = (Seq<u8>, Seq<u8>);

    closed spec fn view(&self) -> (Seq<u8>, Seq<u8>) {
        (self.0@, self.1@)
    }
}

impl Clone for IdPair {
    fn clone(&self) -> (copy: Self)
        ensures
            copy@ == self@,
    {
        IdPair(self.0.clone(), self.1.clone())
    }
}

impl IdPair {
    /// The smaller token comes first: the two players differ.
    pub open spec fn wf(&self) -> bool {
        precedes(self@.0, self@.1)
    }

    /// The pair of `a` and `b`, whichever way round they are given.
    pub fn new(a: ID, b: ID) -> (pair: Self)
        requires
            a@ != b@,
        ensures
            pair.wf(),
            pair@ == (if precedes(a@, b@) {
                (a@, b@)
            } else {
                (b@, a@)
            }),
    {
        if a.rank(&b) == Rank::After {
            proof {
                lemma_precedes_asymmetric(b@, a@);
            }
            IdPair(b, a)
        } else {
            IdPair(a, b)
        }
    }

    /// The player with the smaller token.
    pub fn first(&self) -> (id: &ID)
        ensures
            id@ == self@.0,
    {
        &self.0
    }

    /// The player with the larger token.
    pub fn second(&self) -> (id: &ID)
        ensures
            id@ == self@.1,
    {
        &self.1
    }

    /// Whether `id` is one of the two players.
    pub fn holds(&self, id: &ID) -> (r: bool)
        ensures
            r <==> (id@ == self@.0 || id@ == self@.1),
    {
        self.0.same(id) || self.1.same(id)
    }

    /// Where `self` stands relative to `other` in the order on pairs.
    pub fn rank(&self, other: &IdPair) -> (r: Rank)
        ensures
            r == Rank::Before <==> pair_precedes(self@, other@),
            r == Rank::Same <==> self@ == other@,
            r == Rank::After <==> pair_precedes(other@, self@),
    {
        proof {
            if pair_precedes(self@, other@) {
                lemma_pair_precedes_asymmetric(self@, other@);
            }
            if pair_precedes(other@, self@) {
                lemma_pair_precedes_asymmetric(other@, self@);
            }
        }
        match self.0.rank(&other.0) {
            Rank::Before => Rank::Before,
            Rank::After => Rank::After,
            Rank::Same => self.1.rank(&other.1),
        }
    }
}

} // verus!
