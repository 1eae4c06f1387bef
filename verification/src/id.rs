//! Peer identifiers: fixed-size opaque byte strings, totally ordered by the
//! lexicographic order over their bytes.

use vstd::prelude::*;

verus! {

/// Lexicographic order on byte sequences: `a` comes strictly before `b`.
///
/// A proper prefix comes before every extension of it.
pub open spec fn lex_lt(a: Seq<u8>, b: Seq<u8>) -> bool
    decreases a.len(),
{
    if b.len() == 0 {
        false
    } else if a.len() == 0 {
        true
    } else if a[0] < b[0] {
        true
    } else if a[0] > b[0] {
        false
    } else {
        lex_lt(a.skip(1), b.skip(1))
    }
}

/// On sequences of equal length, `lex_lt` is a strict total order:
/// exactly one of `a < b`, `a == b`, `b < a` holds.
pub proof fn lemma_lex_lt_trichotomy(a: Seq<u8>, b: Seq<u8>)
    requires
        a.len() == b.len(),
    ensures
        lex_lt(a, b) || lex_lt(b, a) || a =~= b,
        lex_lt(a, b) ==> !lex_lt(b, a),
        lex_lt(a, b) ==> !(a =~= b),
    decreases a.len(),
{
    if a.len() == 0 {
    } else {
        lemma_lex_lt_trichotomy(a.skip(1), b.skip(1));
        if a[0] == b[0] && a.skip(1) =~= b.skip(1) {
            assert(a =~= b) by {
                assert forall|i: int| 0 <= i < a.len() implies a[i] == b[i] by {
                    if i >= 1 {
                        assert(a.skip(1)[i - 1] == a[i]);
                        assert(b.skip(1)[i - 1] == b[i]);
                    }
                }
            }
        }
        if a =~= b {
            assert(a.skip(1) =~= b.skip(1));
        }
    }
}

/// `lex_lt` is transitive on sequences of equal length.
pub proof fn lemma_lex_lt_transitive(a: Seq<u8>, b: Seq<u8>, c: Seq<u8>)
    requires
        a.len() == b.len(),
        b.len() == c.len(),
        lex_lt(a, b),
        lex_lt(b, c),
    ensures
        lex_lt(a, c),
    decreases a.len(),
{
    if a.len() == 0 {
    } else if a[0] == b[0] && b[0] == c[0] {
        lemma_lex_lt_transitive(a.skip(1), b.skip(1), c.skip(1));
    }
}

/// If the first `n` bytes of `a` and `b` agree, the order of `a` and `b` is
/// the order of their tails from position `n` on.
pub proof fn lemma_lex_lt_common_prefix(a: Seq<u8>, b: Seq<u8>, n: int)
    requires
        a.len() == b.len(),
        0 <= n <= a.len(),
        forall|i: int| 0 <= i < n ==> a[i] == b[i],
    ensures
        lex_lt(a, b) == lex_lt(a.skip(n), b.skip(n)),
    decreases n,
{
    if n == 0 {
        assert(a.skip(0) =~= a);
        assert(b.skip(0) =~= b);
    } else {
        assert(a.len() > 0);
        assert(a[0] == b[0]);
        assert(a.skip(1).len() == b.skip(1).len());
        assert forall|i: int| 0 <= i < n - 1 implies #[trigger] a.skip(1)[i] == b.skip(1)[i] by {
            assert(a.skip(1)[i] == a[i + 1]);
            assert(b.skip(1)[i] == b[i + 1]);
        }
        lemma_lex_lt_common_prefix(a.skip(1), b.skip(1), n - 1);
        assert(a.skip(1).skip(n - 1) =~= a.skip(n));
        assert(b.skip(1).skip(n - 1) =~= b.skip(n));
        assert(lex_lt(a, b) == lex_lt(a.skip(1), b.skip(1)));
    }
}

/// A fixed-size opaque peer identifier, ordered lexicographically over its
/// bytes, immutable once assigned to a peer.
#[derive(Clone, Copy, Debug, Hash)]
pub struct PeerId {
    bytes: [u8; 64],
}

impl View for PeerId {
    type V = Seq<u8>;

    closed spec fn view(&self) -> Seq<u8> {
        self.bytes@
    }
}

impl PeerId {
    /// An identifier is always exactly 64 bytes.
    pub proof fn lemma_len(&self)
        ensures
            self@.len() == 64,
    {
    }

    /// Builds an identifier from its bytes.
    pub fn new(bytes: [u8; 64]) -> (r: PeerId)
        ensures
            r@ == bytes@,
    {
        PeerId { bytes }
    }

    /// The identifier's bytes.
    pub fn bytes(&self) -> (r: &[u8; 64])
        ensures
            r@ == self@,
    {
        &self.bytes
    }

    /// Decides whether `self` comes strictly before `other` in the
    /// lexicographic order.
    pub fn lt(&self, other: &PeerId) -> (r: bool)
        ensures
            r == lex_lt(self@, other@),
    {
        let mut i: usize = 0;
        while i < 64
            invariant
                0 <= i <= 64,
                self@.len() == 64,
                other@.len() == 64,
                forall|j: int| 0 <= j < i ==> self@[j] == other@[j],
            decreases 64 - i,
        {
            let x = self.bytes[i];
            let y = other.bytes[i];
            if x < y {
                proof {
                    lemma_lex_lt_common_prefix(self@, other@, i as int);
                    assert(self@.skip(i as int)[0] == self@[i as int]);
                    assert(other@.skip(i as int)[0] == other@[i as int]);
                }
                return true;
            }
            if x > y {
                proof {
                    lemma_lex_lt_common_prefix(self@, other@, i as int);
                    assert(self@.skip(i as int)[0] == self@[i as int]);
                    assert(other@.skip(i as int)[0] == other@[i as int]);
                }
                return false;
            }
            i = i + 1;
        }
        proof {
            assert(self@ =~= other@);
            lemma_lex_lt_trichotomy(self@, other@);
        }
        false
    }
}

impl PartialEq for PeerId {
    /// Two identifiers are equal exactly when their bytes are equal.
    fn eq(&self, other: &PeerId) -> (r: bool) {
        let mut i: usize = 0;
        while i < 64
            invariant
                0 <= i <= 64,
                self@.len() == 64,
                other@.len() == 64,
                forall|j: int| 0 <= j < i ==> self@[j] == other@[j],
            decreases 64 - i,
        {
            if self.bytes[i] != other.bytes[i] {
                return false;
            }
            i = i + 1;
        }
        proof {
            assert(self@ =~= other@);
        }
        true
    }
}

impl Eq for PeerId {

}

impl vstd::std_specs::cmp::PartialEqSpecImpl for PeerId {
    open spec fn obeys_eq_spec() -> bool {
        true
    }

    open spec fn eq_spec(&self, other: &PeerId) -> bool {
        self@ == other@
    }
}

} // verus!
