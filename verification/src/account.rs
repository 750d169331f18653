//! Borrower account identifiers and the order used to break ties between them.

use vstd::prelude::*;

verus! {

/// A borrower account: an opaque fixed-width address.
///
/// Accounts are only ever compared: for identity, and (to make scheduling
/// deterministic) by the lexicographic order of their bytes.
#[derive(Clone, Copy, Debug, PartialEq, Eq, Hash)]
pub struct Account {
    pub bytes: [u8; 32],
}

impl Account {
    /// The two accounts carry the same bytes at every index below `k`.
    pub open spec fn agree_below(self, other: Account, k: int) -> bool {
        forall|j: int| 0 <= j < k ==> self.bytes@[j] == other.bytes@[j]
    }

    /// Strict lexicographic order on the address bytes: at the first index
    /// where the two differ, `self` holds the smaller byte.
    pub open spec fn precedes(self, other: Account) -> bool {
        exists|k: int|
            0 <= k < 32 && #[trigger] self.agree_below(other, k) && self.bytes@[k]
                < other.bytes@[k]
    }

    /// Wraps the raw address bytes.
    pub fn new(bytes: [u8; 32]) -> (a: Account)
        ensures
            a.bytes == bytes,
    {
        Account { bytes }
    }

    /// The first index at which the two addresses differ, or 32 if there is none.
    fn first_difference(&self, other: &Account) -> (k: usize)
        ensures
            k <= 32,
            self.agree_below(*other, k as int),
            k < 32 ==> self.bytes@[k as int] != other.bytes@[k as int],
    {
        let mut k: usize = 0;
        while k < 32
            invariant
                k <= 32,
                self.agree_below(*other, k as int),
            decreases 32 - k,
        {
            if self.bytes[k] != other.bytes[k] {
                return k;
            }
            k += 1;
        }
        k
    }

    /// Whether the two accounts are the same account.
    pub fn same(&self, other: &Account) -> (b: bool)
        ensures
            b == (*self == *other),
    {
        let k = self.first_difference(other);
        proof {
            if k == 32 {
                assert(self.bytes =~= other.bytes);
            }
        }
        k == 32
    }

    /// Whether `self` is one of `accounts`.
    pub fn is_among(&self, accounts: &Vec<Account>) -> (b: bool)
        ensures
            b == accounts@.contains(*self),
    {
        let mut i: usize = 0;
        while i < accounts.len()
            invariant
                i <= accounts.len(),
                forall|j: int| 0 <= j < i ==> accounts@[j] != *self,
            decreases accounts.len() - i,
        {
            if accounts[i].same(self) {
                return true;
            }
            i += 1;
        }
        false
    }

    /// Whether `self` comes strictly before `other` in the tie-breaking order.
    pub fn comes_before(&self, other: &Account) -> (b: bool)
        ensures
            b == self.precedes(*other),
    {
        let k = self.first_difference(other);
        if k < 32 && self.bytes[k] < other.bytes[k] {
            true
        } else {
            proof {
                if self.precedes(*other) {
                    let w = choose|w: int|
                        0 <= w < 32 && #[trigger] self.agree_below(*other, w) && self.bytes@[w]
                            < other.bytes@[w];
                    if w < k {
                        assert(self.bytes@[w] == other.bytes@[w]);
                    } else if w > k {
                        assert(self.bytes@[k as int] == other.bytes@[k as int]);
                    }
                }
            }
            false
        }
    }
}

/// No account precedes itself.
pub proof fn lemma_precedes_irreflexive(a: Account)
    ensures
        !a.precedes(a),
{
}

/// The tie-breaking order is transitive.
pub proof fn lemma_precedes_transitive(a: Account, b: Account, c: Account)
    requires
        a.precedes(b),
        b.precedes(c),
    ensures
        a.precedes(c),
{
    let k1 = choose|k: int|
        0 <= k < 32 && #[trigger] a.agree_below(b, k) && a.bytes@[k] < b.bytes@[k];
    let k2 = choose|k: int|
        0 <= k < 32 && #[trigger] b.agree_below(c, k) && b.bytes@[k] < c.bytes@[k];
    let k = if k1 <= k2 { k1 } else { k2 };
    assert(a.agree_below(c, k));
    if k1 < k2 {
        assert(b.bytes@[k1] == c.bytes@[k1]);
    } else if k2 < k1 {
        assert(a.bytes@[k2] == b.bytes@[k2]);
    }
    assert(a.bytes@[k] < c.bytes@[k]);
}

/// Any two distinct accounts are ordered one way or the other.
pub proof fn lemma_precedes_total(a: Account, b: Account)
    ensures
        a == b || a.precedes(b) || b.precedes(a),
{
    lemma_ordered_from(a, b, 0);
}

proof fn lemma_ordered_from(a: Account, b: Account, k: int)
    requires
        0 <= k <= 32,
        a.agree_below(b, k),
    ensures
        a == b || a.precedes(b) || b.precedes(a),
    decreases 32 - k,
{
    if k == 32 {
        assert(a.bytes =~= b.bytes);
    } else if a.bytes@[k] < b.bytes@[k] {
    } else if b.bytes@[k] < a.bytes@[k] {
        assert(b.agree_below(a, k));
    } else {
        lemma_ordered_from(a, b, k + 1);
    }
}

} // verus!
