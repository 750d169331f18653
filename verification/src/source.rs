//! The account universe, as polled from the position source.

use crate::account::Account;
use vstd::prelude::*;

verus! {

/// The known accounts after a listing was merged in: every listed account
/// that was not known yet is added once, in the order it was first listed.
pub open spec fn merged(known: Seq<Account>, listing: Seq<Account>) -> Seq<Account>
    decreases listing.len(),
{
    if listing.len() == 0 {
        known
    } else {
        let sofar = merged(known, listing.drop_last());
        if sofar.contains(listing.last()) {
            sofar
        } else {
            sofar.push(listing.last())
        }
    }
}

/// Merging a listing keeps what was known, in place; adds every listed
/// account; adds nothing that was not listed; and repeats no account.
pub proof fn lemma_merged(known: Seq<Account>, listing: Seq<Account>)
    ensures
        known.len() <= merged(known, listing).len() <= known.len() + listing.len(),
        merged(known, listing).take(known.len() as int) == known,
        forall|a: Account| #[trigger]
            merged(known, listing).contains(a) <==> known.contains(a) || listing.contains(a),
        known.no_duplicates() ==> merged(known, listing).no_duplicates(),
    decreases listing.len(),
{
    let m = merged(known, listing);
    if listing.len() == 0 {
        assert(m.take(known.len() as int) =~= known);
    } else {
        let rest = listing.drop_last();
        let last = listing.last();
        let sofar = merged(known, rest);
        lemma_merged(known, rest);
        assert(m.take(known.len() as int) =~= sofar.take(known.len() as int));
        assert forall|a: Account| #[trigger] m.contains(a) implies known.contains(a)
            || listing.contains(a) by {
            let i = choose|i: int| 0 <= i < m.len() && m[i] == a;
            if i < sofar.len() {
                assert(sofar.contains(sofar[i]));
                if rest.contains(a) {
                    let j = choose|j: int| 0 <= j < rest.len() && rest[j] == a;
                    assert(listing[j] == a);
                }
            } else {
                assert(listing[listing.len() - 1] == a);
            }
        }
        assert forall|a: Account| known.contains(a) || listing.contains(a) implies #[trigger]
            m.contains(a) by {
            if known.contains(a) || rest.contains(a) {
                assert(sofar.contains(a));
                let i = choose|i: int| 0 <= i < sofar.len() && sofar[i] == a;
                assert(m[i] == a);
            } else {
                let j = choose|j: int| 0 <= j < listing.len() && listing[j] == a;
                if j < rest.len() {
                    assert(rest[j] == a);
                }
                assert(a == last);
                if !sofar.contains(last) {
                    assert(m[sofar.len() as int] == a);
                }
            }
        }
    }
}

/// The account universe the engine evaluates.
///
/// It only ever grows by accounts that a listing shows for the first time,
/// and a failed refresh leaves it as it was.
pub struct PositionSource {
    known: Vec<Account>,
    degraded: bool,
}

impl PositionSource {
    /// The known accounts, in the order they were first seen.
    pub closed spec fn known(&self) -> Seq<Account> {
        self.known@
    }

    /// Whether the latest refresh failed.
    pub closed spec fn degraded(&self) -> bool {
        self.degraded
    }

    /// No account is known twice.
    pub open spec fn wf(&self) -> bool {
        self.known().no_duplicates()
    }

    /// Makes a source that knows no account yet.
    pub fn new() -> (s: PositionSource)
        ensures
            s.known() == Seq::<Account>::empty(),
            !s.degraded(),
            s.wf(),
    {
        PositionSource { known: Vec::new(), degraded: false }
    }

    /// Takes the result of one poll. `None` stands for a failed poll: the
    /// source keeps its last known accounts and reports itself degraded.
    /// Otherwise the listing is merged in. Returns the accounts that were
    /// seen for the first time.
    pub fn refresh(&mut self, listing: Option<Vec<Account>>) -> (newly: Vec<Account>)
        requires
            old(self).wf(),
        ensures
            final(self).wf(),
            listing is None ==> final(self).known() == old(self).known() && final(self).degraded()
                && newly@.len() == 0,
            listing matches Some(l) ==> (final(self).known() == merged(old(self).known(), l@)
                && !final(self).degraded() && newly@ == final(self).known().skip(
                old(self).known().len() as int,
            )),
    {
        let mut newly: Vec<Account> = Vec::new();
        match listing {
            None => {
                self.degraded = true;
            },
            Some(l) => {
                let ghost before = self.known@;
                let mut i: usize = 0;
                assert(l@.take(0) =~= Seq::<Account>::empty());
                assert(self.known@.skip(before.len() as int) =~= newly@);
                while i < l.len()
                    invariant
                        i <= l.len(),
                        before.len() <= self.known@.len(),
                        self.known@ == merged(before, l@.take(i as int)),
                        newly@ == self.known@.skip(before.len() as int),
                    decreases l.len() - i,
                {
                    proof {
                        assert(l@.take(i + 1).drop_last() =~= l@.take(i as int));
                    }
                    let a = l[i];
                    if !a.is_among(&self.known) {
                        let ghost sofar = self.known@;
                        self.known.push(a);
                        newly.push(a);
                        assert(self.known@.skip(before.len() as int) =~= sofar.skip(
                            before.len() as int,
                        ).push(a));
                    }
                    i += 1;
                }
                assert(l@.take(l.len() as int) == l@);
                proof {
                    lemma_merged(before, l@);
                }
                self.degraded = false;
            },
        }
        newly
    }

    /// The known accounts, in the order they were first seen.
    pub fn accounts(&self) -> (v: Vec<Account>)
        ensures
            v@ == self.known(),
    {
        let mut out: Vec<Account> = Vec::new();
        let mut i: usize = 0;
        while i < self.known.len()
            invariant
                i <= self.known.len(),
                out@ == self.known@.take(i as int),
            decreases self.known.len() - i,
        {
            out.push(self.known[i]);
            assert(self.known@.take(i + 1) =~= self.known@.take(i as int).push(
                self.known@[i as int],
            ));
            i += 1;
        }
        assert(self.known@.take(self.known.len() as int) == self.known@);
        out
    }

    /// Whether the latest refresh failed, so that the engine works on an
    /// account universe that may be out of date.
    pub fn is_degraded(&self) -> (b: bool)
        ensures
            b == self.degraded(),
    {
        self.degraded
    }
}

} // verus!
