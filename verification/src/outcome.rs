//! What the market answered, and how the engine reads the answer.

use crate::config::ErrorKind;
use vstd::prelude::*;
use vstd::string::StringSliceAdditionalSpecFns;
use vstd::utf8::encode_utf8;

verus! {

/// The answer of one read-only eligibility check.
#[derive(Clone, Copy, Debug, PartialEq, Eq, Structural)]
pub enum CheckResult {
    /// The market reports the account as liquidatable.
    Liquidatable,
    /// The market reports the account as healthy.
    NotLiquidatable,
    /// The check could not be completed because of a transport failure.
    NetworkError,
}

/// The raw result of submitting one absorb transaction, as the transport
/// layer saw it.
#[derive(Clone, Debug, PartialEq, Eq)]
pub enum CallResult {
    /// A success receipt came back.
    Success,
    /// The transaction reverted, with the reason the market gave.
    Revert(String),
    /// Nothing came back before the deadline.
    NoResponse,
    /// The node refused to take the transaction, with its reason.
    Rejected(String),
}

/// The classified outcome of one absorb transaction.
#[derive(Clone, Debug, PartialEq, Eq)]
pub enum Outcome {
    Confirmed,
    Reverted(String),
    TimedOut,
    RejectedByNode(String),
}

/// What an outcome means for the accounts of its batch.
#[derive(Clone, Copy, Debug, PartialEq, Eq, Structural)]
pub enum OutcomeClass {
    /// The absorb went through.
    Confirmed,
    /// The absorb reverted because the account is no longer liquidatable:
    /// as good as a success.
    NoLongerLiquidatable,
    /// The absorb reverted for any other reason: a hard failure.
    Reverted,
    /// No answer within the deadline: retried.
    TimedOut,
    /// The node refused the transaction: retried with a higher fee bid.
    RejectedByNode,
}

/// `needle` occurs in `hay` starting at index `i`.
pub open spec fn occurs_at(needle: Seq<u8>, hay: Seq<u8>, i: int) -> bool {
    &&& 0 <= i
    &&& i + needle.len() <= hay.len()
    &&& hay.subrange(i, i + needle.len()) == needle
}

/// `needle` occurs somewhere in `hay` as a contiguous run.
pub open spec fn occurs_in(needle: Seq<u8>, hay: Seq<u8>) -> bool {
    exists|i: int| occurs_at(needle, hay, i)
}

/// A revert reason names the account as no longer liquidatable when its
/// UTF-8 text contains the phrase `not liquidatable`.
pub open spec fn says_not_liquidatable(reason: Seq<char>) -> bool {
    occurs_in(encode_utf8("not liquidatable"@), encode_utf8(reason))
}

/// The outcome that a raw transport result stands for.
pub open spec fn classified(raw: CallResult) -> Outcome {
    match raw {
        CallResult::Success => Outcome::Confirmed,
        CallResult::Revert(reason) => Outcome::Reverted(reason),
        CallResult::NoResponse => Outcome::TimedOut,
        CallResult::Rejected(reason) => Outcome::RejectedByNode(reason),
    }
}

impl Outcome {
    /// The class of this outcome: a revert counts as a success-equivalent
    /// exactly when its reason says the account is not liquidatable.
    pub open spec fn class(self) -> OutcomeClass {
        match self {
            Outcome::Confirmed => OutcomeClass::Confirmed,
            Outcome::Reverted(reason) => if says_not_liquidatable(reason@) {
                OutcomeClass::NoLongerLiquidatable
            } else {
                OutcomeClass::Reverted
            },
            Outcome::TimedOut => OutcomeClass::TimedOut,
            Outcome::RejectedByNode(_) => OutcomeClass::RejectedByNode,
        }
    }

    /// Computes the class of this outcome.
    pub fn classification(&self) -> (c: OutcomeClass)
        ensures
            c == self.class(),
    {
        match self {
            Outcome::Confirmed => OutcomeClass::Confirmed,
            Outcome::Reverted(reason) => {
                if mentions_not_liquidatable(reason.as_str()) {
                    OutcomeClass::NoLongerLiquidatable
                } else {
                    OutcomeClass::Reverted
                }
            },
            Outcome::TimedOut => OutcomeClass::TimedOut,
            Outcome::RejectedByNode(_) => OutcomeClass::RejectedByNode,
        }
    }
}

impl OutcomeClass {
    /// The failure kind an outcome is reported under, if it is a failure.
    pub open spec fn failure(self) -> Option<ErrorKind> {
        match self {
            OutcomeClass::Confirmed => None,
            OutcomeClass::NoLongerLiquidatable => Some(ErrorKind::StaleState),
            OutcomeClass::Reverted => Some(ErrorKind::EconomicRevert),
            OutcomeClass::TimedOut => Some(ErrorKind::TransientNetwork),
            OutcomeClass::RejectedByNode => Some(ErrorKind::TransientNetwork),
        }
    }

    /// Computes the failure kind of this class of outcome.
    pub fn error_kind(&self) -> (k: Option<ErrorKind>)
        ensures
            k == self.failure(),
    {
        match self {
            OutcomeClass::Confirmed => None,
            OutcomeClass::NoLongerLiquidatable => Some(ErrorKind::StaleState),
            OutcomeClass::Reverted => Some(ErrorKind::EconomicRevert),
            OutcomeClass::TimedOut => Some(ErrorKind::TransientNetwork),
            OutcomeClass::RejectedByNode => Some(ErrorKind::TransientNetwork),
        }
    }
}

/// Turns the raw result of a submission into its outcome.
pub fn classify(raw: CallResult) -> (o: Outcome)
    ensures
        o == classified(raw),
{
    match raw {
        CallResult::Success => Outcome::Confirmed,
        CallResult::Revert(reason) => Outcome::Reverted(reason),
        CallResult::NoResponse => Outcome::TimedOut,
        CallResult::Rejected(reason) => Outcome::RejectedByNode(reason),
    }
}

/// Whether `needle` occurs in `hay` as a contiguous run of bytes.
pub fn contains_bytes(needle: &[u8], hay: &[u8]) -> (b: bool)
    ensures
        b == occurs_in(needle@, hay@),
{
    let n = needle.len();
    let h = hay.len();
    if n > h {
        return false;
    }
    let mut i: usize = 0;
    while i <= h - n
        invariant
            n == needle@.len(),
            h == hay@.len(),
            n <= h,
            i <= h - n + 1,
            forall|p: int| 0 <= p < i ==> !occurs_at(needle@, hay@, p),
        decreases h - n + 1 - i,
    {
        let mut j: usize = 0;
        while j < n && hay[i + j] == needle[j]
            invariant
                n == needle@.len(),
                h == hay@.len(),
                i + n <= h,
                j <= n,
                forall|q: int| 0 <= q < j ==> hay@[i + q] == needle@[q],
            decreases n - j,
        {
            j += 1;
        }
        if j == n {
            assert(hay@.subrange(i as int, i + n) =~= needle@);
            assert(occurs_at(needle@, hay@, i as int));
            return true;
        }
        assert(!occurs_at(needle@, hay@, i as int)) by {
            if occurs_at(needle@, hay@, i as int) {
                assert(hay@.subrange(i as int, i + n)[j as int] == hay@[i + j]);
            }
        }
        i += 1;
    }
    false
}

/// Whether a revert reason says that the account is not liquidatable.
pub fn mentions_not_liquidatable(reason: &str) -> (b: bool)
    ensures
        b == says_not_liquidatable(reason@),
{
    contains_bytes("not liquidatable".as_bytes(), reason.as_bytes())
}

} // verus!
