//! The records the scheduler keeps and hands out.

use crate::account::{lemma_precedes_total, lemma_precedes_transitive, Account};
use crate::config::ErrorKind;
use vstd::prelude::*;

verus! {

/// An account waiting in the candidate queue.
#[derive(Clone, Copy, Debug, PartialEq, Eq)]
pub struct LiquidationCandidate {
    pub account: Account,
    /// Tick at which the account was first seen liquidatable.
    pub discovered_at: u64,
    /// Tick of the latest check that confirmed it.
    pub last_checked_at: u64,
    /// Attempts that have already failed for it.
    pub attempts: u32,
    /// Fee bid its next attempt will offer.
    pub fee_bid: u64,
    /// Earliest tick at which it may be dispatched.
    pub ready_at: u64,
}

/// An account with an absorb transaction under way.
#[derive(Clone, Copy, Debug, PartialEq, Eq)]
pub struct InFlightEntry {
    pub account: Account,
    /// Tick at which the account was first seen liquidatable.
    pub discovered_at: u64,
    /// Attempts that failed before this one.
    pub attempts: u32,
    /// Tick at which this attempt was dispatched.
    pub last_attempt_at: u64,
    /// Fee bid this attempt offers.
    pub fee_bid: u64,
}

/// The accounts of one absorb transaction, in dispatch order, and the fee
/// bid the transaction offers.
#[derive(Clone, Debug, PartialEq, Eq)]
pub struct AbsorbBatch {
    pub accounts: Vec<Account>,
    pub fee_bid: u64,
}

/// How an account left the in-flight registry for good.
#[derive(Clone, Copy, Debug, PartialEq, Eq, Structural)]
pub enum Terminal {
    /// Its absorb was confirmed.
    Confirmed,
    /// Its absorb reverted because it was no longer liquidatable.
    NoLongerLiquidatable,
    /// Its absorb reverted for another reason.
    Reverted,
    /// It failed transiently more often than the configuration allows.
    Abandoned,
}

/// How loudly a terminal result is reported.
#[derive(Clone, Copy, Debug, PartialEq, Eq, Structural)]
pub enum Severity {
    Routine,
    Elevated,
}

/// The event reported for every terminal transition of an account.
#[derive(Clone, Copy, Debug, PartialEq, Eq)]
pub struct Report {
    pub account: Account,
    pub terminal: Terminal,
    /// Attempts that had failed when the account left the registry.
    pub attempt: u32,
    /// Fee bid of the last attempt.
    pub fee_bid: u64,
    pub timestamp: u64,
}

/// What one outcome did to one account.
#[derive(Clone, Copy, Debug, PartialEq, Eq)]
pub enum Resolution {
    /// The account had no in-flight entry: nothing changed.
    Untracked,
    /// The account left the registry for good.
    Settled(Report),
    /// The account went back to the queue, to be retried after `delay` ticks.
    Requeued { delay: u64, attempt: u32, fee_bid: u64 },
}

/// Where an account stands in the scheduler.
#[derive(Clone, Copy, Debug, PartialEq, Eq, Structural)]
pub enum AccountState {
    Idle,
    Candidate,
    InFlight,
}

impl LiquidationCandidate {
    /// Dispatch order: older discoveries first, ties broken by account.
    pub open spec fn before(self, other: LiquidationCandidate) -> bool {
        self.discovered_at < other.discovered_at || (self.discovered_at == other.discovered_at
            && self.account.precedes(other.account))
    }

    /// Whether `self` is dispatched before `other`.
    pub fn goes_before(&self, other: &LiquidationCandidate) -> (b: bool)
        ensures
            b == self.before(*other),
    {
        self.discovered_at < other.discovered_at || (self.discovered_at == other.discovered_at
            && self.account.comes_before(&other.account))
    }
}

impl Terminal {
    /// The failure kind a terminal result is reported under, if any.
    pub open spec fn failure(self) -> Option<ErrorKind> {
        match self {
            Terminal::Confirmed => None,
            Terminal::NoLongerLiquidatable => Some(ErrorKind::StaleState),
            Terminal::Reverted => Some(ErrorKind::EconomicRevert),
            Terminal::Abandoned => Some(ErrorKind::TransientNetwork),
        }
    }

    /// Computes the failure kind of this terminal result.
    pub fn error_kind(&self) -> (k: Option<ErrorKind>)
        ensures
            k == self.failure(),
    {
        match self {
            Terminal::Confirmed => None,
            Terminal::NoLongerLiquidatable => Some(ErrorKind::StaleState),
            Terminal::Reverted => Some(ErrorKind::EconomicRevert),
            Terminal::Abandoned => Some(ErrorKind::TransientNetwork),
        }
    }

    /// Abandoned accounts are unclaimed liquidations and are reported at
    /// elevated severity; everything else is routine.
    pub fn severity(&self) -> (s: Severity)
        ensures
            s == (if *self == Terminal::Abandoned {
                Severity::Elevated
            } else {
                Severity::Routine
            }),
    {
        match self {
            Terminal::Abandoned => Severity::Elevated,
            _ => Severity::Routine,
        }
    }
}

/// Dispatch order is transitive.
pub proof fn lemma_before_transitive(
    a: LiquidationCandidate,
    b: LiquidationCandidate,
    c: LiquidationCandidate,
)
    requires
        a.before(b),
        b.before(c),
    ensures
        a.before(c),
{
    if a.discovered_at == b.discovered_at && b.discovered_at == c.discovered_at {
        lemma_precedes_transitive(a.account, b.account, c.account);
    }
}

/// Two candidates for different accounts are dispatched one before the other.
pub proof fn lemma_before_total(a: LiquidationCandidate, b: LiquidationCandidate)
    requires
        a.account != b.account,
    ensures
        a.before(b) || b.before(a),
{
    lemma_precedes_total(a.account, b.account);
}

} // verus!
