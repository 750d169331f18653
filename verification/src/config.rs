//! Engine configuration and the failure taxonomy.

use vstd::prelude::*;

verus! {

/// The kinds of failure the engine distinguishes.
#[derive(Clone, Copy, Debug, PartialEq, Eq, Structural)]
pub enum ErrorKind {
    /// A transport or node problem: retried with backoff.
    TransientNetwork,
    /// The account stopped being liquidatable: dropped without an error.
    StaleState,
    /// The market refused the liquidation for another reason: never retried.
    EconomicRevert,
    /// The configuration is malformed: the engine must stop.
    FatalConfig,
}

impl ErrorKind {
    /// Only a malformed configuration halts the engine; every other failure
    /// stays with the account it happened to.
    pub fn halts_engine(&self) -> (b: bool)
        ensures
            b == (*self == ErrorKind::FatalConfig),
    {
        match self {
            ErrorKind::FatalConfig => true,
            _ => false,
        }
    }

    /// Only transient network failures are worth another attempt.
    pub fn is_retryable(&self) -> (b: bool)
        ensures
            b == (*self == ErrorKind::TransientNetwork),
    {
        match self {
            ErrorKind::TransientNetwork => true,
            _ => false,
        }
    }
}

/// The tunable limits of the engine.
#[derive(Clone, Copy, Debug, PartialEq, Eq)]
pub struct Config {
    /// Most accounts that one absorb transaction may carry.
    pub batch_cap: usize,
    /// Delay before the first retry, in ticks.
    pub base_delay: u64,
    /// Longest delay before any retry, in ticks.
    pub max_delay: u64,
    /// Most retries granted to one account before it is abandoned.
    pub max_attempts: u32,
    /// Fee bid of a first attempt.
    pub initial_fee: u64,
    /// Multiplier applied to the fee bid after a node rejection.
    pub fee_factor: u64,
    /// Highest fee bid the engine will ever offer.
    pub max_fee: u64,
}

impl Config {
    /// A configuration is usable when a batch can hold at least one account
    /// and the fee parameters cannot lower a bid or start above the ceiling.
    pub open spec fn valid(self) -> bool {
        &&& self.batch_cap >= 1
        &&& self.fee_factor >= 1
        &&& self.initial_fee <= self.max_fee
    }

    /// Accepts exactly the valid configurations; anything else is a
    /// `FatalConfig` failure.
    pub fn validate(&self) -> (r: Result<(), ErrorKind>)
        ensures
            r is Ok <==> self.valid(),
            r is Err ==> r == Err::<(), ErrorKind>(ErrorKind::FatalConfig),
    {
        if self.batch_cap >= 1 && self.fee_factor >= 1 && self.initial_fee <= self.max_fee {
            Ok(())
        } else {
            Err(ErrorKind::FatalConfig)
        }
    }
}

} // verus!
