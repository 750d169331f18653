//! The scheduler as a mathematical state machine.
//!
//! `State` is what a scheduler is, stripped of its storage; each transition
//! is a function from state to state. The executable scheduler is specified
//! by these functions, and the invariants of the design are proved of them.

use crate::account::Account;
use crate::config::Config;
use crate::outcome::{CheckResult, OutcomeClass};
use crate::policy::{backoff, escalated, saturating_sum};
use crate::records::{InFlightEntry, LiquidationCandidate, Report, Resolution, Terminal};
use vstd::prelude::*;

verus! {

/// The abstract state of a scheduler.
pub struct State {
    pub config: Config,
    /// The candidate queue, in dispatch order.
    pub queue: Seq<LiquidationCandidate>,
    /// The in-flight registry, in the order the entries were made.
    pub in_flight: Seq<InFlightEntry>,
    /// Whether new work is still admitted.
    pub admitting: bool,
}

/// Selects the candidates of account `a`.
pub open spec fn held_by(a: Account) -> spec_fn(LiquidationCandidate) -> bool {
    |c: LiquidationCandidate| c.account == a
}

/// Selects the candidates of every account but `a`.
pub open spec fn not_held_by(a: Account) -> spec_fn(LiquidationCandidate) -> bool {
    |c: LiquidationCandidate| c.account != a
}

/// Selects the entries of account `a`.
pub open spec fn entry_of(a: Account) -> spec_fn(InFlightEntry) -> bool {
    |e: InFlightEntry| e.account == a
}

/// Selects the entries of every account but `a`.
pub open spec fn entry_not_of(a: Account) -> spec_fn(InFlightEntry) -> bool {
    |e: InFlightEntry| e.account != a
}

/// Selects the candidates that are dispatched before `c`.
pub open spec fn sorts_before(c: LiquidationCandidate) -> spec_fn(LiquidationCandidate) -> bool {
    |x: LiquidationCandidate| x.before(c)
}

/// Selects the candidates that are not dispatched before `c`.
pub open spec fn sorts_after(c: LiquidationCandidate) -> spec_fn(LiquidationCandidate) -> bool {
    |x: LiquidationCandidate| !x.before(c)
}

/// Marks the candidate of account `a` as checked at `now`.
pub open spec fn touched(a: Account, now: u64) -> spec_fn(LiquidationCandidate) -> LiquidationCandidate {
    |c: LiquidationCandidate|
        if c.account == a {
            LiquidationCandidate { last_checked_at: now, ..c }
        } else {
            c
        }
}

/// Selects the candidates that may be dispatched at `now`.
pub open spec fn ready_by(now: u64) -> spec_fn(LiquidationCandidate) -> bool {
    |c: LiquidationCandidate| c.ready_at <= now
}

/// Selects the candidates whose account is not among `accounts`.
pub open spec fn outside(accounts: Seq<Account>) -> spec_fn(LiquidationCandidate) -> bool {
    |c: LiquidationCandidate| !accounts.contains(c.account)
}

/// Selects the entries whose account is not among `accounts`.
pub open spec fn entry_outside(accounts: Seq<Account>) -> spec_fn(InFlightEntry) -> bool {
    |e: InFlightEntry| !accounts.contains(e.account)
}

/// The account of a candidate.
pub open spec fn account_of() -> spec_fn(LiquidationCandidate) -> Account {
    |c: LiquidationCandidate| c.account
}

/// The entry made for a candidate that is dispatched at `now`.
pub open spec fn launched(now: u64) -> spec_fn(LiquidationCandidate) -> InFlightEntry {
    |c: LiquidationCandidate|
        InFlightEntry {
            account: c.account,
            discovered_at: c.discovered_at,
            attempts: c.attempts,
            last_attempt_at: now,
            fee_bid: c.fee_bid,
        }
}

/// The queue holds a candidate for account `a`.
pub open spec fn queued(q: Seq<LiquidationCandidate>, a: Account) -> bool {
    exists|i: int| 0 <= i < q.len() && (#[trigger] q[i]).account == a
}

/// The registry holds an entry for account `a`.
pub open spec fn flying(r: Seq<InFlightEntry>, a: Account) -> bool {
    exists|i: int| 0 <= i < r.len() && (#[trigger] r[i]).account == a
}

/// The queue is in dispatch order.
pub open spec fn sorted(q: Seq<LiquidationCandidate>) -> bool {
    forall|i: int, j: int| 0 <= i < j < q.len() ==> (#[trigger] q[i]).before(#[trigger] q[j])
}

/// No account has two candidates in the queue.
pub open spec fn one_candidate_each(q: Seq<LiquidationCandidate>) -> bool {
    forall|i: int, j: int|
        0 <= i < j < q.len() ==> (#[trigger] q[i]).account != (#[trigger] q[j]).account
}

/// No account has two entries in the registry.
pub open spec fn one_entry_each(r: Seq<InFlightEntry>) -> bool {
    forall|i: int, j: int|
        0 <= i < j < r.len() ==> (#[trigger] r[i]).account != (#[trigger] r[j]).account
}

/// No account is queued and in flight at once.
pub open spec fn apart(q: Seq<LiquidationCandidate>, r: Seq<InFlightEntry>) -> bool {
    forall|i: int, j: int|
        0 <= i < q.len() && 0 <= j < r.len() ==> (#[trigger] q[i]).account != (
        #[trigger] r[j]).account
}

/// Every candidate respects the fee ceiling and the attempt cap.
pub open spec fn queue_within(config: Config, q: Seq<LiquidationCandidate>) -> bool {
    forall|i: int|
        0 <= i < q.len() ==> (#[trigger] q[i]).fee_bid <= config.max_fee && q[i].attempts
            <= config.max_attempts
}

/// Every entry respects the fee ceiling and the attempt cap.
pub open spec fn registry_within(config: Config, r: Seq<InFlightEntry>) -> bool {
    forall|i: int|
        0 <= i < r.len() ==> (#[trigger] r[i]).fee_bid <= config.max_fee && r[i].attempts
            <= config.max_attempts
}

/// The candidate made for an account that is seen liquidatable at `now`.
pub open spec fn fresh(config: Config, a: Account, now: u64) -> LiquidationCandidate {
    LiquidationCandidate {
        account: a,
        discovered_at: now,
        last_checked_at: now,
        attempts: 0,
        fee_bid: config.initial_fee,
        ready_at: now,
    }
}

/// The queue with `c` put at its place in dispatch order.
pub open spec fn placed(q: Seq<LiquidationCandidate>, c: LiquidationCandidate) -> Seq<
    LiquidationCandidate,
> {
    q.filter(sorts_before(c)).push(c) + q.filter(sorts_after(c))
}

impl State {
    /// The invariant of the design: a usable configuration, a queue in
    /// dispatch order, and every account in at most one place, once.
    pub open spec fn wf(self) -> bool {
        &&& self.config.valid()
        &&& sorted(self.queue)
        &&& one_candidate_each(self.queue)
        &&& one_entry_each(self.in_flight)
        &&& apart(self.queue, self.in_flight)
        &&& queue_within(self.config, self.queue)
        &&& registry_within(self.config, self.in_flight)
    }

    pub open spec fn is_candidate(self, a: Account) -> bool {
        queued(self.queue, a)
    }

    pub open spec fn is_in_flight(self, a: Account) -> bool {
        flying(self.in_flight, a)
    }

    pub open spec fn is_idle(self, a: Account) -> bool {
        !self.is_candidate(a) && !self.is_in_flight(a)
    }

    pub open spec fn is_tracked(self, a: Account) -> bool {
        self.is_candidate(a) || self.is_in_flight(a)
    }

    /// Account `a` is tracked, in the queue or in the registry, with fee
    /// bid `x`.
    pub open spec fn bids(self, a: Account, x: u64) -> bool {
        ||| exists|i: int|
            0 <= i < self.queue.len() && (#[trigger] self.queue[i]).account == a
                && self.queue[i].fee_bid == x
        ||| exists|j: int|
            0 <= j < self.in_flight.len() && (#[trigger] self.in_flight[j]).account == a
                && self.in_flight[j].fee_bid == x
    }

    /// Account `a` is tracked with a fee bid of at most `y`.
    pub open spec fn bids_at_most(self, a: Account, y: u64) -> bool {
        exists|x: u64| #[trigger] self.bids(a, x) && x <= y
    }

    /// Every record of `next` continues a record that `self` holds for the
    /// same account, with a fee bid that is no lower.
    pub open spec fn continued_by(self, next: State) -> bool {
        &&& forall|i: int|
            0 <= i < next.queue.len() ==> self.bids_at_most(
                (#[trigger] next.queue[i]).account,
                next.queue[i].fee_bid,
            )
        &&& forall|j: int|
            0 <= j < next.in_flight.len() ==> self.bids_at_most(
                (#[trigger] next.in_flight[j]).account,
                next.in_flight[j].fee_bid,
            )
    }

    /// Account `a` is tracked after every prefix of the history.
    pub open spec fn stays_tracked(self, history: Seq<Event>, a: Account) -> bool {
        forall|k: int| 0 <= k <= history.len() ==> (#[trigger] self.run(history.take(k))).is_tracked(a)
    }

    /// The state of a scheduler that has seen nothing yet.
    pub open spec fn init(config: Config) -> State {
        State { config, queue: Seq::empty(), in_flight: Seq::empty(), admitting: true }
    }

    /// The state after the eligibility check of account `a` answered `check`
    /// at tick `now`.
    ///
    /// A liquidatable account that is idle becomes a candidate; one that is
    /// already queued only has its check time refreshed; one that is in
    /// flight is left alone. An account found healthy loses its candidate.
    /// A failed check, or any check after admission stopped, changes nothing.
    pub open spec fn observe(self, a: Account, check: CheckResult, now: u64) -> State {
        if !self.admitting {
            self
        } else {
            match check {
                CheckResult::NetworkError => self,
                CheckResult::Liquidatable => if self.is_in_flight(a) {
                    self
                } else if self.is_candidate(a) {
                    State { queue: self.queue.map_values(touched(a, now)), ..self }
                } else {
                    State { queue: placed(self.queue, fresh(self.config, a, now)), ..self }
                },
                CheckResult::NotLiquidatable => State {
                    queue: self.queue.filter(not_held_by(a)),
                    ..self
                },
            }
        }
    }
}

/// The first `cap` elements of `s`, or all of `s` if it has no more.
pub open spec fn first_up_to<A>(s: Seq<A>, cap: int) -> Seq<A> {
    if s.len() <= cap {
        s
    } else {
        s.take(cap)
    }
}

/// The highest fee bid among the candidates, or zero if there are none.
pub open spec fn highest_bid(p: Seq<LiquidationCandidate>) -> u64
    decreases p.len(),
{
    if p.len() == 0 {
        0
    } else if p.last().fee_bid > highest_bid(p.drop_last()) {
        p.last().fee_bid
    } else {
        highest_bid(p.drop_last())
    }
}

/// The answer recorded for the account at position `i` of a batch; an
/// account that was never checked counts as a failed check.
pub open spec fn check_at(checks: Seq<CheckResult>, i: int) -> CheckResult {
    if 0 <= i < checks.len() {
        checks[i]
    } else {
        CheckResult::NetworkError
    }
}

/// Each account of a batch with the answer of its re-validation.
pub open spec fn findings(accounts: Seq<Account>, checks: Seq<CheckResult>) -> Seq<
    (Account, CheckResult),
> {
    Seq::new(accounts.len(), |i: int| (accounts[i], check_at(checks, i)))
}

/// Selects the findings that show an account to be healthy again.
pub open spec fn found_stale() -> spec_fn((Account, CheckResult)) -> bool {
    |f: (Account, CheckResult)| f.1 == CheckResult::NotLiquidatable
}

/// Selects the findings that do not show an account to be healthy.
pub open spec fn found_live() -> spec_fn((Account, CheckResult)) -> bool {
    |f: (Account, CheckResult)| f.1 != CheckResult::NotLiquidatable
}

/// The account of a finding.
pub open spec fn finding_account() -> spec_fn((Account, CheckResult)) -> Account {
    |f: (Account, CheckResult)| f.0
}

/// The accounts of a batch that re-validation found healthy, in batch order.
pub open spec fn stale_accounts(accounts: Seq<Account>, checks: Seq<CheckResult>) -> Seq<
    Account,
> {
    findings(accounts, checks).filter(found_stale()).map_values(finding_account())
}

/// The accounts of a batch that survive re-validation, in batch order.
pub open spec fn live_accounts(accounts: Seq<Account>, checks: Seq<CheckResult>) -> Seq<Account> {
    findings(accounts, checks).filter(found_live()).map_values(finding_account())
}

/// The delay before the retry of an entry whose attempt failed transiently.
pub open spec fn retry_delay(config: Config, e: InFlightEntry) -> u64 {
    backoff(config.base_delay as nat, e.attempts as nat, config.max_delay as nat) as u64
}

/// The fee bid of the retry: escalated after a node rejection, unchanged
/// after a timeout.
pub open spec fn retry_fee(config: Config, e: InFlightEntry, class: OutcomeClass) -> u64 {
    if class == OutcomeClass::RejectedByNode {
        escalated(e.fee_bid as nat, config.fee_factor as nat, config.max_fee as nat) as u64
    } else {
        e.fee_bid
    }
}

/// The candidate that an entry becomes when its attempt failed transiently
/// at `now`: it keeps its place in discovery order, counts one more failed
/// attempt, and may not be dispatched before the backoff delay has passed.
pub open spec fn retried(
    config: Config,
    e: InFlightEntry,
    class: OutcomeClass,
    now: u64,
) -> LiquidationCandidate {
    LiquidationCandidate {
        account: e.account,
        discovered_at: e.discovered_at,
        last_checked_at: e.last_attempt_at,
        attempts: (e.attempts + 1) as u32,
        fee_bid: retry_fee(config, e, class),
        ready_at: saturating_sum(now as nat, retry_delay(config, e) as nat) as u64,
    }
}

/// How an outcome of class `class` ends the life of entry `e`, or `None`
/// if the entry is to be retried.
pub open spec fn terminal_of(config: Config, e: InFlightEntry, class: OutcomeClass) -> Option<
    Terminal,
> {
    match class {
        OutcomeClass::Confirmed => Some(Terminal::Confirmed),
        OutcomeClass::NoLongerLiquidatable => Some(Terminal::NoLongerLiquidatable),
        OutcomeClass::Reverted => Some(Terminal::Reverted),
        OutcomeClass::TimedOut | OutcomeClass::RejectedByNode => if e.attempts
            >= config.max_attempts {
            Some(Terminal::Abandoned)
        } else {
            None
        },
    }
}

impl State {
    /// The candidates that a dispatch at `now` takes: the first ones, in
    /// dispatch order, of those that are ready, up to the batch cap.
    pub open spec fn picked(self, now: u64) -> Seq<LiquidationCandidate> {
        if !self.admitting {
            Seq::empty()
        } else {
            first_up_to(self.queue.filter(ready_by(now)), self.config.batch_cap as int)
        }
    }

    /// The accounts of the batch that a dispatch at `now` hands out.
    pub open spec fn batch_accounts(self, now: u64) -> Seq<Account> {
        self.picked(now).map_values(account_of())
    }

    /// The state after a dispatch at `now`: the picked candidates leave the
    /// queue and enter the registry, in one step.
    pub open spec fn dispatch(self, now: u64) -> State {
        State {
            queue: self.queue.filter(outside(self.batch_accounts(now))),
            in_flight: self.in_flight + self.picked(now).map_values(launched(now)),
            ..self
        }
    }

    /// The state after the entries of `accounts` were given up without an
    /// attempt being counted.
    pub open spec fn release(self, accounts: Seq<Account>) -> State {
        State { in_flight: self.in_flight.filter(entry_outside(accounts)), ..self }
    }

    /// The state after the accounts of a batch were checked once more before
    /// submission: those found healthy lose their entry.
    pub open spec fn revalidate(self, accounts: Seq<Account>, checks: Seq<CheckResult>) -> State {
        self.release(stale_accounts(accounts, checks))
    }

    /// The in-flight entry of account `a`, if it has one.
    pub open spec fn entry(self, a: Account) -> Option<InFlightEntry> {
        let found = self.in_flight.filter(entry_of(a));
        if found.len() > 0 {
            Some(found[0])
        } else {
            None
        }
    }

    /// The candidate of account `a`, if it has one.
    pub open spec fn candidate(self, a: Account) -> Option<LiquidationCandidate> {
        let found = self.queue.filter(held_by(a));
        if found.len() > 0 {
            Some(found[0])
        } else {
            None
        }
    }

    /// What an outcome of class `class`, known at `now`, does to account `a`.
    pub open spec fn resolution(self, a: Account, class: OutcomeClass, now: u64) -> Resolution {
        match self.entry(a) {
            None => Resolution::Untracked,
            Some(e) => match terminal_of(self.config, e, class) {
                Some(terminal) => Resolution::Settled(
                    Report {
                        account: a,
                        terminal,
                        attempt: e.attempts,
                        fee_bid: e.fee_bid,
                        timestamp: now,
                    },
                ),
                None => Resolution::Requeued {
                    delay: retry_delay(self.config, e),
                    attempt: (e.attempts + 1) as u32,
                    fee_bid: retry_fee(self.config, e, class),
                },
            },
        }
    }

    /// The state after an outcome of class `class`, known at `now`, was
    /// applied to account `a`: its entry leaves the registry, and unless the
    /// outcome is terminal for it the account goes back to the queue.
    pub open spec fn resolve(self, a: Account, class: OutcomeClass, now: u64) -> State {
        match self.entry(a) {
            None => self,
            Some(e) => {
                let rest = self.in_flight.filter(entry_not_of(a));
                match terminal_of(self.config, e, class) {
                    Some(_) => State { in_flight: rest, ..self },
                    None => State {
                        queue: placed(self.queue, retried(self.config, e, class, now)),
                        in_flight: rest,
                        ..self
                    },
                }
            },
        }
    }

    /// The state after one outcome was applied to every account of a batch,
    /// in batch order.
    pub open spec fn settle(self, accounts: Seq<Account>, class: OutcomeClass, now: u64) -> State
        decreases accounts.len(),
    {
        if accounts.len() == 0 {
            self
        } else {
            self.settle(accounts.drop_last(), class, now).resolve(accounts.last(), class, now)
        }
    }

    /// What the outcome did to each account of the batch, in batch order.
    pub open spec fn settlements(
        self,
        accounts: Seq<Account>,
        class: OutcomeClass,
        now: u64,
    ) -> Seq<Resolution> {
        Seq::new(
            accounts.len(),
            |i: int| self.settle(accounts.take(i), class, now).resolution(accounts[i], class, now),
        )
    }

    /// The state after admission was stopped.
    pub open spec fn halt(self) -> State {
        State { admitting: false, ..self }
    }
}

/// One call made on a scheduler.
pub enum Event {
    Observed { account: Account, check: CheckResult, now: u64 },
    Dispatched { now: u64 },
    Revalidated { accounts: Seq<Account>, checks: Seq<CheckResult> },
    Resolved { account: Account, class: OutcomeClass, now: u64 },
    Settled { accounts: Seq<Account>, class: OutcomeClass, now: u64 },
    Halted,
}

impl State {
    /// The state after one call.
    pub open spec fn step(self, event: Event) -> State {
        match event {
            Event::Observed { account, check, now } => self.observe(account, check, now),
            Event::Dispatched { now } => self.dispatch(now),
            Event::Revalidated { accounts, checks } => self.revalidate(accounts, checks),
            Event::Resolved { account, class, now } => self.resolve(account, class, now),
            Event::Settled { accounts, class, now } => self.settle(accounts, class, now),
            Event::Halted => self.halt(),
        }
    }

    /// The state after a history of calls, oldest first.
    pub open spec fn run(self, history: Seq<Event>) -> State
        decreases history.len(),
    {
        if history.len() == 0 {
            self
        } else {
            self.run(history.drop_last()).step(history.last())
        }
    }
}

} // verus!
