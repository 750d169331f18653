//! The executable scheduler: the candidate queue and the in-flight registry
//! behind one exclusive interface.

use crate::account::Account;
use crate::config::{Config, ErrorKind};
use crate::laws::{
    lemma_dispatch_wf, lemma_entry, lemma_observe_wf, lemma_picked, lemma_release_wf,
    lemma_resolve_wf,
};
use crate::model::{
    account_of, entry_not_of, entry_of, entry_outside, finding_account, findings, first_up_to,
    flying, found_live, found_stale, held_by, highest_bid, launched, live_accounts, not_held_by,
    outside, placed, queued, ready_by, retried, retry_delay, sorts_after, sorts_before,
    terminal_of, touched, State,
};
use crate::outcome::{CheckResult, Outcome, OutcomeClass};
use crate::policy::{backoff_delay, escalate_fee, saturating_deadline};
use crate::records::{
    AbsorbBatch, AccountState, InFlightEntry, LiquidationCandidate, Report, Resolution, Terminal,
};
use crate::seqs::{lemma_filter_first, lemma_filter_none, lemma_filter_step, lemma_map_step};
use vstd::prelude::*;

verus! {

/// The liquidation scheduler.
///
/// It is the only owner of the candidate queue and of the in-flight
/// registry. Every method takes the scheduler exclusively, so a caller that
/// shares it between workers puts it behind one lock, and each method is one
/// atomic step of the design.
pub struct Scheduler {
    config: Config,
    queue: Vec<LiquidationCandidate>,
    in_flight: Vec<InFlightEntry>,
    admitting: bool,
}

impl View for Scheduler {
    type V = State;

    closed spec fn view(&self) -> State {
        State {
            config: self.config,
            queue: self.queue@,
            in_flight: self.in_flight@,
            admitting: self.admitting,
        }
    }
}

/// The index of the first candidate of account `a`, if the queue holds one.
fn find_candidate(q: &Vec<LiquidationCandidate>, a: &Account) -> (r: Option<usize>)
    ensures
        r matches Some(i) ==> (i < q.len() && q@[i as int].account == *a && forall|j: int|
            0 <= j < i ==> (#[trigger] q@[j]).account != *a),
        r is None ==> !queued(q@, *a),
{
    let mut i: usize = 0;
    while i < q.len()
        invariant
            i <= q.len(),
            forall|j: int| 0 <= j < i ==> (#[trigger] q@[j]).account != *a,
        decreases q.len() - i,
    {
        if q[i].account.same(a) {
            return Some(i);
        }
        i += 1;
    }
    None
}

/// The index of the first entry of account `a`, if the registry holds one.
fn find_entry(r: &Vec<InFlightEntry>, a: &Account) -> (found: Option<usize>)
    ensures
        found matches Some(i) ==> (i < r.len() && r@[i as int].account == *a && forall|j: int|
            0 <= j < i ==> (#[trigger] r@[j]).account != *a),
        found is None ==> !flying(r@, *a),
{
    let mut i: usize = 0;
    while i < r.len()
        invariant
            i <= r.len(),
            forall|j: int| 0 <= j < i ==> (#[trigger] r@[j]).account != *a,
        decreases r.len() - i,
    {
        if r[i].account.same(a) {
            return Some(i);
        }
        i += 1;
    }
    None
}

/// The queue without the candidate of account `a`.
fn queue_without(q: &Vec<LiquidationCandidate>, a: &Account) -> (out: Vec<LiquidationCandidate>)
    ensures
        out@ == q@.filter(not_held_by(*a)),
{
    let mut out: Vec<LiquidationCandidate> = Vec::new();
    let mut i: usize = 0;
    assert(q@.take(0).filter(not_held_by(*a)) == Seq::<LiquidationCandidate>::empty()) by {
        reveal(Seq::filter);
    }
    while i < q.len()
        invariant
            i <= q.len(),
            out@ == q@.take(i as int).filter(not_held_by(*a)),
        decreases q.len() - i,
    {
        proof {
            lemma_filter_step(q@, not_held_by(*a), i as int);
        }
        if !q[i].account.same(a) {
            out.push(q[i]);
        }
        i += 1;
    }
    assert(q@.take(q.len() as int) == q@);
    out
}

/// The queue without the candidates of `accounts`.
fn queue_outside(q: &Vec<LiquidationCandidate>, accounts: &Vec<Account>) -> (out: Vec<
    LiquidationCandidate,
>)
    ensures
        out@ == q@.filter(outside(accounts@)),
{
    let mut out: Vec<LiquidationCandidate> = Vec::new();
    let mut i: usize = 0;
    assert(q@.take(0).filter(outside(accounts@)) == Seq::<LiquidationCandidate>::empty()) by {
        reveal(Seq::filter);
    }
    while i < q.len()
        invariant
            i <= q.len(),
            out@ == q@.take(i as int).filter(outside(accounts@)),
        decreases q.len() - i,
    {
        proof {
            lemma_filter_step(q@, outside(accounts@), i as int);
        }
        if !q[i].account.is_among(accounts) {
            out.push(q[i]);
        }
        i += 1;
    }
    assert(q@.take(q.len() as int) == q@);
    out
}

/// The registry without the entry of account `a`.
fn registry_without(r: &Vec<InFlightEntry>, a: &Account) -> (out: Vec<InFlightEntry>)
    ensures
        out@ == r@.filter(entry_not_of(*a)),
{
    let mut out: Vec<InFlightEntry> = Vec::new();
    let mut i: usize = 0;
    assert(r@.take(0).filter(entry_not_of(*a)) == Seq::<InFlightEntry>::empty()) by {
        reveal(Seq::filter);
    }
    while i < r.len()
        invariant
            i <= r.len(),
            out@ == r@.take(i as int).filter(entry_not_of(*a)),
        decreases r.len() - i,
    {
        proof {
            lemma_filter_step(r@, entry_not_of(*a), i as int);
        }
        if !r[i].account.same(a) {
            out.push(r[i]);
        }
        i += 1;
    }
    assert(r@.take(r.len() as int) == r@);
    out
}

/// The registry without the entries of `accounts`.
fn registry_outside(r: &Vec<InFlightEntry>, accounts: &Vec<Account>) -> (out: Vec<InFlightEntry>)
    ensures
        out@ == r@.filter(entry_outside(accounts@)),
{
    let mut out: Vec<InFlightEntry> = Vec::new();
    let mut i: usize = 0;
    assert(r@.take(0).filter(entry_outside(accounts@)) == Seq::<InFlightEntry>::empty()) by {
        reveal(Seq::filter);
    }
    while i < r.len()
        invariant
            i <= r.len(),
            out@ == r@.take(i as int).filter(entry_outside(accounts@)),
        decreases r.len() - i,
    {
        proof {
            lemma_filter_step(r@, entry_outside(accounts@), i as int);
        }
        if !r[i].account.is_among(accounts) {
            out.push(r[i]);
        }
        i += 1;
    }
    assert(r@.take(r.len() as int) == r@);
    out
}

/// The queue with the check time of account `a` set to `now`.
fn queue_touched(q: &Vec<LiquidationCandidate>, a: &Account, now: u64) -> (out: Vec<
    LiquidationCandidate,
>)
    ensures
        out@ == q@.map_values(touched(*a, now)),
{
    let mut out: Vec<LiquidationCandidate> = Vec::new();
    let mut i: usize = 0;
    while i < q.len()
        invariant
            i <= q.len(),
            out@ == q@.take(i as int).map_values(touched(*a, now)),
        decreases q.len() - i,
    {
        proof {
            lemma_map_step(q@, touched(*a, now), i as int);
        }
        let c = q[i];
        if c.account.same(a) {
            out.push(LiquidationCandidate { last_checked_at: now, ..c });
        } else {
            out.push(c);
        }
        i += 1;
    }
    assert(q@.take(q.len() as int) == q@);
    out
}

/// The queue with `c` put at its place in dispatch order.
fn queue_placed(q: &Vec<LiquidationCandidate>, c: LiquidationCandidate) -> (out: Vec<
    LiquidationCandidate,
>)
    ensures
        out@ == placed(q@, c),
{
    let mut out: Vec<LiquidationCandidate> = Vec::new();
    let mut i: usize = 0;
    assert(q@.take(0).filter(sorts_before(c)) == Seq::<LiquidationCandidate>::empty()) by {
        reveal(Seq::filter);
    }
    while i < q.len()
        invariant
            i <= q.len(),
            out@ == q@.take(i as int).filter(sorts_before(c)),
        decreases q.len() - i,
    {
        proof {
            lemma_filter_step(q@, sorts_before(c), i as int);
        }
        if q[i].goes_before(&c) {
            out.push(q[i]);
        }
        i += 1;
    }
    assert(q@.take(q.len() as int) == q@);
    out.push(c);
    let ghost head = out@;
    let mut k: usize = 0;
    assert(q@.take(0).filter(sorts_after(c)) == Seq::<LiquidationCandidate>::empty()) by {
        reveal(Seq::filter);
    }
    while k < q.len()
        invariant
            k <= q.len(),
            head == q@.filter(sorts_before(c)).push(c),
            out@ == head + q@.take(k as int).filter(sorts_after(c)),
        decreases q.len() - k,
    {
        proof {
            lemma_filter_step(q@, sorts_after(c), k as int);
        }
        if !q[k].goes_before(&c) {
            out.push(q[k]);
        }
        k += 1;
    }
    out
}

/// How an outcome of class `class` ends the life of entry `e`, if it does.
fn terminal_for(config: &Config, e: &InFlightEntry, class: OutcomeClass) -> (t: Option<Terminal>)
    ensures
        t == terminal_of(*config, *e, class),
{
    match class {
        OutcomeClass::Confirmed => Some(Terminal::Confirmed),
        OutcomeClass::NoLongerLiquidatable => Some(Terminal::NoLongerLiquidatable),
        OutcomeClass::Reverted => Some(Terminal::Reverted),
        OutcomeClass::TimedOut | OutcomeClass::RejectedByNode => {
            if e.attempts >= config.max_attempts {
                Some(Terminal::Abandoned)
            } else {
                None
            }
        },
    }
}

/// The candidate that entry `e` becomes when its attempt failed transiently.
fn retry_of(config: &Config, e: &InFlightEntry, class: OutcomeClass, now: u64) -> (c:
    LiquidationCandidate)
    requires
        e.attempts < config.max_attempts,
    ensures
        c == retried(*config, *e, class, now),
        c.ready_at - now <= retry_delay(*config, *e),
{
    let delay = backoff_delay(config.base_delay, e.attempts, config.max_delay);
    let fee_bid = match class {
        OutcomeClass::RejectedByNode => escalate_fee(e.fee_bid, config.fee_factor, config.max_fee),
        _ => e.fee_bid,
    };
    LiquidationCandidate {
        account: e.account,
        discovered_at: e.discovered_at,
        last_checked_at: e.last_attempt_at,
        attempts: e.attempts + 1,
        fee_bid,
        ready_at: saturating_deadline(now, delay),
    }
}

impl Scheduler {
    /// The invariant every scheduler satisfies between calls.
    pub open spec fn wf(&self) -> bool {
        self@.wf()
    }

    /// Makes a scheduler that tracks nothing yet. A malformed configuration
    /// is refused as `FatalConfig`.
    pub fn new(config: Config) -> (r: Result<Scheduler, ErrorKind>)
        ensures
            config.valid() ==> (r matches Ok(s) && s@ == State::init(config) && s.wf()),
            !config.valid() ==> (r matches Err(e) && e == ErrorKind::FatalConfig),
    {
        match config.validate() {
            Ok(()) => {
                let s = Scheduler {
                    config,
                    queue: Vec::new(),
                    in_flight: Vec::new(),
                    admitting: true,
                };
                assert(s@.queue =~= Seq::empty() && s@.in_flight =~= Seq::empty());
                Ok(s)
            },
            Err(e) => Err(e),
        }
    }

    /// The configuration the scheduler was made with.
    pub fn config(&self) -> (c: Config)
        ensures
            c == self@.config,
    {
        self.config
    }

    /// Whether new work is still admitted.
    pub fn is_admitting(&self) -> (b: bool)
        ensures
            b == self@.admitting,
    {
        self.admitting
    }

    /// The candidate queue, in dispatch order.
    pub fn candidates(&self) -> (q: Vec<LiquidationCandidate>)
        ensures
            q@ == self@.queue,
    {
        let mut out: Vec<LiquidationCandidate> = Vec::new();
        let mut i: usize = 0;
        while i < self.queue.len()
            invariant
                i <= self.queue.len(),
                out@ == self.queue@.take(i as int),
            decreases self.queue.len() - i,
        {
            out.push(self.queue[i]);
            assert(self.queue@.take(i + 1) =~= self.queue@.take(i as int).push(self.queue@[i as int]));
            i += 1;
        }
        assert(self.queue@.take(self.queue.len() as int) == self.queue@);
        out
    }

    /// The in-flight registry: the entries whose transactions are still
    /// unresolved, in the order they were dispatched.
    pub fn outstanding(&self) -> (r: Vec<InFlightEntry>)
        ensures
            r@ == self@.in_flight,
    {
        let mut out: Vec<InFlightEntry> = Vec::new();
        let mut i: usize = 0;
        while i < self.in_flight.len()
            invariant
                i <= self.in_flight.len(),
                out@ == self.in_flight@.take(i as int),
            decreases self.in_flight.len() - i,
        {
            out.push(self.in_flight[i]);
            assert(self.in_flight@.take(i + 1) =~= self.in_flight@.take(i as int).push(
                self.in_flight@[i as int],
            ));
            i += 1;
        }
        assert(self.in_flight@.take(self.in_flight.len() as int) == self.in_flight@);
        out
    }

    /// Where account `a` stands.
    pub fn state_of(&self, a: &Account) -> (st: AccountState)
        requires
            self.wf(),
        ensures
            st == AccountState::InFlight <==> self@.is_in_flight(*a),
            st == AccountState::Candidate <==> self@.is_candidate(*a),
            st == AccountState::Idle <==> self@.is_idle(*a),
    {
        match find_entry(&self.in_flight, a) {
            Some(i) => {
                proof {
                    if self@.is_candidate(*a) {
                        let k = choose|k: int|
                            0 <= k < self.queue@.len() && (#[trigger] self.queue@[k]).account
                                == *a;
                        assert(self.queue@[k].account != self.in_flight@[i as int].account);
                    }
                }
                AccountState::InFlight
            },
            None => match find_candidate(&self.queue, a) {
                Some(_) => AccountState::Candidate,
                None => AccountState::Idle,
            },
        }
    }

    /// The candidate of account `a`, if it is queued.
    pub fn candidate(&self, a: &Account) -> (c: Option<LiquidationCandidate>)
        ensures
            c == self@.candidate(*a),
    {
        match find_candidate(&self.queue, a) {
            Some(i) => {
                proof {
                    lemma_filter_first(self.queue@, held_by(*a), i as int);
                }
                Some(self.queue[i])
            },
            None => {
                proof {
                    lemma_filter_none(self.queue@, held_by(*a));
                }
                None
            },
        }
    }

    /// The in-flight entry of account `a`, if it has one.
    pub fn entry(&self, a: &Account) -> (e: Option<InFlightEntry>)
        ensures
            e == self@.entry(*a),
    {
        match find_entry(&self.in_flight, a) {
            Some(i) => {
                proof {
                    lemma_filter_first(self.in_flight@, entry_of(*a), i as int);
                }
                Some(self.in_flight[i])
            },
            None => {
                proof {
                    lemma_filter_none(self.in_flight@, entry_of(*a));
                }
                None
            },
        }
    }

    /// Records the answer `check` of the eligibility check of `account`,
    /// made at tick `now`.
    pub fn observe(&mut self, account: Account, check: CheckResult, now: u64)
        requires
            old(self).wf(),
        ensures
            final(self)@ == old(self)@.observe(account, check, now),
            final(self).wf(),
    {
        proof {
            lemma_observe_wf(self@, account, check, now);
        }
        if !self.admitting {
            return ;
        }
        match check {
            CheckResult::NetworkError => {},
            CheckResult::Liquidatable => {
                if find_entry(&self.in_flight, &account).is_some() {
                } else if find_candidate(&self.queue, &account).is_some() {
                    self.queue = queue_touched(&self.queue, &account, now);
                } else {
                    let c = LiquidationCandidate {
                        account,
                        discovered_at: now,
                        last_checked_at: now,
                        attempts: 0,
                        fee_bid: self.config.initial_fee,
                        ready_at: now,
                    };
                    self.queue = queue_placed(&self.queue, c);
                }
            },
            CheckResult::NotLiquidatable => {
                self.queue = queue_without(&self.queue, &account);
            },
        }
    }

    /// Takes the next batch at tick `now`: the oldest ready candidates, up
    /// to the batch cap, leave the queue and enter the registry in one step.
    /// The batch offers the highest fee bid among its accounts.
    pub fn dispatch(&mut self, now: u64) -> (batch: AbsorbBatch)
        requires
            old(self).wf(),
        ensures
            final(self)@ == old(self)@.dispatch(now),
            final(self).wf(),
            batch.accounts@ == old(self)@.batch_accounts(now),
            batch.fee_bid == highest_bid(old(self)@.picked(now)),
            batch.accounts@.len() <= old(self)@.config.batch_cap,
    {
        proof {
            lemma_dispatch_wf(self@, now);
            lemma_picked(self@, now);
        }
        let ghost before = self@;
        let cap = self.config.batch_cap;
        let mut picked: Vec<LiquidationCandidate> = Vec::new();
        if self.admitting {
            let mut i: usize = 0;
            assert(self.queue@.take(0).filter(ready_by(now)) == Seq::<
                LiquidationCandidate,
            >::empty()) by {
                reveal(Seq::filter);
            }
            while i < self.queue.len()
                invariant
                    i <= self.queue.len(),
                    cap >= 1,
                    picked@ == first_up_to(
                        self.queue@.take(i as int).filter(ready_by(now)),
                        cap as int,
                    ),
                decreases self.queue.len() - i,
            {
                proof {
                    lemma_filter_step(self.queue@, ready_by(now), i as int);
                }
                let ghost seen = self.queue@.take(i as int).filter(ready_by(now));
                let c = self.queue[i];
                if c.ready_at <= now {
                    if picked.len() < cap {
                        picked.push(c);
                    } else {
                        assert(seen.push(c).take(cap as int) =~= picked@);
                    }
                }
                i += 1;
            }
            assert(self.queue@.take(self.queue.len() as int) == self.queue@);
        }
        assert(picked@ == before.picked(now));
        let mut accounts: Vec<Account> = Vec::new();
        let mut entries: Vec<InFlightEntry> = Vec::new();
        let mut fee_bid: u64 = 0;
        let mut k: usize = 0;
        while k < picked.len()
            invariant
                k <= picked.len(),
                accounts@ == picked@.take(k as int).map_values(account_of()),
                entries@ == picked@.take(k as int).map_values(launched(now)),
                fee_bid == highest_bid(picked@.take(k as int)),
            decreases picked.len() - k,
        {
            proof {
                lemma_map_step(picked@, account_of(), k as int);
                lemma_map_step(picked@, launched(now), k as int);
                assert(picked@.take(k + 1).drop_last() =~= picked@.take(k as int));
            }
            let c = picked[k];
            accounts.push(c.account);
            entries.push(
                InFlightEntry {
                    account: c.account,
                    discovered_at: c.discovered_at,
                    attempts: c.attempts,
                    last_attempt_at: now,
                    fee_bid: c.fee_bid,
                },
            );
            if c.fee_bid > fee_bid {
                fee_bid = c.fee_bid;
            }
            k += 1;
        }
        assert(picked@.take(picked.len() as int) == picked@);
        self.queue = queue_outside(&self.queue, &accounts);
        self.in_flight.append(&mut entries);
        AbsorbBatch { accounts, fee_bid }
    }

    /// Takes the answers of the re-validation of a batch, `checks[i]` being
    /// the answer for `batch.accounts[i]`. Accounts found healthy lose their
    /// entry without an attempt being counted. Returns the batch to submit,
    /// or `None` if no account is left and nothing must be sent.
    pub fn revalidate(&mut self, batch: &AbsorbBatch, checks: &Vec<CheckResult>) -> (r: Option<
        AbsorbBatch,
    >)
        requires
            old(self).wf(),
        ensures
            final(self)@ == old(self)@.revalidate(batch.accounts@, checks@),
            final(self).wf(),
            r is None <==> live_accounts(batch.accounts@, checks@).len() == 0,
            r matches Some(b) ==> (b.accounts@ == live_accounts(batch.accounts@, checks@)
                && b.fee_bid == batch.fee_bid),
    {
        let ghost all = findings(batch.accounts@, checks@);
        let mut live: Vec<Account> = Vec::new();
        let mut stale: Vec<Account> = Vec::new();
        let mut i: usize = 0;
        proof {
            reveal(Seq::filter);
            assert(all.take(0).filter(found_live()).map_values(finding_account()) =~= Seq::<
                Account,
            >::empty());
            assert(all.take(0).filter(found_stale()).map_values(finding_account()) =~= Seq::<
                Account,
            >::empty());
        }
        while i < batch.accounts.len()
            invariant
                i <= batch.accounts.len(),
                all == findings(batch.accounts@, checks@),
                live@ == all.take(i as int).filter(found_live()).map_values(finding_account()),
                stale@ == all.take(i as int).filter(found_stale()).map_values(finding_account()),
            decreases batch.accounts.len() - i,
        {
            proof {
                lemma_filter_step(all, found_live(), i as int);
                lemma_filter_step(all, found_stale(), i as int);
                let l = all.take(i as int).filter(found_live());
                let s = all.take(i as int).filter(found_stale());
                assert(l.push(all[i as int]).map_values(finding_account()) =~= l.map_values(
                    finding_account(),
                ).push(all[i as int].0));
                assert(s.push(all[i as int]).map_values(finding_account()) =~= s.map_values(
                    finding_account(),
                ).push(all[i as int].0));
            }
            let healthy = if i < checks.len() {
                match checks[i] {
                    CheckResult::NotLiquidatable => true,
                    _ => false,
                }
            } else {
                false
            };
            if healthy {
                stale.push(batch.accounts[i]);
            } else {
                live.push(batch.accounts[i]);
            }
            i += 1;
        }
        assert(all.take(batch.accounts.len() as int) == all);
        proof {
            lemma_release_wf(self@, stale@);
        }
        self.in_flight = registry_outside(&self.in_flight, &stale);
        if live.len() == 0 {
            None
        } else {
            Some(AbsorbBatch { accounts: live, fee_bid: batch.fee_bid })
        }
    }

    /// Applies an outcome of class `class`, known at tick `now`, to
    /// `account`. The entry of the account leaves the registry; after a
    /// transient failure the account goes back to the queue, unless it has
    /// used up its attempts.
    pub fn resolve(&mut self, account: Account, class: OutcomeClass, now: u64) -> (r: Resolution)
        requires
            old(self).wf(),
        ensures
            final(self)@ == old(self)@.resolve(account, class, now),
            final(self).wf(),
            r == old(self)@.resolution(account, class, now),
    {
        proof {
            lemma_resolve_wf(self@, account, class, now);
            lemma_entry(self@, account);
        }
        match find_entry(&self.in_flight, &account) {
            None => Resolution::Untracked,
            Some(i) => {
                let e = self.in_flight[i];
                proof {
                    lemma_filter_first(self.in_flight@, entry_of(account), i as int);
                }
                self.in_flight = registry_without(&self.in_flight, &account);
                match terminal_for(&self.config, &e, class) {
                    Some(terminal) => Resolution::Settled(
                        Report {
                            account,
                            terminal,
                            attempt: e.attempts,
                            fee_bid: e.fee_bid,
                            timestamp: now,
                        },
                    ),
                    None => {
                        let c = retry_of(&self.config, &e, class, now);
                        let delay = backoff_delay(
                            self.config.base_delay,
                            e.attempts,
                            self.config.max_delay,
                        );
                        self.queue = queue_placed(&self.queue, c);
                        Resolution::Requeued { delay, attempt: c.attempts, fee_bid: c.fee_bid }
                    },
                }
            },
        }
    }

    /// Applies one outcome, known at tick `now`, to every account of a
    /// batch, in batch order, and returns what it did to each.
    pub fn settle(&mut self, batch: &AbsorbBatch, outcome: &Outcome, now: u64) -> (rs: Vec<
        Resolution,
    >)
        requires
            old(self).wf(),
        ensures
            final(self)@ == old(self)@.settle(batch.accounts@, outcome.class(), now),
            final(self).wf(),
            rs@ == old(self)@.settlements(batch.accounts@, outcome.class(), now),
    {
        let class = outcome.classification();
        let ghost before = self@;
        let mut rs: Vec<Resolution> = Vec::new();
        let mut i: usize = 0;
        assert(batch.accounts@.take(0) =~= Seq::<Account>::empty());
        while i < batch.accounts.len()
            invariant
                i <= batch.accounts.len(),
                self.wf(),
                self@ == before.settle(batch.accounts@.take(i as int), class, now),
                rs@ == before.settlements(batch.accounts@, class, now).take(i as int),
            decreases batch.accounts.len() - i,
        {
            proof {
                assert(batch.accounts@.take(i + 1).drop_last() =~= batch.accounts@.take(i as int));
            }
            let r = self.resolve(batch.accounts[i], class, now);
            rs.push(r);
            proof {
                let all = before.settlements(batch.accounts@, class, now);
                assert(all.take(i + 1) =~= all.take(i as int).push(all[i as int]));
            }
            i += 1;
        }
        assert(batch.accounts@.take(batch.accounts.len() as int) == batch.accounts@);
        proof {
            let all = before.settlements(batch.accounts@, class, now);
            assert(all.take(batch.accounts.len() as int) =~= all);
        }
        rs
    }

    /// Stops admission: from now on eligibility checks are ignored and no
    /// batch is dispatched, while the transactions in flight can still be
    /// settled. Returns the outstanding entries, so that they can be kept
    /// and checked again after a restart.
    pub fn halt(&mut self) -> (r: Vec<InFlightEntry>)
        requires
            old(self).wf(),
        ensures
            final(self)@ == old(self)@.halt(),
            final(self).wf(),
            r@ == old(self)@.in_flight,
    {
        self.admitting = false;
        self.outstanding()
    }
}

} // verus!
