//! The invariants of the scheduler, proved of the abstract state machine.

use crate::account::Account;
use crate::config::Config;
use crate::model::{
    apart, check_at, entry_not_of, entry_of, entry_outside, finding_account, findings,
    found_live, found_stale, fresh, live_accounts, stale_accounts, held_by, launched,
    not_held_by, one_candidate_each, one_entry_each, outside, placed, queue_within, queued,
    ready_by, registry_within, retried, retry_fee, sorted, sorts_after, sorts_before,
    terminal_of, touched, Event, State,
};
use crate::outcome::{CheckResult, OutcomeClass};
use crate::policy::{escalated, lemma_escalated_bounds};
use crate::records::{
    lemma_before_total, lemma_before_transitive, InFlightEntry, LiquidationCandidate, Report,
    Resolution, Terminal,
};
use crate::seqs::{
    lemma_filter_all, lemma_filter_first, lemma_filter_members, lemma_filter_order,
};
use vstd::prelude::*;

verus! {

/// A filtered queue holds only members of the queue that satisfy the
/// predicate, and stays in order and free of duplicates.
pub proof fn lemma_filtered_queue(
    q: Seq<LiquidationCandidate>,
    p: spec_fn(LiquidationCandidate) -> bool,
)
    ensures
        forall|i: int|
            0 <= i < q.filter(p).len() ==> q.contains(#[trigger] q.filter(p)[i]) && p(
                q.filter(p)[i],
            ),
        sorted(q) ==> sorted(q.filter(p)),
        one_candidate_each(q) ==> one_candidate_each(q.filter(p)),
{
    let f = q.filter(p);
    lemma_filter_members(q, p);
    assert forall|i: int| 0 <= i < f.len() implies q.contains(#[trigger] f[i]) && p(f[i]) by {
        assert(f.contains(f[i]));
    }
    if sorted(q) {
        assert forall|i: int, j: int| 0 <= i < j < f.len() implies (#[trigger] f[i]).before(
            #[trigger] f[j],
        ) by {
            lemma_filter_order(q, p, i, j);
        }
    }
    if one_candidate_each(q) {
        assert forall|i: int, j: int| 0 <= i < j < f.len() implies (#[trigger] f[i]).account != (
        #[trigger] f[j]).account by {
            lemma_filter_order(q, p, i, j);
        }
    }
}

/// A filtered registry holds only members of the registry that satisfy the
/// predicate, and stays free of duplicates.
pub proof fn lemma_filtered_registry(r: Seq<InFlightEntry>, p: spec_fn(InFlightEntry) -> bool)
    ensures
        forall|i: int|
            0 <= i < r.filter(p).len() ==> r.contains(#[trigger] r.filter(p)[i]) && p(
                r.filter(p)[i],
            ),
        one_entry_each(r) ==> one_entry_each(r.filter(p)),
{
    let f = r.filter(p);
    lemma_filter_members(r, p);
    assert forall|i: int| 0 <= i < f.len() implies r.contains(#[trigger] f[i]) && p(f[i]) by {
        assert(f.contains(f[i]));
    }
    if one_entry_each(r) {
        assert forall|i: int, j: int| 0 <= i < j < f.len() implies (#[trigger] f[i]).account != (
        #[trigger] f[j]).account by {
            lemma_filter_order(r, p, i, j);
        }
    }
}

/// The candidates before `c` and the others together make up the queue.
pub proof fn lemma_split_len(q: Seq<LiquidationCandidate>, c: LiquidationCandidate)
    ensures
        q.filter(sorts_before(c)).len() + q.filter(sorts_after(c)).len() == q.len(),
    decreases q.len(),
{
    reveal(Seq::filter);
    if q.len() > 0 {
        lemma_split_len(q.drop_last(), c);
    }
}

/// Putting a candidate for an account that is not queued at its place keeps
/// the queue in order and free of duplicates, and adds nothing else.
pub proof fn lemma_placed(q: Seq<LiquidationCandidate>, c: LiquidationCandidate)
    requires
        sorted(q),
        one_candidate_each(q),
        !queued(q, c.account),
    ensures
        sorted(placed(q, c)),
        one_candidate_each(placed(q, c)),
        placed(q, c).len() == q.len() + 1,
        forall|x: LiquidationCandidate|
            #[trigger] placed(q, c).contains(x) <==> x == c || q.contains(x),
{
    let lo = q.filter(sorts_before(c));
    let hi = q.filter(sorts_after(c));
    let r = placed(q, c);
    lemma_filtered_queue(q, sorts_before(c));
    lemma_filtered_queue(q, sorts_after(c));
    assert forall|i: int| 0 <= i < hi.len() implies c.before(#[trigger] hi[i]) by {
        assert(q.contains(hi[i]));
        lemma_before_total(c, hi[i]);
    }
    assert forall|i: int, j: int| 0 <= i < j < r.len() implies (#[trigger] r[i]).before(
        #[trigger] r[j],
    ) by {
        if i < lo.len() && j > lo.len() {
            lemma_before_transitive(lo[i], c, hi[j - lo.len() - 1]);
        }
    }
    assert forall|i: int, j: int| 0 <= i < j < r.len() implies (#[trigger] r[i]).account != (
    #[trigger] r[j]).account by {
        if i < lo.len() {
            assert(q.contains(lo[i]));
        }
        if j > lo.len() {
            assert(q.contains(hi[j - lo.len() - 1]));
        }
    }
    lemma_filter_members(q, sorts_before(c));
    lemma_filter_members(q, sorts_after(c));
    assert forall|x: LiquidationCandidate| #[trigger] r.contains(x) implies x == c || q.contains(
        x,
    ) by {
        let i = choose|i: int| 0 <= i < r.len() && r[i] == x;
        if i < lo.len() {
            assert(lo.contains(lo[i]));
        } else if i > lo.len() {
            assert(hi.contains(hi[i - lo.len() - 1]));
        }
    }
    assert forall|x: LiquidationCandidate| x == c || q.contains(x) implies #[trigger] r.contains(
        x,
    ) by {
        if x == c {
            assert(r[lo.len() as int] == c);
        } else if x.before(c) {
            assert(lo.contains(x));
            let i = choose|i: int| 0 <= i < lo.len() && lo[i] == x;
            assert(r[i] == x);
        } else {
            assert(hi.contains(x));
            let i = choose|i: int| 0 <= i < hi.len() && hi[i] == x;
            assert(r[lo.len() + 1 + i] == x);
        }
    }
    lemma_split_len(q, c);
}

/// An account has an entry to look up exactly when it is in flight, and the
/// entry found is its own.
pub proof fn lemma_entry(s: State, a: Account)
    ensures
        s.entry(a) is Some <==> s.is_in_flight(a),
        s.entry(a) matches Some(e) ==> (s.in_flight.contains(e) && e.account == a),
{
    let found = s.in_flight.filter(entry_of(a));
    lemma_filter_members(s.in_flight, entry_of(a));
    if found.len() > 0 {
        assert(found.contains(found[0]));
        let i = choose|i: int| 0 <= i < s.in_flight.len() && s.in_flight[i] == found[0];
        assert(s.in_flight[i].account == a);
    }
    if s.is_in_flight(a) {
        let i = choose|i: int| 0 <= i < s.in_flight.len() && (#[trigger] s.in_flight[i]).account
            == a;
        assert(s.in_flight.contains(s.in_flight[i]));
        assert(found.contains(s.in_flight[i]));
    }
}

/// A scheduler that has seen nothing satisfies the invariant.
pub proof fn lemma_init_wf(config: Config)
    requires
        config.valid(),
    ensures
        State::init(config).wf(),
{
}

/// Recording the answer of an eligibility check preserves the invariant and
/// never touches the in-flight registry.
pub proof fn lemma_observe_wf(s: State, a: Account, check: CheckResult, now: u64)
    requires
        s.wf(),
    ensures
        s.observe(a, check, now).wf(),
        s.observe(a, check, now).in_flight == s.in_flight,
        s.observe(a, check, now).config == s.config,
        s.observe(a, check, now).admitting == s.admitting,
{
    let t = s.observe(a, check, now);
    if s.admitting {
        match check {
            CheckResult::NetworkError => {},
            CheckResult::Liquidatable => {
                if s.is_in_flight(a) {
                } else if s.is_candidate(a) {
                    assert(t.queue == s.queue.map_values(touched(a, now)));
                    assert forall|i: int| 0 <= i < t.queue.len() implies (#[trigger] t.queue[i])
                        == touched(a, now)(s.queue[i]) by {}
                    assert(sorted(t.queue));
                    assert(one_candidate_each(t.queue));
                    assert(apart(t.queue, t.in_flight));
                    assert(queue_within(t.config, t.queue));
                } else {
                    let c = fresh(s.config, a, now);
                    lemma_placed(s.queue, c);
                    assert forall|i: int| 0 <= i < t.queue.len() implies (#[trigger] t.queue[i])
                        == c || s.queue.contains(t.queue[i]) by {
                        assert(t.queue.contains(t.queue[i]));
                    }
                    assert(apart(t.queue, t.in_flight));
                    assert(queue_within(t.config, t.queue));
                }
            },
            CheckResult::NotLiquidatable => {
                lemma_filtered_queue(s.queue, not_held_by(a));
                assert(apart(t.queue, t.in_flight));
                assert(queue_within(t.config, t.queue));
            },
        }
    }
}

/// What a dispatch takes: at most the batch cap, only ready members of the
/// queue, in dispatch order, no account twice.
pub proof fn lemma_picked(s: State, now: u64)
    requires
        s.wf(),
    ensures
        s.picked(now).len() <= s.config.batch_cap,
        s.picked(now).len() <= s.queue.len(),
        sorted(s.picked(now)),
        one_candidate_each(s.picked(now)),
        forall|i: int|
            0 <= i < s.picked(now).len() ==> s.queue.contains(#[trigger] s.picked(now)[i])
                && s.picked(now)[i].ready_at <= now,
        s.batch_accounts(now).len() == s.picked(now).len(),
{
    let ready = s.queue.filter(ready_by(now));
    lemma_filtered_queue(s.queue, ready_by(now));
    s.queue.lemma_filter_len(ready_by(now));
    let p = s.picked(now);
    assert forall|i: int| 0 <= i < p.len() implies p[i] == ready[i] by {}
}

/// A dispatch preserves the invariant: the picked accounts move from the
/// queue to the registry and are nowhere twice.
pub proof fn lemma_dispatch_wf(s: State, now: u64)
    requires
        s.wf(),
    ensures
        s.dispatch(now).wf(),
        s.dispatch(now).config == s.config,
        s.dispatch(now).admitting == s.admitting,
{
    let t = s.dispatch(now);
    let p = s.picked(now);
    let b = s.batch_accounts(now);
    let n = s.in_flight.len() as int;
    lemma_picked(s, now);
    lemma_filtered_queue(s.queue, outside(b));
    assert forall|k: int| 0 <= k < p.len() implies b.contains(#[trigger] p[k].account) by {
        assert(b[k] == p[k].account);
    }
    assert forall|j: int| n <= j < t.in_flight.len() implies (#[trigger] t.in_flight[j])
        == launched(now)(p[j - n]) by {}
    assert forall|j: int| 0 <= j < n implies (#[trigger] t.in_flight[j]) == s.in_flight[j] by {}
    assert forall|i: int, j: int| 0 <= i < j < t.in_flight.len() implies (
    #[trigger] t.in_flight[i]).account != (#[trigger] t.in_flight[j]).account by {
        if j >= n {
            let c = p[j - n];
            assert(s.queue.contains(c));
            if i >= n {
                assert(p[i - n].account != c.account);
            }
        }
    }
    assert forall|i: int, j: int|
        0 <= i < t.queue.len() && 0 <= j < t.in_flight.len() implies (
    #[trigger] t.queue[i]).account != (#[trigger] t.in_flight[j]).account by {
        assert(s.queue.contains(t.queue[i]));
        assert(!b.contains(t.queue[i].account));
        if j >= n {
            assert(b.contains(p[j - n].account));
        }
    }
    assert forall|i: int| 0 <= i < t.queue.len() implies (#[trigger] t.queue[i]).fee_bid
        <= t.config.max_fee && t.queue[i].attempts <= t.config.max_attempts by {
        assert(s.queue.contains(t.queue[i]));
    }
    assert forall|j: int| 0 <= j < t.in_flight.len() implies (#[trigger] t.in_flight[j]).fee_bid
        <= t.config.max_fee && t.in_flight[j].attempts <= t.config.max_attempts by {
        if j >= n {
            assert(s.queue.contains(p[j - n]));
        }
    }
}

/// Giving up entries preserves the invariant and never touches the queue.
pub proof fn lemma_release_wf(s: State, accounts: Seq<Account>)
    requires
        s.wf(),
    ensures
        s.release(accounts).wf(),
        s.release(accounts).queue == s.queue,
        s.release(accounts).config == s.config,
        s.release(accounts).admitting == s.admitting,
{
    let t = s.release(accounts);
    lemma_filtered_registry(s.in_flight, entry_outside(accounts));
    assert forall|i: int, j: int|
        0 <= i < t.queue.len() && 0 <= j < t.in_flight.len() implies (
    #[trigger] t.queue[i]).account != (#[trigger] t.in_flight[j]).account by {
        assert(s.in_flight.contains(t.in_flight[j]));
    }
    assert forall|j: int| 0 <= j < t.in_flight.len() implies (#[trigger] t.in_flight[j]).fee_bid
        <= t.config.max_fee && t.in_flight[j].attempts <= t.config.max_attempts by {
        assert(s.in_flight.contains(t.in_flight[j]));
    }
}

/// The candidate of a retry respects the fee ceiling and the attempt cap.
pub proof fn lemma_retried_within(config: Config, e: InFlightEntry, class: OutcomeClass, now: u64)
    requires
        config.valid(),
        e.fee_bid <= config.max_fee,
        e.attempts < config.max_attempts,
    ensures
        e.fee_bid <= retried(config, e, class, now).fee_bid <= config.max_fee,
        retried(config, e, class, now).attempts == e.attempts + 1,
        retried(config, e, class, now).attempts <= config.max_attempts,
        class == OutcomeClass::RejectedByNode ==> retry_fee(config, e, class) == escalated(
            e.fee_bid as nat,
            config.fee_factor as nat,
            config.max_fee as nat,
        ),
        class != OutcomeClass::RejectedByNode ==> retry_fee(config, e, class) == e.fee_bid,
{
    lemma_escalated_bounds(e.fee_bid as nat, config.fee_factor as nat, config.max_fee as nat);
}

/// Applying an outcome to an account preserves the invariant, and the
/// account is no longer in flight afterwards.
pub proof fn lemma_resolve_wf(s: State, a: Account, class: OutcomeClass, now: u64)
    requires
        s.wf(),
    ensures
        s.resolve(a, class, now).wf(),
        !s.resolve(a, class, now).is_in_flight(a),
        s.resolve(a, class, now).config == s.config,
        s.resolve(a, class, now).admitting == s.admitting,
{
    let t = s.resolve(a, class, now);
    lemma_entry(s, a);
    match s.entry(a) {
        None => {},
        Some(e) => {
            lemma_filtered_registry(s.in_flight, entry_not_of(a));
            let k = choose|k: int| 0 <= k < s.in_flight.len() && s.in_flight[k] == e;
            assert forall|j: int| 0 <= j < t.in_flight.len() implies s.in_flight.contains(
                #[trigger] t.in_flight[j],
            ) && t.in_flight[j].account != a by {}
            assert(registry_within(t.config, t.in_flight)) by {
                assert forall|j: int| 0 <= j < t.in_flight.len() implies (
                #[trigger] t.in_flight[j]).fee_bid <= t.config.max_fee && t.in_flight[j].attempts
                    <= t.config.max_attempts by {
                    assert(s.in_flight.contains(t.in_flight[j]));
                }
            }
            match terminal_of(s.config, e, class) {
                Some(_) => {
                    assert(apart(t.queue, t.in_flight)) by {
                        assert forall|i: int, j: int|
                            0 <= i < t.queue.len() && 0 <= j < t.in_flight.len() implies (
                        #[trigger] t.queue[i]).account != (#[trigger] t.in_flight[j]).account by {
                            assert(s.in_flight.contains(t.in_flight[j]));
                        }
                    }
                },
                None => {
                    let c = retried(s.config, e, class, now);
                    lemma_retried_within(s.config, e, class, now);
                    assert(!queued(s.queue, a)) by {
                        if queued(s.queue, a) {
                            let i = choose|i: int|
                                0 <= i < s.queue.len() && (#[trigger] s.queue[i]).account == a;
                            assert(s.queue[i].account != s.in_flight[k].account);
                        }
                    }
                    lemma_placed(s.queue, c);
                    assert forall|i: int| 0 <= i < t.queue.len() implies (#[trigger] t.queue[i])
                        == c || s.queue.contains(t.queue[i]) by {
                        assert(t.queue.contains(t.queue[i]));
                    }
                    assert(apart(t.queue, t.in_flight)) by {
                        assert forall|i: int, j: int|
                            0 <= i < t.queue.len() && 0 <= j < t.in_flight.len() implies (
                        #[trigger] t.queue[i]).account != (#[trigger] t.in_flight[j]).account by {
                            assert(s.in_flight.contains(t.in_flight[j]));
                        }
                    }
                    assert(queue_within(t.config, t.queue));
                },
            }
        },
    }
}

/// Applying one outcome to a whole batch preserves the invariant.
pub proof fn lemma_settle_wf(s: State, accounts: Seq<Account>, class: OutcomeClass, now: u64)
    requires
        s.wf(),
    ensures
        s.settle(accounts, class, now).wf(),
        s.settle(accounts, class, now).config == s.config,
        s.settle(accounts, class, now).admitting == s.admitting,
    decreases accounts.len(),
{
    if accounts.len() > 0 {
        lemma_settle_wf(s, accounts.drop_last(), class, now);
        lemma_resolve_wf(s.settle(accounts.drop_last(), class, now), accounts.last(), class, now);
    }
}

/// At most one in-flight entry and at most one candidate exist per account,
/// and never both.
pub proof fn lemma_one_place_per_account(s: State, a: Account)
    requires
        s.wf(),
    ensures
        s.in_flight.filter(entry_of(a)).len() <= 1,
        s.queue.filter(held_by(a)).len() <= 1,
        !(s.is_candidate(a) && s.is_in_flight(a)),
{
    let es = s.in_flight.filter(entry_of(a));
    let cs = s.queue.filter(held_by(a));
    lemma_filtered_registry(s.in_flight, entry_of(a));
    lemma_filtered_queue(s.queue, held_by(a));
    if es.len() >= 2 {
        assert(es[0].account != es[1].account);
    }
    if cs.len() >= 2 {
        assert(cs[0].account != cs[1].account);
    }
}

/// Every call preserves the invariant.
pub proof fn lemma_step_wf(s: State, event: Event)
    requires
        s.wf(),
    ensures
        s.step(event).wf(),
        s.step(event).config == s.config,
{
    match event {
        Event::Observed { account, check, now } => lemma_observe_wf(s, account, check, now),
        Event::Dispatched { now } => lemma_dispatch_wf(s, now),
        Event::Revalidated { accounts, checks } => lemma_release_wf(
            s,
            stale_accounts(accounts, checks),
        ),
        Event::Resolved { account, class, now } => lemma_resolve_wf(s, account, class, now),
        Event::Settled { accounts, class, now } => lemma_settle_wf(s, accounts, class, now),
        Event::Halted => {},
    }
}

/// The invariant holds after any history of calls.
pub proof fn lemma_run_wf(s: State, history: Seq<Event>)
    requires
        s.wf(),
    ensures
        s.run(history).wf(),
        s.run(history).config == s.config,
    decreases history.len(),
{
    if history.len() > 0 {
        lemma_run_wf(s, history.drop_last());
        lemma_step_wf(s.run(history.drop_last()), history.last());
    }
}

/// Whatever calls were made on a scheduler, and in whatever order, no
/// account has more than one in-flight entry, nor more than one candidate,
/// nor one of each.
pub proof fn lemma_never_two_entries(config: Config, history: Seq<Event>, a: Account)
    requires
        config.valid(),
    ensures
        State::init(config).run(history).in_flight.filter(entry_of(a)).len() <= 1,
        State::init(config).run(history).queue.filter(held_by(a)).len() <= 1,
        !(State::init(config).run(history).is_candidate(a) && State::init(config).run(
            history,
        ).is_in_flight(a)),
{
    lemma_init_wf(config);
    lemma_run_wf(State::init(config), history);
    lemma_one_place_per_account(State::init(config).run(history), a);
}

/// No batch is larger than the configured cap, however long the queue.
pub proof fn lemma_batch_within_cap(s: State, now: u64)
    ensures
        s.batch_accounts(now).len() <= s.config.batch_cap,
        s.picked(now).len() <= s.config.batch_cap,
{
}

/// Checks of an idle account that do not find it liquidatable change
/// nothing: no candidate appears until a check reports the account
/// liquidatable.
pub proof fn lemma_idle_account_rests(s: State, a: Account, now: u64)
    requires
        s.wf(),
        s.is_idle(a),
    ensures
        s.observe(a, CheckResult::NotLiquidatable, now) == s,
        s.observe(a, CheckResult::NetworkError, now) == s,
        s.admitting ==> s.observe(a, CheckResult::Liquidatable, now).is_candidate(a),
        !s.admitting ==> s.observe(a, CheckResult::Liquidatable, now) == s,
{
    assert forall|i: int| 0 <= i < s.queue.len() implies not_held_by(a)(#[trigger] s.queue[i]) by {}
    lemma_filter_all(s.queue, not_held_by(a));
    if s.admitting {
        let c = fresh(s.config, a, now);
        lemma_placed(s.queue, c);
        let q = placed(s.queue, c);
        assert(q.contains(c));
        let i = choose|i: int| 0 <= i < q.len() && q[i] == c;
        assert(q[i].account == a);
    }
}

/// Once the absorb of an account is settled for good, the account is idle,
/// and further checks yield no new candidate until one of them reports the
/// account liquidatable again.
pub proof fn lemma_settled_account_rests(
    s: State,
    a: Account,
    class: OutcomeClass,
    now: u64,
    later: u64,
)
    requires
        s.wf(),
        s.resolution(a, class, now) is Settled,
    ensures
        s.resolve(a, class, now).is_idle(a),
        s.resolve(a, class, now).queue == s.queue,
        s.resolve(a, class, now).observe(a, CheckResult::NotLiquidatable, later) == s.resolve(
            a,
            class,
            now,
        ),
        s.resolve(a, class, now).observe(a, CheckResult::NetworkError, later) == s.resolve(
            a,
            class,
            now,
        ),
        s.admitting ==> s.resolve(a, class, now).observe(
            a,
            CheckResult::Liquidatable,
            later,
        ).is_candidate(a),
{
    let done = s.resolve(a, class, now);
    lemma_resolve_wf(s, a, class, now);
    lemma_entry(s, a);
    let e = s.entry(a)->0;
    let k = choose|k: int| 0 <= k < s.in_flight.len() && s.in_flight[k] == e;
    assert(!done.is_candidate(a)) by {
        if queued(s.queue, a) {
            let i = choose|i: int| 0 <= i < s.queue.len() && (#[trigger] s.queue[i]).account == a;
            assert(s.queue[i].account != s.in_flight[k].account);
        }
    }
    lemma_idle_account_rests(done, a, later);
}

/// A node rejection sends the account back to the queue with a fee bid that
/// is the escalation of the bid it had in flight: never lower, and never
/// above the configured maximum. A timeout sends it back with the same bid.
/// Either way the retry counts one more failed attempt and waits for the
/// backoff delay. An account that has used up its attempts is abandoned.
pub proof fn lemma_retry(s: State, a: Account, class: OutcomeClass, now: u64)
    requires
        s.wf(),
        s.is_in_flight(a),
        class == OutcomeClass::RejectedByNode || class == OutcomeClass::TimedOut,
    ensures
        s.entry(a) is Some,
        s.entry(a)->0.attempts >= s.config.max_attempts ==> s.resolution(a, class, now)
            == Resolution::Settled(
            Report {
                account: a,
                terminal: Terminal::Abandoned,
                attempt: s.entry(a)->0.attempts,
                fee_bid: s.entry(a)->0.fee_bid,
                timestamp: now,
            },
        ) && s.resolve(a, class, now).is_idle(a),
        s.entry(a)->0.attempts < s.config.max_attempts ==> {
            &&& s.resolve(a, class, now).candidate(a) == Some(
                retried(s.config, s.entry(a)->0, class, now),
            )
            &&& s.entry(a)->0.fee_bid <= retry_fee(s.config, s.entry(a)->0, class)
                <= s.config.max_fee
            &&& class == OutcomeClass::RejectedByNode ==> retry_fee(s.config, s.entry(a)->0, class)
                == escalated(
                s.entry(a)->0.fee_bid as nat,
                s.config.fee_factor as nat,
                s.config.max_fee as nat,
            )
            &&& class == OutcomeClass::TimedOut ==> retry_fee(s.config, s.entry(a)->0, class)
                == s.entry(a)->0.fee_bid
        },
{
    let t = s.resolve(a, class, now);
    lemma_resolve_wf(s, a, class, now);
    lemma_entry(s, a);
    let e = s.entry(a)->0;
    let k = choose|k: int| 0 <= k < s.in_flight.len() && s.in_flight[k] == e;
    assert(!queued(s.queue, a)) by {
        if queued(s.queue, a) {
            let i = choose|i: int| 0 <= i < s.queue.len() && (#[trigger] s.queue[i]).account == a;
            assert(s.queue[i].account != s.in_flight[k].account);
        }
    }
    if e.attempts < s.config.max_attempts {
        let c = retried(s.config, e, class, now);
        lemma_retried_within(s.config, e, class, now);
        let lo = s.queue.filter(sorts_before(c));
        lemma_filtered_queue(s.queue, sorts_before(c));
        assert(t.queue[lo.len() as int] == c);
        assert forall|j: int| 0 <= j < lo.len() implies !held_by(a)(#[trigger] t.queue[j]) by {
            assert(t.queue[j] == lo[j]);
            assert(s.queue.contains(lo[j]));
        }
        lemma_split_len(s.queue, c);
        lemma_filter_first(t.queue, held_by(a), lo.len() as int);
    }
}

/// A dispatched account enters the registry with the fee bid and the
/// attempt count it had in the queue.
pub proof fn lemma_dispatch_keeps_bid(s: State, now: u64, k: int)
    requires
        s.wf(),
        0 <= k < s.picked(now).len(),
    ensures
        s.dispatch(now).entry(s.picked(now)[k].account) == Some(launched(now)(s.picked(now)[k])),
        launched(now)(s.picked(now)[k]).fee_bid == s.picked(now)[k].fee_bid,
        launched(now)(s.picked(now)[k]).attempts == s.picked(now)[k].attempts,
{
    let t = s.dispatch(now);
    let p = s.picked(now);
    let a = p[k].account;
    let n = s.in_flight.len() as int;
    lemma_picked(s, now);
    assert(s.queue.contains(p[k]));
    assert(t.in_flight[n + k] == launched(now)(p[k]));
    assert forall|j: int| 0 <= j < n + k implies !entry_of(a)(#[trigger] t.in_flight[j]) by {
        if j < n {
            assert(t.in_flight[j] == s.in_flight[j]);
            let i = choose|i: int| 0 <= i < s.queue.len() && s.queue[i] == p[k];
            assert(s.queue[i].account != s.in_flight[j].account);
        } else {
            assert(t.in_flight[j] == launched(now)(p[j - n]));
            assert(p[j - n].account != p[k].account);
        }
    }
    lemma_filter_first(t.in_flight, entry_of(a), n + k);
}

/// An outcome for one account leaves the records of every other account
/// exactly as they were.
pub proof fn lemma_resolve_isolated(s: State, a: Account, class: OutcomeClass, now: u64, b: Account)
    requires
        s.wf(),
        a != b,
    ensures
        forall|c: LiquidationCandidate|
            c.account == b ==> (#[trigger] s.resolve(a, class, now).queue.contains(c)
                <==> s.queue.contains(c)),
        forall|e: InFlightEntry|
            e.account == b ==> (#[trigger] s.resolve(a, class, now).in_flight.contains(e)
                <==> s.in_flight.contains(e)),
        s.resolve(a, class, now).is_candidate(b) <==> s.is_candidate(b),
        s.resolve(a, class, now).is_in_flight(b) <==> s.is_in_flight(b),
{
    let t = s.resolve(a, class, now);
    lemma_entry(s, a);
    match s.entry(a) {
        None => {},
        Some(e) => {
            lemma_filter_members(s.in_flight, entry_not_of(a));
            let k = choose|k: int| 0 <= k < s.in_flight.len() && s.in_flight[k] == e;
            match terminal_of(s.config, e, class) {
                Some(_) => {},
                None => {
                    assert(!queued(s.queue, a)) by {
                        if queued(s.queue, a) {
                            let i = choose|i: int|
                                0 <= i < s.queue.len() && (#[trigger] s.queue[i]).account == a;
                            assert(s.queue[i].account != s.in_flight[k].account);
                        }
                    }
                    lemma_placed(s.queue, retried(s.config, e, class, now));
                },
            }
        },
    }
    lemma_same_members_same_status(s, t, b);
}

/// Two states that hold the same records for an account agree on where the
/// account stands.
proof fn lemma_same_members_same_status(s: State, t: State, b: Account)
    requires
        forall|c: LiquidationCandidate|
            c.account == b ==> (#[trigger] t.queue.contains(c) <==> s.queue.contains(c)),
        forall|e: InFlightEntry|
            e.account == b ==> (#[trigger] t.in_flight.contains(e) <==> s.in_flight.contains(e)),
    ensures
        t.is_candidate(b) <==> s.is_candidate(b),
        t.is_in_flight(b) <==> s.is_in_flight(b),
{
    if s.is_candidate(b) {
        let i = choose|i: int| 0 <= i < s.queue.len() && (#[trigger] s.queue[i]).account == b;
        assert(s.queue.contains(s.queue[i]));
        assert(t.queue.contains(s.queue[i]));
        let k = choose|k: int| 0 <= k < t.queue.len() && t.queue[k] == s.queue[i];
        assert(t.queue[k].account == b);
    }
    if t.is_candidate(b) {
        let i = choose|i: int| 0 <= i < t.queue.len() && (#[trigger] t.queue[i]).account == b;
        assert(t.queue.contains(t.queue[i]));
        assert(s.queue.contains(t.queue[i]));
        let k = choose|k: int| 0 <= k < s.queue.len() && s.queue[k] == t.queue[i];
        assert(s.queue[k].account == b);
    }
    if s.is_in_flight(b) {
        let i = choose|i: int|
            0 <= i < s.in_flight.len() && (#[trigger] s.in_flight[i]).account == b;
        assert(s.in_flight.contains(s.in_flight[i]));
        assert(t.in_flight.contains(s.in_flight[i]));
        let k = choose|k: int| 0 <= k < t.in_flight.len() && t.in_flight[k] == s.in_flight[i];
        assert(t.in_flight[k].account == b);
    }
    if t.is_in_flight(b) {
        let i = choose|i: int|
            0 <= i < t.in_flight.len() && (#[trigger] t.in_flight[i]).account == b;
        assert(t.in_flight.contains(t.in_flight[i]));
        assert(s.in_flight.contains(t.in_flight[i]));
        let k = choose|k: int| 0 <= k < s.in_flight.len() && s.in_flight[k] == t.in_flight[i];
        assert(s.in_flight[k].account == b);
    }
}

/// A tracked account has one fee bid, and it is within the ceiling.
pub proof fn lemma_one_bid(s: State, a: Account, x: u64, y: u64)
    requires
        s.wf(),
        s.bids(a, x),
        s.bids(a, y),
    ensures
        x == y,
        x <= s.config.max_fee,
        s.is_tracked(a),
{
}

/// A candidate of the queue bids what it holds.
proof fn lemma_candidate_bids(s: State, c: LiquidationCandidate, y: u64)
    requires
        s.queue.contains(c),
        c.fee_bid <= y,
    ensures
        s.bids_at_most(c.account, y),
{
    let i = choose|i: int| 0 <= i < s.queue.len() && s.queue[i] == c;
    assert(s.queue[i].account == c.account && s.queue[i].fee_bid == c.fee_bid);
    assert(s.bids(c.account, c.fee_bid));
}

/// An entry of the registry bids what it holds.
proof fn lemma_entry_bids(s: State, e: InFlightEntry, y: u64)
    requires
        s.in_flight.contains(e),
        e.fee_bid <= y,
    ensures
        s.bids_at_most(e.account, y),
{
    let j = choose|j: int| 0 <= j < s.in_flight.len() && s.in_flight[j] == e;
    assert(s.in_flight[j].account == e.account && s.in_flight[j].fee_bid == e.fee_bid);
    assert(s.bids(e.account, e.fee_bid));
}

/// Every state continues itself.
proof fn lemma_continued_self(s: State)
    ensures
        s.continued_by(s),
{
    assert forall|i: int| 0 <= i < s.queue.len() implies s.bids_at_most(
        (#[trigger] s.queue[i]).account,
        s.queue[i].fee_bid,
    ) by {
        assert(s.queue.contains(s.queue[i]));
        lemma_candidate_bids(s, s.queue[i], s.queue[i].fee_bid);
    }
    assert forall|j: int| 0 <= j < s.in_flight.len() implies s.bids_at_most(
        (#[trigger] s.in_flight[j]).account,
        s.in_flight[j].fee_bid,
    ) by {
        assert(s.in_flight.contains(s.in_flight[j]));
        lemma_entry_bids(s, s.in_flight[j], s.in_flight[j].fee_bid);
    }
}

/// Continuation is transitive.
proof fn lemma_continued_twice(s: State, t: State, u: State)
    requires
        s.continued_by(t),
        t.continued_by(u),
    ensures
        s.continued_by(u),
{
    assert forall|a: Account, y: u64| t.bids_at_most(a, y) implies s.bids_at_most(a, y) by {
        let x = choose|x: u64| #[trigger] t.bids(a, x) && x <= y;
        if exists|i: int|
            0 <= i < t.queue.len() && (#[trigger] t.queue[i]).account == a && t.queue[i].fee_bid
                == x {
            let i = choose|i: int|
                0 <= i < t.queue.len() && (#[trigger] t.queue[i]).account == a
                    && t.queue[i].fee_bid == x;
            assert(s.bids_at_most(t.queue[i].account, t.queue[i].fee_bid));
        } else {
            let j = choose|j: int|
                0 <= j < t.in_flight.len() && (#[trigger] t.in_flight[j]).account == a
                    && t.in_flight[j].fee_bid == x;
            assert(s.bids_at_most(t.in_flight[j].account, t.in_flight[j].fee_bid));
        }
        let w = choose|w: u64| #[trigger] s.bids(a, w) && w <= x;
        assert(s.bids(a, w) && w <= y);
    }
}

/// A dispatch only continues records.
proof fn lemma_dispatch_continues(s: State, now: u64)
    requires
        s.wf(),
    ensures
        s.continued_by(s.dispatch(now)),
{
    let t = s.dispatch(now);
    let p = s.picked(now);
    let n = s.in_flight.len() as int;
    lemma_picked(s, now);
    lemma_filtered_queue(s.queue, outside(s.batch_accounts(now)));
    assert forall|i: int| 0 <= i < t.queue.len() implies s.bids_at_most(
        (#[trigger] t.queue[i]).account,
        t.queue[i].fee_bid,
    ) by {
        lemma_candidate_bids(s, t.queue[i], t.queue[i].fee_bid);
    }
    assert forall|j: int| 0 <= j < t.in_flight.len() implies s.bids_at_most(
        (#[trigger] t.in_flight[j]).account,
        t.in_flight[j].fee_bid,
    ) by {
        if j < n {
            assert(t.in_flight[j] == s.in_flight[j]);
            assert(s.in_flight.contains(s.in_flight[j]));
            lemma_entry_bids(s, s.in_flight[j], s.in_flight[j].fee_bid);
        } else {
            assert(t.in_flight[j] == launched(now)(p[j - n]));
            lemma_candidate_bids(s, p[j - n], p[j - n].fee_bid);
        }
    }
}

/// Giving up entries only continues records.
proof fn lemma_release_continues(s: State, accounts: Seq<Account>)
    requires
        s.wf(),
    ensures
        s.continued_by(s.release(accounts)),
{
    let t = s.release(accounts);
    lemma_filtered_registry(s.in_flight, entry_outside(accounts));
    assert forall|i: int| 0 <= i < t.queue.len() implies s.bids_at_most(
        (#[trigger] t.queue[i]).account,
        t.queue[i].fee_bid,
    ) by {
        assert(s.queue.contains(s.queue[i]));
        lemma_candidate_bids(s, t.queue[i], t.queue[i].fee_bid);
    }
    assert forall|j: int| 0 <= j < t.in_flight.len() implies s.bids_at_most(
        (#[trigger] t.in_flight[j]).account,
        t.in_flight[j].fee_bid,
    ) by {
        lemma_entry_bids(s, t.in_flight[j], t.in_flight[j].fee_bid);
    }
}

/// Applying an outcome to an account only continues records: a retry bids
/// no less than the attempt that failed.
proof fn lemma_resolve_continues(s: State, a: Account, class: OutcomeClass, now: u64)
    requires
        s.wf(),
    ensures
        s.continued_by(s.resolve(a, class, now)),
{
    let t = s.resolve(a, class, now);
    lemma_entry(s, a);
    lemma_continued_self(s);
    match s.entry(a) {
        None => {},
        Some(e) => {
            lemma_filtered_registry(s.in_flight, entry_not_of(a));
            assert forall|j: int| 0 <= j < t.in_flight.len() implies s.bids_at_most(
                (#[trigger] t.in_flight[j]).account,
                t.in_flight[j].fee_bid,
            ) by {
                lemma_entry_bids(s, t.in_flight[j], t.in_flight[j].fee_bid);
            }
            match terminal_of(s.config, e, class) {
                Some(_) => {},
                None => {
                    let c = retried(s.config, e, class, now);
                    let k = choose|k: int| 0 <= k < s.in_flight.len() && s.in_flight[k] == e;
                    assert(!queued(s.queue, a)) by {
                        if queued(s.queue, a) {
                            let i = choose|i: int|
                                0 <= i < s.queue.len() && (#[trigger] s.queue[i]).account == a;
                            assert(s.queue[i].account != s.in_flight[k].account);
                        }
                    }
                    lemma_placed(s.queue, c);
                    lemma_retried_within(s.config, e, class, now);
                    assert forall|i: int| 0 <= i < t.queue.len() implies s.bids_at_most(
                        (#[trigger] t.queue[i]).account,
                        t.queue[i].fee_bid,
                    ) by {
                        assert(t.queue.contains(t.queue[i]));
                        if t.queue[i] == c {
                            lemma_entry_bids(s, e, c.fee_bid);
                        } else {
                            lemma_candidate_bids(s, t.queue[i], t.queue[i].fee_bid);
                        }
                    }
                },
            }
        },
    }
}

/// Applying one outcome to a batch only continues records.
proof fn lemma_settle_continues(s: State, accounts: Seq<Account>, class: OutcomeClass, now: u64)
    requires
        s.wf(),
    ensures
        s.continued_by(s.settle(accounts, class, now)),
    decreases accounts.len(),
{
    if accounts.len() == 0 {
        lemma_continued_self(s);
    } else {
        let mid = s.settle(accounts.drop_last(), class, now);
        lemma_settle_continues(s, accounts.drop_last(), class, now);
        lemma_settle_wf(s, accounts.drop_last(), class, now);
        lemma_resolve_continues(mid, accounts.last(), class, now);
        lemma_continued_twice(s, mid, s.settle(accounts, class, now));
    }
}

/// What an account bids in a continuation, it bid at most before.
proof fn lemma_continued_bid(s: State, t: State, a: Account, y: u64)
    requires
        s.continued_by(t),
        t.bids(a, y),
    ensures
        s.bids_at_most(a, y),
{
    if exists|i: int|
        0 <= i < t.queue.len() && (#[trigger] t.queue[i]).account == a && t.queue[i].fee_bid == y {
        let i = choose|i: int|
            0 <= i < t.queue.len() && (#[trigger] t.queue[i]).account == a && t.queue[i].fee_bid
                == y;
        assert(s.bids_at_most(t.queue[i].account, t.queue[i].fee_bid));
    } else {
        let j = choose|j: int|
            0 <= j < t.in_flight.len() && (#[trigger] t.in_flight[j]).account == a
                && t.in_flight[j].fee_bid == y;
        assert(s.bids_at_most(t.in_flight[j].account, t.in_flight[j].fee_bid));
    }
}

/// No call lowers the fee bid of an account that it leaves tracked: if the
/// account was tracked before the call and bids `y` after it, it bid no
/// more than `y` before, and `y` is within the configured maximum.
pub proof fn lemma_step_keeps_bids(s: State, event: Event, a: Account, y: u64)
    requires
        s.wf(),
        s.is_tracked(a),
        s.step(event).bids(a, y),
    ensures
        s.bids_at_most(a, y),
        y <= s.config.max_fee,
{
    let t = s.step(event);
    lemma_step_wf(s, event);
    lemma_one_bid(t, a, y, y);
    match event {
        Event::Observed { account, check, now } => {
            lemma_observe_continues(s, account, check, now, a, y);
            assert(s.bids(a, y) && y <= y);
        },
        Event::Dispatched { now } => {
            lemma_dispatch_continues(s, now);
            lemma_continued_bid(s, t, a, y);
        },
        Event::Revalidated { accounts, checks } => {
            lemma_release_continues(s, stale_accounts(accounts, checks));
            lemma_continued_bid(s, t, a, y);
        },
        Event::Resolved { account, class, now } => {
            lemma_resolve_continues(s, account, class, now);
            lemma_continued_bid(s, t, a, y);
        },
        Event::Settled { accounts, class, now } => {
            lemma_settle_continues(s, accounts, class, now);
            lemma_continued_bid(s, t, a, y);
        },
        Event::Halted => {
            assert(t.queue == s.queue && t.in_flight == s.in_flight);
            assert(s.bids(a, y) && y <= y);
        },
    }
}

/// Recording a check keeps the fee bid of every account that was tracked.
proof fn lemma_observe_continues(
    s: State,
    b: Account,
    check: CheckResult,
    now: u64,
    a: Account,
    y: u64,
)
    requires
        s.wf(),
        s.is_tracked(a),
        s.observe(b, check, now).bids(a, y),
    ensures
        s.bids(a, y),
{
    let t = s.observe(b, check, now);
    lemma_observe_wf(s, b, check, now);
    if s.admitting {
        match check {
            CheckResult::NetworkError => {},
            CheckResult::Liquidatable => {
                if s.is_in_flight(b) {
                } else if s.is_candidate(b) {
                    assert forall|i: int| 0 <= i < t.queue.len() implies (#[trigger] t.queue[i])
                        == touched(b, now)(s.queue[i]) by {}
                    if exists|i: int|
                        0 <= i < t.queue.len() && (#[trigger] t.queue[i]).account == a
                            && t.queue[i].fee_bid == y {
                        let i = choose|i: int|
                            0 <= i < t.queue.len() && (#[trigger] t.queue[i]).account == a
                                && t.queue[i].fee_bid == y;
                        assert(s.queue[i].account == a && s.queue[i].fee_bid == y);
                    }
                } else {
                    let c = fresh(s.config, b, now);
                    lemma_placed(s.queue, c);
                    if exists|i: int|
                        0 <= i < t.queue.len() && (#[trigger] t.queue[i]).account == a
                            && t.queue[i].fee_bid == y {
                        let i = choose|i: int|
                            0 <= i < t.queue.len() && (#[trigger] t.queue[i]).account == a
                                && t.queue[i].fee_bid == y;
                        assert(t.queue.contains(t.queue[i]));
                        if t.queue[i] == c {
                            assert(a == b);
                            assert(false);
                        } else {
                            let k = choose|k: int|
                                0 <= k < s.queue.len() && s.queue[k] == t.queue[i];
                            assert(s.queue[k].account == a && s.queue[k].fee_bid == y);
                        }
                    }
                }
            },
            CheckResult::NotLiquidatable => {
                lemma_filtered_queue(s.queue, not_held_by(b));
                if exists|i: int|
                    0 <= i < t.queue.len() && (#[trigger] t.queue[i]).account == a
                        && t.queue[i].fee_bid == y {
                    let i = choose|i: int|
                        0 <= i < t.queue.len() && (#[trigger] t.queue[i]).account == a
                            && t.queue[i].fee_bid == y;
                    let k = choose|k: int| 0 <= k < s.queue.len() && s.queue[k] == t.queue[i];
                    assert(s.queue[k].account == a && s.queue[k].fee_bid == y);
                }
            },
        }
    }
}

/// Over any history of calls during which an account stays tracked, its
/// fee bid never drops and never exceeds the configured maximum. In
/// particular this holds across any number of consecutive node rejections.
pub proof fn lemma_bid_never_drops(s: State, history: Seq<Event>, a: Account, x: u64, y: u64)
    requires
        s.wf(),
        s.stays_tracked(history, a),
        s.bids(a, x),
        s.run(history).bids(a, y),
    ensures
        x <= y <= s.config.max_fee,
    decreases history.len(),
{
    if history.len() == 0 {
        lemma_one_bid(s, a, x, y);
    } else {
        let before = history.drop_last();
        let mid = s.run(before);
        lemma_run_wf(s, before);
        assert(history.take(history.len() as int) == history);
        assert(history.take(history.len() - 1) == before);
        assert(mid.is_tracked(a));
        assert(s.stays_tracked(before, a)) by {
            assert forall|k: int| 0 <= k <= before.len() implies (#[trigger] s.run(
                before.take(k),
            )).is_tracked(a) by {
                assert(before.take(k) == history.take(k));
            }
        }
        lemma_step_keeps_bids(mid, history.last(), a, y);
        let w = choose|w: u64| #[trigger] mid.bids(a, w) && w <= y;
        lemma_bid_never_drops(s, before, a, x, w);
    }
}

/// Once admission is stopped, checks are ignored and nothing is dispatched.
pub proof fn lemma_halted_admits_nothing(s: State, a: Account, check: CheckResult, now: u64)
    requires
        !s.admitting,
    ensures
        s.observe(a, check, now) == s,
        s.dispatch(now) == s,
        s.batch_accounts(now) == Seq::<Account>::empty(),
        s.halt() == s,
{
    let none = Seq::<Account>::empty();
    assert(s.batch_accounts(now) =~= none);
    assert forall|i: int| 0 <= i < s.queue.len() implies outside(none)(#[trigger] s.queue[i]) by {}
    lemma_filter_all(s.queue, outside(none));
    assert(s.dispatch(now).in_flight =~= s.in_flight);
}

/// Which accounts of a batch re-validation drops, and which it keeps: an
/// account is dropped where its check found it healthy, kept where its
/// check said anything else or was never made.
pub proof fn lemma_revalidated_accounts(
    accounts: Seq<Account>,
    checks: Seq<CheckResult>,
    a: Account,
)
    ensures
        stale_accounts(accounts, checks).contains(a) <==> exists|i: int|
            0 <= i < accounts.len() && accounts[i] == a && #[trigger] check_at(checks, i)
                == CheckResult::NotLiquidatable,
        live_accounts(accounts, checks).contains(a) <==> exists|i: int|
            0 <= i < accounts.len() && accounts[i] == a && #[trigger] check_at(checks, i)
                != CheckResult::NotLiquidatable,
        stale_accounts(accounts, checks).len() + live_accounts(accounts, checks).len()
            == accounts.len(),
{
    let all = findings(accounts, checks);
    let stale = all.filter(found_stale());
    let live = all.filter(found_live());
    lemma_filter_members(all, found_stale());
    lemma_filter_members(all, found_live());
    if stale_accounts(accounts, checks).contains(a) {
        let k = choose|k: int|
            0 <= k < stale.len() && stale.map_values(finding_account())[k] == a;
        assert(stale.contains(stale[k]));
        let i = choose|i: int| 0 <= i < all.len() && all[i] == stale[k];
        assert(accounts[i] == a && check_at(checks, i) == CheckResult::NotLiquidatable);
    }
    if exists|i: int|
        0 <= i < accounts.len() && accounts[i] == a && #[trigger] check_at(checks, i)
            == CheckResult::NotLiquidatable {
        let i = choose|i: int|
            0 <= i < accounts.len() && accounts[i] == a && #[trigger] check_at(checks, i)
                == CheckResult::NotLiquidatable;
        assert(all.contains(all[i]));
        assert(stale.contains(all[i]));
        let k = choose|k: int| 0 <= k < stale.len() && stale[k] == all[i];
        assert(stale.map_values(finding_account())[k] == a);
    }
    if live_accounts(accounts, checks).contains(a) {
        let k = choose|k: int| 0 <= k < live.len() && live.map_values(finding_account())[k] == a;
        assert(live.contains(live[k]));
        let i = choose|i: int| 0 <= i < all.len() && all[i] == live[k];
        assert(accounts[i] == a && check_at(checks, i) != CheckResult::NotLiquidatable);
    }
    if exists|i: int|
        0 <= i < accounts.len() && accounts[i] == a && #[trigger] check_at(checks, i)
            != CheckResult::NotLiquidatable {
        let i = choose|i: int|
            0 <= i < accounts.len() && accounts[i] == a && #[trigger] check_at(checks, i)
                != CheckResult::NotLiquidatable;
        assert(all.contains(all[i]));
        assert(live.contains(all[i]));
        let k = choose|k: int| 0 <= k < live.len() && live[k] == all[i];
        assert(live.map_values(finding_account())[k] == a);
    }
    lemma_findings_split(all);
}

/// The findings that show an account healthy and the others together make
/// up all findings.
proof fn lemma_findings_split(all: Seq<(Account, CheckResult)>)
    ensures
        all.filter(found_stale()).len() + all.filter(found_live()).len() == all.len(),
    decreases all.len(),
{
    reveal(Seq::filter);
    if all.len() > 0 {
        lemma_findings_split(all.drop_last());
    }
}

/// Re-validation gives up exactly the entries of the accounts it found
/// healthy: such an account is idle afterwards, with no attempt counted
/// anywhere; every other entry, and the whole queue, stay as they were.
pub proof fn lemma_revalidate_effect(
    s: State,
    accounts: Seq<Account>,
    checks: Seq<CheckResult>,
    a: Account,
)
    requires
        s.wf(),
    ensures
        s.revalidate(accounts, checks).queue == s.queue,
        stale_accounts(accounts, checks).contains(a) ==> !s.revalidate(
            accounts,
            checks,
        ).is_in_flight(a),
        stale_accounts(accounts, checks).contains(a) && s.is_in_flight(a) ==> s.revalidate(
            accounts,
            checks,
        ).is_idle(a),
        !stale_accounts(accounts, checks).contains(a) ==> forall|e: InFlightEntry|
            e.account == a ==> (#[trigger] s.revalidate(accounts, checks).in_flight.contains(e)
                <==> s.in_flight.contains(e)),
{
    let stale = stale_accounts(accounts, checks);
    let t = s.revalidate(accounts, checks);
    lemma_filtered_registry(s.in_flight, entry_outside(stale));
    lemma_filter_members(s.in_flight, entry_outside(stale));
    if stale.contains(a) && t.is_in_flight(a) {
        let j = choose|j: int|
            0 <= j < t.in_flight.len() && (#[trigger] t.in_flight[j]).account == a;
        assert(entry_outside(stale)(t.in_flight[j]));
    }
    if s.is_in_flight(a) && queued(s.queue, a) {
        let i = choose|i: int| 0 <= i < s.queue.len() && (#[trigger] s.queue[i]).account == a;
        let j = choose|j: int|
            0 <= j < s.in_flight.len() && (#[trigger] s.in_flight[j]).account == a;
        assert(s.queue[i].account != s.in_flight[j].account);
    }
}

} // verus!
