use liquidator::account::Account;
use liquidator::config::{Config, ErrorKind};
use liquidator::outcome::{classify, CallResult, CheckResult, Outcome, OutcomeClass};
use liquidator::records::{
    AbsorbBatch, AccountState, InFlightEntry, LiquidationCandidate, Report, Resolution, Severity,
    Terminal,
};
use liquidator::scheduler::Scheduler;

fn acct(tag: u8) -> Account {
    let mut bytes = [0u8; 32];
    bytes[31] = tag;
    Account::new(bytes)
}

fn config_with_cap(batch_cap: usize) -> Config {
    Config {
        batch_cap,
        base_delay: 10,
        max_delay: 1_000,
        max_attempts: 5,
        initial_fee: 2,
        fee_factor: 3,
        max_fee: 100,
    }
}

fn scheduler_with_cap(batch_cap: usize) -> Scheduler {
    match Scheduler::new(config_with_cap(batch_cap)) {
        Ok(s) => s,
        Err(e) => panic!("configuration refused: {:?}", e),
    }
}

#[test]
fn absorb_succeeds_on_first_attempt() {
    let x = acct(1);
    let mut s = scheduler_with_cap(4);
    s.observe(x, CheckResult::Liquidatable, 100);
    assert_eq!(s.state_of(&x), AccountState::Candidate);

    let batch = s.dispatch(100);
    assert_eq!(batch, AbsorbBatch { accounts: vec![x], fee_bid: 2 });
    assert_eq!(s.state_of(&x), AccountState::InFlight);

    let to_send = s.revalidate(&batch, &vec![CheckResult::Liquidatable]);
    assert_eq!(to_send, Some(AbsorbBatch { accounts: vec![x], fee_bid: 2 }));

    let outcome = classify(CallResult::Success);
    assert_eq!(outcome, Outcome::Confirmed);
    let done = s.settle(&batch, &outcome, 105);
    assert_eq!(
        done,
        vec![Resolution::Settled(Report {
            account: x,
            terminal: Terminal::Confirmed,
            attempt: 0,
            fee_bid: 2,
            timestamp: 105,
        })]
    );
    assert_eq!(s.state_of(&x), AccountState::Idle);
    assert!(s.outstanding().is_empty());
    assert!(s.candidates().is_empty());
    assert!(s.dispatch(10_000).accounts.is_empty());
}

#[test]
fn revalidation_drops_account_without_attempt() {
    let x = acct(1);
    let mut s = scheduler_with_cap(4);
    s.observe(x, CheckResult::Liquidatable, 100);
    let batch = s.dispatch(100);
    assert_eq!(batch.accounts, vec![x]);

    let to_send = s.revalidate(&batch, &vec![CheckResult::NotLiquidatable]);
    assert_eq!(to_send, None);
    assert_eq!(s.state_of(&x), AccountState::Idle);
    assert!(s.outstanding().is_empty());
    assert!(s.candidates().is_empty());

    s.observe(x, CheckResult::Liquidatable, 200);
    let again = s.candidates();
    assert_eq!(again.len(), 1);
    assert_eq!(again[0].attempts, 0);
    assert_eq!(again[0].fee_bid, 2);
    assert_eq!(again[0].discovered_at, 200);
}

#[test]
fn two_timeouts_then_success() {
    let x = acct(7);
    let mut s = scheduler_with_cap(4);
    s.observe(x, CheckResult::Liquidatable, 100);

    let first = s.dispatch(100);
    let r1 = s.settle(&first, &classify(CallResult::NoResponse), 130);
    assert_eq!(r1, vec![Resolution::Requeued { delay: 10, attempt: 1, fee_bid: 2 }]);
    assert_eq!(s.state_of(&x), AccountState::Candidate);
    assert_eq!(
        s.candidates(),
        vec![LiquidationCandidate {
            account: x,
            discovered_at: 100,
            last_checked_at: 100,
            attempts: 1,
            fee_bid: 2,
            ready_at: 140,
        }]
    );
    assert!(s.dispatch(139).accounts.is_empty());

    let second = s.dispatch(140);
    assert_eq!(second.accounts, vec![x]);
    assert_eq!(
        s.outstanding(),
        vec![InFlightEntry {
            account: x,
            discovered_at: 100,
            attempts: 1,
            last_attempt_at: 140,
            fee_bid: 2,
        }]
    );
    let r2 = s.settle(&second, &Outcome::TimedOut, 170);
    assert_eq!(r2, vec![Resolution::Requeued { delay: 20, attempt: 2, fee_bid: 2 }]);
    assert!(s.dispatch(189).accounts.is_empty());

    let third = s.dispatch(190);
    assert_eq!(third.accounts, vec![x]);
    let r3 = s.settle(&third, &Outcome::Confirmed, 200);
    assert_eq!(
        r3,
        vec![Resolution::Settled(Report {
            account: x,
            terminal: Terminal::Confirmed,
            attempt: 2,
            fee_bid: 2,
            timestamp: 200,
        })]
    );
    assert_eq!(s.state_of(&x), AccountState::Idle);
}

#[test]
fn economic_revert_is_not_retried() {
    let x = acct(3);
    let mut s = scheduler_with_cap(4);
    s.observe(x, CheckResult::Liquidatable, 50);
    let batch = s.dispatch(50);
    let outcome = classify(CallResult::Revert(String::from("insufficient reserves")));
    assert_eq!(outcome, Outcome::Reverted(String::from("insufficient reserves")));
    assert_eq!(outcome.classification(), OutcomeClass::Reverted);
    assert_eq!(outcome.classification().error_kind(), Some(ErrorKind::EconomicRevert));

    let done = s.settle(&batch, &outcome, 60);
    assert_eq!(
        done,
        vec![Resolution::Settled(Report {
            account: x,
            terminal: Terminal::Reverted,
            attempt: 0,
            fee_bid: 2,
            timestamp: 60,
        })]
    );
    assert_eq!(Terminal::Reverted.error_kind(), Some(ErrorKind::EconomicRevert));
    assert_eq!(s.state_of(&x), AccountState::Idle);
    assert!(s.candidates().is_empty());
    assert!(s.dispatch(u64::MAX).accounts.is_empty());
}

#[test]
fn cap_of_one_dispatches_in_discovery_order() {
    let early = acct(9);
    let late = acct(1);
    let mut s = scheduler_with_cap(1);
    s.observe(late, CheckResult::Liquidatable, 20);
    s.observe(early, CheckResult::Liquidatable, 10);

    let b1 = s.dispatch(30);
    assert_eq!(b1.accounts, vec![early]);
    assert_eq!(s.state_of(&late), AccountState::Candidate);
    let b2 = s.dispatch(30);
    assert_eq!(b2.accounts, vec![late]);
    assert!(s.dispatch(30).accounts.is_empty());
}

#[test]
fn simultaneous_discoveries_are_ordered_by_account() {
    let low = acct(1);
    let high = acct(2);
    let mut s = scheduler_with_cap(1);
    s.observe(high, CheckResult::Liquidatable, 10);
    s.observe(low, CheckResult::Liquidatable, 10);
    assert_eq!(s.dispatch(10).accounts, vec![low]);
    assert_eq!(s.dispatch(10).accounts, vec![high]);
}

#[test]
fn stale_revert_counts_as_success() {
    let x = acct(4);
    let mut s = scheduler_with_cap(2);
    s.observe(x, CheckResult::Liquidatable, 1);
    let batch = s.dispatch(1);
    let outcome = classify(CallResult::Revert(String::from("account is not liquidatable")));
    assert_eq!(outcome.classification(), OutcomeClass::NoLongerLiquidatable);
    let done = s.settle(&batch, &outcome, 2);
    assert_eq!(
        done,
        vec![Resolution::Settled(Report {
            account: x,
            terminal: Terminal::NoLongerLiquidatable,
            attempt: 0,
            fee_bid: 2,
            timestamp: 2,
        })]
    );
    assert_eq!(Terminal::NoLongerLiquidatable.error_kind(), Some(ErrorKind::StaleState));
    assert_eq!(Terminal::NoLongerLiquidatable.severity(), Severity::Routine);
    assert_eq!(s.state_of(&x), AccountState::Idle);
}

#[test]
fn repeated_discovery_makes_one_candidate() {
    let x = acct(5);
    let mut s = scheduler_with_cap(2);
    s.observe(x, CheckResult::Liquidatable, 10);
    s.observe(x, CheckResult::Liquidatable, 11);
    s.observe(x, CheckResult::Liquidatable, 12);
    assert_eq!(
        s.candidates(),
        vec![LiquidationCandidate {
            account: x,
            discovered_at: 10,
            last_checked_at: 12,
            attempts: 0,
            fee_bid: 2,
            ready_at: 10,
        }]
    );
    let batch = s.dispatch(12);
    assert_eq!(batch.accounts, vec![x]);
    s.observe(x, CheckResult::Liquidatable, 13);
    s.observe(x, CheckResult::Liquidatable, 14);
    assert_eq!(s.outstanding().len(), 1);
    assert!(s.candidates().is_empty());
    assert_eq!(s.state_of(&x), AccountState::InFlight);
    assert!(s.dispatch(14).accounts.is_empty());
}

#[test]
fn confirmed_account_stays_idle_until_liquidatable_again() {
    let x = acct(6);
    let mut s = scheduler_with_cap(2);
    s.observe(x, CheckResult::Liquidatable, 10);
    let batch = s.dispatch(10);
    s.settle(&batch, &Outcome::Confirmed, 11);
    s.observe(x, CheckResult::NotLiquidatable, 12);
    s.observe(x, CheckResult::NetworkError, 13);
    s.observe(x, CheckResult::NotLiquidatable, 14);
    assert_eq!(s.state_of(&x), AccountState::Idle);
    assert!(s.candidates().is_empty());
    s.observe(x, CheckResult::Liquidatable, 15);
    assert_eq!(s.state_of(&x), AccountState::Candidate);
    assert_eq!(s.candidates()[0].discovered_at, 15);
}

#[test]
fn batch_never_exceeds_cap() {
    let mut s = scheduler_with_cap(3);
    let mut tag: u8 = 0;
    while tag < 10 {
        s.observe(acct(tag), CheckResult::Liquidatable, 100 - tag as u64);
        tag += 1;
    }
    let b1 = s.dispatch(100);
    assert_eq!(b1.accounts, vec![acct(9), acct(8), acct(7)]);
    let b2 = s.dispatch(100);
    assert_eq!(b2.accounts, vec![acct(6), acct(5), acct(4)]);
    let b3 = s.dispatch(100);
    assert_eq!(b3.accounts.len(), 3);
    let b4 = s.dispatch(100);
    assert_eq!(b4.accounts, vec![acct(0)]);
    assert_eq!(s.outstanding().len(), 10);
}

#[test]
fn rejections_escalate_fee_up_to_the_maximum() {
    let x = acct(8);
    let mut s = scheduler_with_cap(1);
    s.observe(x, CheckResult::Liquidatable, 0);
    let rejected = classify(CallResult::Rejected(String::from("fee too low")));
    assert_eq!(rejected, Outcome::RejectedByNode(String::from("fee too low")));
    let mut now: u64 = 0;
    let mut bids: Vec<u64> = Vec::new();
    let mut round = 0;
    while round < 5 {
        let batch = s.dispatch(now);
        assert_eq!(batch.accounts, vec![x]);
        bids.push(batch.fee_bid);
        let rs = s.settle(&batch, &rejected, now);
        match rs[0] {
            Resolution::Requeued { delay, .. } => now += delay,
            other => panic!("expected a retry, got {:?}", other),
        }
        round += 1;
    }
    assert_eq!(bids, vec![2, 6, 18, 54, 100]);
    let last = s.dispatch(now);
    assert_eq!(last.fee_bid, 100);
    let rs = s.settle(&last, &rejected, now);
    assert_eq!(
        rs,
        vec![Resolution::Settled(Report {
            account: x,
            terminal: Terminal::Abandoned,
            attempt: 5,
            fee_bid: 100,
            timestamp: now,
        })]
    );
    assert_eq!(Terminal::Abandoned.severity(), Severity::Elevated);
    assert_eq!(Terminal::Abandoned.error_kind(), Some(ErrorKind::TransientNetwork));
    assert_eq!(s.state_of(&x), AccountState::Idle);
}

#[test]
fn batch_offers_the_highest_bid_of_its_accounts() {
    let a = acct(1);
    let b = acct(2);
    let mut s = scheduler_with_cap(2);
    s.observe(a, CheckResult::Liquidatable, 0);
    let first = s.dispatch(0);
    s.settle(&first, &Outcome::RejectedByNode(String::new()), 0);
    s.observe(b, CheckResult::Liquidatable, 5);
    let both = s.dispatch(10);
    assert_eq!(both, AbsorbBatch { accounts: vec![a, b], fee_bid: 6 });
}

#[test]
fn revalidation_keeps_order_and_releases_only_healthy_accounts() {
    let a = acct(1);
    let b = acct(2);
    let c = acct(3);
    let mut s = scheduler_with_cap(3);
    s.observe(a, CheckResult::Liquidatable, 1);
    s.observe(b, CheckResult::Liquidatable, 2);
    s.observe(c, CheckResult::Liquidatable, 3);
    let batch = s.dispatch(3);
    assert_eq!(batch.accounts, vec![a, b, c]);
    let kept = s.revalidate(&batch, &vec![CheckResult::NetworkError, CheckResult::NotLiquidatable]);
    assert_eq!(kept, Some(AbsorbBatch { accounts: vec![a, c], fee_bid: 2 }));
    assert_eq!(s.state_of(&a), AccountState::InFlight);
    assert_eq!(s.state_of(&b), AccountState::Idle);
    assert_eq!(s.state_of(&c), AccountState::InFlight);
}

#[test]
fn healthy_candidate_is_dropped_from_queue() {
    let a = acct(1);
    let b = acct(2);
    let mut s = scheduler_with_cap(3);
    s.observe(a, CheckResult::Liquidatable, 1);
    s.observe(b, CheckResult::Liquidatable, 2);
    s.observe(a, CheckResult::NotLiquidatable, 3);
    assert_eq!(s.state_of(&a), AccountState::Idle);
    assert_eq!(s.dispatch(3).accounts, vec![b]);
}

#[test]
fn failed_check_changes_nothing() {
    let a = acct(1);
    let mut s = scheduler_with_cap(3);
    s.observe(a, CheckResult::NetworkError, 1);
    assert_eq!(s.state_of(&a), AccountState::Idle);
    s.observe(a, CheckResult::Liquidatable, 2);
    let before = s.candidates();
    s.observe(a, CheckResult::NetworkError, 3);
    assert_eq!(s.candidates(), before);
}

#[test]
fn outcome_for_untracked_account_changes_nothing() {
    let a = acct(1);
    let b = acct(2);
    let mut s = scheduler_with_cap(3);
    s.observe(a, CheckResult::Liquidatable, 1);
    assert_eq!(s.resolve(a, OutcomeClass::TimedOut, 2), Resolution::Untracked);
    assert_eq!(s.resolve(b, OutcomeClass::Confirmed, 2), Resolution::Untracked);
    assert_eq!(s.state_of(&a), AccountState::Candidate);
    assert_eq!(s.candidates()[0].attempts, 0);
}

#[test]
fn one_failure_does_not_touch_other_accounts() {
    let a = acct(1);
    let b = acct(2);
    let mut s = scheduler_with_cap(1);
    s.observe(a, CheckResult::Liquidatable, 1);
    s.observe(b, CheckResult::Liquidatable, 2);
    let ba = s.dispatch(5);
    let bb = s.dispatch(5);
    assert_eq!(ba.accounts, vec![a]);
    assert_eq!(bb.accounts, vec![b]);
    s.settle(&ba, &Outcome::Reverted(String::from("oracle paused")), 6);
    assert_eq!(s.state_of(&a), AccountState::Idle);
    assert_eq!(
        s.outstanding(),
        vec![InFlightEntry {
            account: b,
            discovered_at: 2,
            attempts: 0,
            last_attempt_at: 5,
            fee_bid: 2,
        }]
    );
}

#[test]
fn halt_stops_admission_and_hands_out_outstanding_entries() {
    let a = acct(1);
    let b = acct(2);
    let c = acct(3);
    let mut s = scheduler_with_cap(1);
    s.observe(a, CheckResult::Liquidatable, 1);
    s.observe(b, CheckResult::Liquidatable, 2);
    let batch = s.dispatch(3);
    assert!(s.is_admitting());
    let outstanding = s.halt();
    assert!(!s.is_admitting());
    assert_eq!(
        outstanding,
        vec![InFlightEntry {
            account: a,
            discovered_at: 1,
            attempts: 0,
            last_attempt_at: 3,
            fee_bid: 2,
        }]
    );
    s.observe(c, CheckResult::Liquidatable, 4);
    assert_eq!(s.state_of(&c), AccountState::Idle);
    assert!(s.dispatch(10).accounts.is_empty());
    assert_eq!(s.state_of(&b), AccountState::Candidate);
    let rs = s.settle(&batch, &Outcome::Confirmed, 11);
    assert_eq!(rs.len(), 1);
    assert_eq!(s.state_of(&a), AccountState::Idle);
    assert!(s.outstanding().is_empty());
}

#[test]
fn malformed_configuration_is_fatal() {
    let mut zero_cap = config_with_cap(0);
    assert_eq!(zero_cap.validate(), Err(ErrorKind::FatalConfig));
    assert!(matches!(Scheduler::new(zero_cap), Err(ErrorKind::FatalConfig)));
    zero_cap.batch_cap = 1;
    assert_eq!(zero_cap.validate(), Ok(()));

    let mut shrinking = config_with_cap(1);
    shrinking.fee_factor = 0;
    assert!(matches!(Scheduler::new(shrinking), Err(ErrorKind::FatalConfig)));

    let mut above = config_with_cap(1);
    above.initial_fee = 101;
    assert!(matches!(Scheduler::new(above), Err(ErrorKind::FatalConfig)));

    let ok = Scheduler::new(config_with_cap(1));
    match ok {
        Ok(s) => {
            assert_eq!(s.config(), config_with_cap(1));
            assert!(s.is_admitting());
        }
        Err(e) => panic!("refused: {:?}", e),
    }
    assert!(ErrorKind::FatalConfig.halts_engine());
    assert!(!ErrorKind::TransientNetwork.halts_engine());
    assert!(!ErrorKind::StaleState.halts_engine());
    assert!(!ErrorKind::EconomicRevert.halts_engine());
    assert!(ErrorKind::TransientNetwork.is_retryable());
    assert!(!ErrorKind::EconomicRevert.is_retryable());
    assert!(!ErrorKind::StaleState.is_retryable());
    assert!(!ErrorKind::FatalConfig.is_retryable());
}

#[test]
fn retry_keeps_discovery_priority() {
    let a = acct(1);
    let b = acct(2);
    let mut s = scheduler_with_cap(1);
    s.observe(a, CheckResult::Liquidatable, 1);
    let first = s.dispatch(1);
    s.observe(b, CheckResult::Liquidatable, 2);
    s.settle(&first, &Outcome::TimedOut, 3);
    assert_eq!(s.dispatch(12).accounts, vec![b]);
    assert_eq!(s.dispatch(13).accounts, vec![a]);
}

#[test]
fn zero_retries_abandons_on_first_transient_failure() {
    let a = acct(1);
    let mut cfg = config_with_cap(1);
    cfg.max_attempts = 0;
    let mut s = match Scheduler::new(cfg) {
        Ok(s) => s,
        Err(e) => panic!("refused: {:?}", e),
    };
    s.observe(a, CheckResult::Liquidatable, 1);
    assert_eq!(s.dispatch(1).accounts, vec![a]);
    match s.resolve(a, OutcomeClass::TimedOut, 2) {
        Resolution::Settled(r) => {
            assert_eq!(r.terminal, Terminal::Abandoned);
            assert_eq!(r.attempt, 0);
        }
        other => panic!("expected abandonment, got {:?}", other),
    }
    assert_eq!(s.state_of(&a), AccountState::Idle);
}

#[test]
fn retry_deadline_saturates() {
    let a = acct(1);
    let mut s = scheduler_with_cap(1);
    s.observe(a, CheckResult::Liquidatable, 1);
    s.dispatch(1);
    assert_eq!(
        s.resolve(a, OutcomeClass::TimedOut, u64::MAX - 3),
        Resolution::Requeued { delay: 10, attempt: 1, fee_bid: 2 }
    );
    assert_eq!(s.candidates()[0].ready_at, u64::MAX);
}

#[test]
fn records_can_be_looked_up_by_account() {
    let a = acct(1);
    let b = acct(2);
    let mut s = scheduler_with_cap(1);
    assert_eq!(s.candidate(&a), None);
    assert_eq!(s.entry(&a), None);
    s.observe(a, CheckResult::Liquidatable, 1);
    s.observe(b, CheckResult::Liquidatable, 2);
    s.dispatch(3);
    assert_eq!(s.candidate(&a), None);
    assert_eq!(
        s.entry(&a),
        Some(InFlightEntry {
            account: a,
            discovered_at: 1,
            attempts: 0,
            last_attempt_at: 3,
            fee_bid: 2,
        })
    );
    assert_eq!(s.entry(&b), None);
    assert_eq!(
        s.candidate(&b),
        Some(LiquidationCandidate {
            account: b,
            discovered_at: 2,
            last_checked_at: 2,
            attempts: 0,
            fee_bid: 2,
            ready_at: 2,
        })
    );
}
