use liquidator::policy::{backoff_delay, escalate_fee, saturating_deadline};

#[test]
fn backoff_doubles_per_attempt() {
    assert_eq!(backoff_delay(10, 0, 1_000), 10);
    assert_eq!(backoff_delay(10, 1, 1_000), 20);
    assert_eq!(backoff_delay(10, 2, 1_000), 40);
    assert_eq!(backoff_delay(10, 6, 1_000), 640);
    assert_eq!(backoff_delay(3, 5, 96), 96);
    assert_eq!(backoff_delay(3, 5, 95), 95);
}

#[test]
fn backoff_is_capped() {
    assert_eq!(backoff_delay(10, 7, 1_000), 1_000);
    assert_eq!(backoff_delay(10, 31, 1_000), 1_000);
    assert_eq!(backoff_delay(10, u32::MAX, 1_000), 1_000);
    assert_eq!(backoff_delay(2_000, 0, 1_000), 1_000);
    assert_eq!(backoff_delay(1, 63, u64::MAX), 1u64 << 63);
    assert_eq!(backoff_delay(1, 64, u64::MAX), u64::MAX);
    assert_eq!(backoff_delay(u64::MAX, 0, u64::MAX), u64::MAX);
    assert_eq!(backoff_delay(u64::MAX, 1, u64::MAX), u64::MAX);
}

#[test]
fn backoff_of_zero_base_is_zero() {
    assert_eq!(backoff_delay(0, 0, 1_000), 0);
    assert_eq!(backoff_delay(0, 40, 1_000), 0);
    assert_eq!(backoff_delay(0, u32::MAX, 0), 0);
    assert_eq!(backoff_delay(5, 3, 0), 0);
}

#[test]
fn backoff_never_shrinks_with_attempts() {
    let mut attempt: u32 = 0;
    let mut previous: u64 = 0;
    while attempt < 80 {
        let d = backoff_delay(7, attempt, 5_000);
        assert!(d >= previous);
        assert!(d <= 5_000);
        previous = d;
        attempt += 1;
    }
    assert_eq!(previous, 5_000);
}

#[test]
fn fee_escalation_multiplies_up_to_the_maximum() {
    assert_eq!(escalate_fee(2, 3, 100), 6);
    assert_eq!(escalate_fee(34, 3, 100), 100);
    assert_eq!(escalate_fee(33, 3, 100), 99);
    assert_eq!(escalate_fee(100, 3, 100), 100);
    assert_eq!(escalate_fee(5, 1, 100), 5);
    assert_eq!(escalate_fee(0, 9, 100), 0);
    assert_eq!(escalate_fee(u64::MAX, u64::MAX, u64::MAX), u64::MAX);
    assert_eq!(escalate_fee(1 << 40, 1 << 40, u64::MAX - 1), u64::MAX - 1);
}

#[test]
fn fee_escalation_is_monotone_and_bounded() {
    let mut fee: u64 = 1;
    let mut k = 0;
    while k < 70 {
        let next = escalate_fee(fee, 2, 1_000_000);
        assert!(next >= fee);
        assert!(next <= 1_000_000);
        fee = next;
        k += 1;
    }
    assert_eq!(fee, 1_000_000);
}

#[test]
fn deadline_saturates_at_the_last_tick() {
    assert_eq!(saturating_deadline(100, 40), 140);
    assert_eq!(saturating_deadline(0, 0), 0);
    assert_eq!(saturating_deadline(u64::MAX - 5, 5), u64::MAX);
    assert_eq!(saturating_deadline(u64::MAX - 5, 6), u64::MAX);
    assert_eq!(saturating_deadline(u64::MAX, u64::MAX), u64::MAX);
}
