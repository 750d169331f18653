use liquidator::account::Account;
use liquidator::source::PositionSource;

fn account_no(tag: u8) -> Account {
    Account::new([tag; 32])
}

#[test]
fn new_source_knows_nothing() {
    let s = PositionSource::new();
    assert!(s.accounts().is_empty());
    assert!(!s.is_degraded());
}

#[test]
fn listing_is_merged_without_repeats() {
    let mut s = PositionSource::new();
    let newly = s.refresh(Some(vec![account_no(3), account_no(1), account_no(3), account_no(2)]));
    assert_eq!(newly, vec![account_no(3), account_no(1), account_no(2)]);
    assert_eq!(s.accounts(), vec![account_no(3), account_no(1), account_no(2)]);

    let newly = s.refresh(Some(vec![account_no(2), account_no(4), account_no(1), account_no(4)]));
    assert_eq!(newly, vec![account_no(4)]);
    assert_eq!(
        s.accounts(),
        vec![account_no(3), account_no(1), account_no(2), account_no(4)]
    );

    let newly = s.refresh(Some(Vec::new()));
    assert!(newly.is_empty());
    assert_eq!(s.accounts().len(), 4);
}

#[test]
fn repeated_polling_does_not_grow_the_universe() {
    let mut s = PositionSource::new();
    let mut round = 0;
    while round < 20 {
        s.refresh(Some(vec![account_no(1), account_no(2)]));
        round += 1;
    }
    assert_eq!(s.accounts(), vec![account_no(1), account_no(2)]);
}

#[test]
fn failed_refresh_keeps_last_known_accounts() {
    let mut s = PositionSource::new();
    s.refresh(Some(vec![account_no(1), account_no(2)]));
    let newly = s.refresh(None);
    assert!(newly.is_empty());
    assert!(s.is_degraded());
    assert_eq!(s.accounts(), vec![account_no(1), account_no(2)]);
    s.refresh(Some(vec![account_no(5)]));
    assert!(!s.is_degraded());
    assert_eq!(s.accounts(), vec![account_no(1), account_no(2), account_no(5)]);
}
