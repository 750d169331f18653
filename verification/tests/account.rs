use liquidator::account::Account;
use liquidator::records::LiquidationCandidate;

fn with_byte(index: usize, value: u8) -> Account {
    let mut bytes = [0u8; 32];
    bytes[index] = value;
    Account::new(bytes)
}

fn candidate_of(account: Account, discovered_at: u64) -> LiquidationCandidate {
    LiquidationCandidate {
        account,
        discovered_at,
        last_checked_at: discovered_at,
        attempts: 0,
        fee_bid: 0,
        ready_at: discovered_at,
    }
}

#[test]
fn account_keeps_its_bytes() {
    let mut bytes = [0u8; 32];
    bytes[0] = 0xab;
    bytes[31] = 0xcd;
    assert_eq!(Account::new(bytes).bytes, bytes);
}

#[test]
fn accounts_are_the_same_when_all_bytes_agree() {
    assert!(with_byte(0, 0).same(&with_byte(31, 0)));
    assert!(with_byte(7, 9).same(&with_byte(7, 9)));
    assert!(!with_byte(31, 1).same(&with_byte(31, 2)));
    assert!(!with_byte(0, 1).same(&with_byte(31, 1)));
}

#[test]
fn accounts_are_ordered_by_their_first_differing_byte() {
    assert!(with_byte(31, 1).comes_before(&with_byte(31, 2)));
    assert!(!with_byte(31, 2).comes_before(&with_byte(31, 1)));
    assert!(!with_byte(31, 2).comes_before(&with_byte(31, 2)));
    assert!(with_byte(31, 255).comes_before(&with_byte(0, 1)));
    assert!(!with_byte(0, 1).comes_before(&with_byte(31, 255)));
    assert!(with_byte(5, 200).comes_before(&with_byte(4, 1)));
}

#[test]
fn membership_in_a_list_of_accounts() {
    let list = vec![with_byte(1, 1), with_byte(2, 2)];
    assert!(with_byte(2, 2).is_among(&list));
    assert!(!with_byte(3, 3).is_among(&list));
    assert!(!with_byte(3, 3).is_among(&Vec::new()));
}

#[test]
fn candidates_are_ordered_by_discovery_then_account() {
    let a = with_byte(31, 1);
    let b = with_byte(31, 2);
    assert!(candidate_of(b, 1).goes_before(&candidate_of(a, 2)));
    assert!(!candidate_of(a, 2).goes_before(&candidate_of(b, 1)));
    assert!(candidate_of(a, 5).goes_before(&candidate_of(b, 5)));
    assert!(!candidate_of(b, 5).goes_before(&candidate_of(a, 5)));
    assert!(!candidate_of(a, 5).goes_before(&candidate_of(a, 5)));
}
