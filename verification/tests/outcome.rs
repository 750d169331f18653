use liquidator::config::ErrorKind;
use liquidator::outcome::{
    classify, contains_bytes, mentions_not_liquidatable, CallResult, Outcome, OutcomeClass,
};

#[test]
fn raw_results_are_classified() {
    assert_eq!(classify(CallResult::Success), Outcome::Confirmed);
    assert_eq!(classify(CallResult::NoResponse), Outcome::TimedOut);
    assert_eq!(
        classify(CallResult::Revert(String::from("boom"))),
        Outcome::Reverted(String::from("boom"))
    );
    assert_eq!(
        classify(CallResult::Rejected(String::from("busy"))),
        Outcome::RejectedByNode(String::from("busy"))
    );
}

#[test]
fn outcome_classes() {
    assert_eq!(Outcome::Confirmed.classification(), OutcomeClass::Confirmed);
    assert_eq!(Outcome::TimedOut.classification(), OutcomeClass::TimedOut);
    assert_eq!(
        Outcome::RejectedByNode(String::from("not liquidatable")).classification(),
        OutcomeClass::RejectedByNode
    );
    assert_eq!(
        Outcome::Reverted(String::from("Revert: not liquidatable (health ok)")).classification(),
        OutcomeClass::NoLongerLiquidatable
    );
    assert_eq!(
        Outcome::Reverted(String::from("not liquidatable")).classification(),
        OutcomeClass::NoLongerLiquidatable
    );
    assert_eq!(
        Outcome::Reverted(String::from("Not Liquidatable")).classification(),
        OutcomeClass::Reverted
    );
    assert_eq!(
        Outcome::Reverted(String::from("not  liquidatable")).classification(),
        OutcomeClass::Reverted
    );
    assert_eq!(Outcome::Reverted(String::new()).classification(), OutcomeClass::Reverted);
}

#[test]
fn failure_kinds_of_outcome_classes() {
    assert_eq!(OutcomeClass::Confirmed.error_kind(), None);
    assert_eq!(OutcomeClass::NoLongerLiquidatable.error_kind(), Some(ErrorKind::StaleState));
    assert_eq!(OutcomeClass::Reverted.error_kind(), Some(ErrorKind::EconomicRevert));
    assert_eq!(OutcomeClass::TimedOut.error_kind(), Some(ErrorKind::TransientNetwork));
    assert_eq!(OutcomeClass::RejectedByNode.error_kind(), Some(ErrorKind::TransientNetwork));
}

#[test]
fn phrase_is_found_anywhere_in_the_reason() {
    assert!(mentions_not_liquidatable("not liquidatable"));
    assert!(mentions_not_liquidatable("xnot liquidatable"));
    assert!(mentions_not_liquidatable("not liquidatablex"));
    assert!(mentions_not_liquidatable("é: not liquidatable ✓"));
    assert!(mentions_not_liquidatable("not liquidatnot liquidatable"));
    assert!(!mentions_not_liquidatable(""));
    assert!(!mentions_not_liquidatable("not liquidatabl"));
    assert!(!mentions_not_liquidatable("ot liquidatable"));
    assert!(!mentions_not_liquidatable("liquidatable"));
    assert!(!mentions_not_liquidatable("not_liquidatable"));
}

#[test]
fn byte_search() {
    assert!(contains_bytes(b"", b""));
    assert!(contains_bytes(b"", b"abc"));
    assert!(contains_bytes(b"abc", b"abc"));
    assert!(contains_bytes(b"bc", b"abc"));
    assert!(contains_bytes(b"ab", b"abc"));
    assert!(contains_bytes(b"aab", b"aaab"));
    assert!(!contains_bytes(b"abcd", b"abc"));
    assert!(!contains_bytes(b"ac", b"abc"));
    assert!(!contains_bytes(b"a", b""));
}
