use ternary_voting::TernaryVote;

#[test]
fn test_ternary_vote_roundtrip() {
    for v in [-1i8, 0, 1] {
        assert_eq!(TernaryVote::from_ternary(v).unwrap().to_ternary(), v);
    }
}

#[test]
fn ternary_digits_of_votes() {
    assert_eq!(TernaryVote::For.to_ternary(), 1);
    assert_eq!(TernaryVote::Abstain.to_ternary(), 0);
    assert_eq!(TernaryVote::Against.to_ternary(), -1);
}

#[test]
fn vote_to_digit_and_back() {
    for v in [TernaryVote::For, TernaryVote::Against, TernaryVote::Abstain] {
        assert_eq!(TernaryVote::from_ternary(v.to_ternary()), Some(v));
    }
}

#[test]
fn digits_outside_ternary_are_rejected() {
    assert_eq!(TernaryVote::from_ternary(2), None);
    assert_eq!(TernaryVote::from_ternary(-2), None);
    assert_eq!(TernaryVote::from_ternary(i8::MAX), None);
    assert_eq!(TernaryVote::from_ternary(i8::MIN), None);
}
