use winners_extractor::checkpoint::{copy_bytes, open_round, same_bytes, PendingDistribution};
use winners_extractor::error::EngineError;

fn token(name: &str) -> Vec<u8> {
    name.as_bytes().to_vec()
}

#[test]
fn open_splits_the_deposit_evenly() {
    let round = PendingDistribution::open(token("X"), 4, 30, 3).unwrap();
    assert_eq!(round.payment, token("X"));
    assert_eq!(round.payment_nonce, 4);
    assert_eq!(round.per_user, 10);
    assert_eq!(round.current_number, 0);
    assert_eq!(round.target, 3);
    assert_eq!(round.per_user * round.target as u128, 30);
    assert!(round.is_wf());
}

#[test]
fn open_with_one_recipient_gives_everything() {
    let round = PendingDistribution::open(token("X"), 0, u128::MAX, 1).unwrap();
    assert_eq!(round.per_user, u128::MAX);
    assert_eq!(round.target, 1);
    assert!(round.is_wf());
}

#[test]
fn open_with_a_share_of_one() {
    let round = PendingDistribution::open(token("X"), 0, 7, 7).unwrap();
    assert_eq!(round.per_user, 1);
    assert_eq!(round.target, 7);
}

#[test]
fn open_refuses_zero_recipients() {
    assert_eq!(
        PendingDistribution::open(token("X"), 0, 30, 0).unwrap_err(),
        EngineError::ZeroRecipients
    );
    assert_eq!(
        PendingDistribution::open(token("X"), 0, 0, 0).unwrap_err(),
        EngineError::ZeroRecipients
    );
}

#[test]
fn open_refuses_a_share_of_nothing() {
    assert_eq!(
        PendingDistribution::open(token("X"), 0, 2, 3).unwrap_err(),
        EngineError::ZeroPerRecipientAmount
    );
    assert_eq!(
        PendingDistribution::open(token("X"), 0, 0, 3).unwrap_err(),
        EngineError::ZeroPerRecipientAmount
    );
}

#[test]
fn open_refuses_a_remainder() {
    assert_eq!(
        PendingDistribution::open(token("X"), 0, 10, 3).unwrap_err(),
        EngineError::RemainderMismatch
    );
    assert_eq!(
        PendingDistribution::open(token("X"), 0, 31, 3).unwrap_err(),
        EngineError::RemainderMismatch
    );
    assert_eq!(
        PendingDistribution::open(token("X"), 0, u128::MAX, 2).unwrap_err(),
        EngineError::RemainderMismatch
    );
}

#[test]
fn open_round_fills_an_empty_slot() {
    let mut slot = None;
    assert_eq!(open_round(&mut slot, token("X"), 1, 30, 3), Ok(()));
    let round = slot.unwrap();
    assert_eq!(round.payment, token("X"));
    assert_eq!(round.payment_nonce, 1);
    assert_eq!(round.per_user, 10);
    assert_eq!(round.current_number, 0);
    assert_eq!(round.target, 3);
}

#[test]
fn open_round_for_the_same_asset_keeps_the_round_in_flight() {
    let mut slot = Some(PendingDistribution {
        payment: token("X"),
        payment_nonce: 1,
        per_user: 10,
        current_number: 2,
        target: 3,
    });
    assert_eq!(open_round(&mut slot, token("X"), 1, 100, 4), Ok(()));
    let round = slot.unwrap();
    assert_eq!(round.payment, token("X"));
    assert_eq!(round.payment_nonce, 1);
    assert_eq!(round.per_user, 10);
    assert_eq!(round.current_number, 2);
    assert_eq!(round.target, 3);
}

#[test]
fn open_round_for_another_asset_is_refused() {
    let mut slot = Some(PendingDistribution {
        payment: token("X"),
        payment_nonce: 1,
        per_user: 10,
        current_number: 2,
        target: 3,
    });
    assert_eq!(open_round(&mut slot, token("Y"), 1, 30, 3), Err(EngineError::RoundAlreadyActive));
    assert_eq!(open_round(&mut slot, token("X"), 2, 30, 3), Err(EngineError::RoundAlreadyActive));
    let round = slot.unwrap();
    assert_eq!(round.payment, token("X"));
    assert_eq!(round.payment_nonce, 1);
    assert_eq!(round.current_number, 2);
}

#[test]
fn open_round_validates_the_deposit_first() {
    let mut slot = Some(PendingDistribution {
        payment: token("X"),
        payment_nonce: 1,
        per_user: 10,
        current_number: 2,
        target: 3,
    });
    assert_eq!(open_round(&mut slot, token("Y"), 1, 10, 3), Err(EngineError::RemainderMismatch));
    assert_eq!(open_round(&mut slot, token("X"), 1, 2, 3), Err(EngineError::ZeroPerRecipientAmount));
    assert_eq!(open_round(&mut slot, token("X"), 1, 30, 0), Err(EngineError::ZeroRecipients));
    assert_eq!(slot.unwrap().current_number, 2);
    let mut empty = None;
    assert_eq!(open_round(&mut empty, token("X"), 1, 10, 3), Err(EngineError::RemainderMismatch));
    assert!(empty.is_none());
}

#[test]
fn pays_compares_token_and_nonce() {
    let round = PendingDistribution::open(token("TOKEN-123456"), 9, 8, 2).unwrap();
    assert!(round.pays(&token("TOKEN-123456"), 9));
    assert!(!round.pays(&token("TOKEN-123456"), 8));
    assert!(!round.pays(&token("TOKEN-123457"), 9));
    assert!(!round.pays(&token("TOKEN"), 9));
}

#[test]
fn is_wf_tells_broken_checkpoints() {
    let good = PendingDistribution {
        payment: token("X"),
        payment_nonce: 0,
        per_user: 10,
        current_number: 3,
        target: 3,
    };
    assert!(good.is_wf());
    let no_share = PendingDistribution {
        payment: token("X"),
        payment_nonce: 0,
        per_user: 0,
        current_number: 0,
        target: 3,
    };
    assert!(!no_share.is_wf());
    let overpaid = PendingDistribution {
        payment: token("X"),
        payment_nonce: 0,
        per_user: 10,
        current_number: 4,
        target: 3,
    };
    assert!(!overpaid.is_wf());
    let too_much = PendingDistribution {
        payment: token("X"),
        payment_nonce: 0,
        per_user: u128::MAX,
        current_number: 0,
        target: 2,
    };
    assert!(!too_much.is_wf());
}

#[test]
fn same_bytes_compares_whole_strings() {
    assert!(same_bytes(&vec![], &vec![]));
    assert!(same_bytes(&vec![1, 2, 3], &vec![1, 2, 3]));
    assert!(!same_bytes(&vec![1, 2, 3], &vec![1, 2, 4]));
    assert!(!same_bytes(&vec![1, 2, 3], &vec![1, 2]));
    assert!(!same_bytes(&vec![], &vec![0]));
}

#[test]
fn copy_bytes_copies() {
    assert_eq!(copy_bytes(&vec![]), Vec::<u8>::new());
    assert_eq!(copy_bytes(&vec![9, 8, 7]), vec![9, 8, 7]);
}
