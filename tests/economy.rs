use std::collections::HashMap;

use grower_ledger::chat::ChatKey;
use grower_ledger::economy::{amount_per_person, fire, fire_to, gift, FireError, GiftError};
use grower_ledger::ledger::{Ledger, LedgerError};

const NOW: i64 = 1_641_600_000;

fn chat() -> ChatKey {
    ChatKey::Id(7)
}

/// Members 1..=n, member `i` holding `values[i - 1]`.
fn ledger_with(values: &[i32]) -> Ledger {
    let mut ledger = Ledger::new(true);
    for (i, v) in values.iter().enumerate() {
        let uid = i as u64 + 1;
        ledger.upsert_user(uid, format!("member {uid}"), NOW);
        ledger.apply_delta(&chat(), uid, *v, NOW).unwrap();
    }
    ledger
}

#[test]
fn fire_splits_evenly() {
    let mut ledger = ledger_with(&[10, 0, 0, 0]);
    let report = fire(&mut ledger, &chat(), 1, 9, 3, NOW).unwrap();
    assert_eq!(report.amount_per_person, 3);
    assert_eq!(report.delivered.len(), 3);
    assert_eq!(report.transferred(), 9);
    assert_eq!(report.sender_length, 1);
    assert_eq!(ledger.fetch_value(1, &chat()), 1);
    for uid in 2..=4u64 {
        assert_eq!(ledger.fetch_value(uid, &chat()), 3);
    }
    let mut got: Vec<u64> = report.delivered.iter().map(|d| d.0).collect();
    got.sort();
    assert_eq!(got, vec![2, 3, 4]);
}

#[test]
fn fire_too_small_changes_nothing() {
    let mut ledger = ledger_with(&[10, 0, 0, 0]);
    assert_eq!(fire(&mut ledger, &chat(), 1, 2, 3, NOW).err(), Some(FireError::TooSmall));
    assert_eq!(ledger.fetch_value(1, &chat()), 10);
}

#[test]
fn fire_needs_the_whole_total() {
    let mut ledger = ledger_with(&[5, 0, 0, 0]);
    assert_eq!(
        fire(&mut ledger, &chat(), 1, 9, 3, NOW).err(),
        Some(FireError::NotEnough { current: 5, required: 9 })
    );
}

#[test]
fn fire_needs_enough_members() {
    let mut ledger = ledger_with(&[10, 0]);
    assert_eq!(
        fire(&mut ledger, &chat(), 1, 9, 3, NOW).err(),
        Some(FireError::NotEnoughUsers { found: 1, required: 3 })
    );
    assert_eq!(ledger.fetch_value(1, &chat()), 10);
}

#[test]
fn fire_with_one_failed_share() {
    // the third recipient cannot take 3 more without leaving the range
    let mut ledger = ledger_with(&[9, 0, 0, i32::MAX - 1]);
    let report = fire(&mut ledger, &chat(), 1, 9, 3, NOW).unwrap();
    assert_eq!(report.delivered.len(), 2);
    assert_eq!(ledger.fetch_value(1, &chat()), 3);
    assert_eq!(report.sender_length, 3);
    assert_eq!(ledger.fetch_value(4, &chat()), i32::MAX - 1);
    assert!(report.delivered.iter().all(|d| d.0 != 4));
}

#[test]
fn fire_to_skips_failed_shares() {
    let mut ledger = ledger_with(&[9, 0, i32::MAX, 0]);
    let delivered = fire_to(&mut ledger, &chat(), 1, &vec![2, 3, 4], 3, NOW);
    assert_eq!(delivered, vec![(2, 3), (4, 3)]);
    assert_eq!(ledger.fetch_value(1, &chat()), 3);
}

#[test]
fn fire_with_no_transfer_left() {
    let mut ledger = ledger_with(&[9, i32::MAX, i32::MAX]);
    assert_eq!(fire(&mut ledger, &chat(), 1, 6, 2, NOW).err(), Some(FireError::NoTransfers));
    assert_eq!(ledger.fetch_value(1, &chat()), 9);
}

#[test]
fn share_per_person() {
    assert_eq!(amount_per_person(9, 3), Some(3));
    assert_eq!(amount_per_person(10, 3), Some(3));
    assert_eq!(amount_per_person(2, 3), None);
}

#[test]
fn gift_moves_the_amount() {
    let mut ledger = ledger_with(&[10, 2]);
    let (from, to) = gift(&mut ledger, &chat(), 1, Some(2), 4, &HashMap::new(), NOW).unwrap();
    assert_eq!(from.new_length, 6);
    assert_eq!(to.new_length, 6);
}

#[test]
fn gift_refusals() {
    let mut ledger = ledger_with(&[10, 2]);
    let mut restricted = HashMap::new();
    restricted.insert(3u64, "The Bank".to_string());
    ledger.upsert_user(3, "bank".to_string(), NOW);
    ledger.upsert_user(4, "outsider".to_string(), NOW);
    let none = HashMap::new();
    assert_eq!(gift(&mut ledger, &chat(), 1, Some(2), 0, &none, NOW), Err(GiftError::InvalidAmount));
    assert_eq!(gift(&mut ledger, &chat(), 1, None, 1, &none, NOW), Err(GiftError::NoRecipient));
    assert_eq!(gift(&mut ledger, &chat(), 1, Some(1), 1, &none, NOW), Err(GiftError::SamePerson));
    assert_eq!(
        gift(&mut ledger, &chat(), 1, Some(3), 1, &restricted, NOW),
        Err(GiftError::Restricted("The Bank".to_string()))
    );
    assert_eq!(
        gift(&mut ledger, &chat(), 2, Some(1), 5, &none, NOW),
        Err(GiftError::NotEnough { current: 2, required: 5 })
    );
    assert_eq!(gift(&mut ledger, &chat(), 1, Some(4), 1, &none, NOW), Err(GiftError::WrongPerson));
    assert_eq!(ledger.fetch_value(1, &chat()), 10);
}

#[test]
fn gift_failing_transfer() {
    let mut ledger = ledger_with(&[10, i32::MAX]);
    assert_eq!(
        gift(&mut ledger, &chat(), 1, Some(2), 1, &HashMap::new(), NOW),
        Err(GiftError::Failed(LedgerError::OutOfRange))
    );
    assert_eq!(ledger.fetch_value(1, &chat()), 10);
}

#[test]
fn fire_from_unregistered_sender_changes_nothing() {
    let mut ledger = ledger_with(&[10, 0, 0]);
    ledger.purge_user(1);
    // the sender's entry is gone with it; nothing to fire from
    assert_eq!(
        fire(&mut ledger, &chat(), 1, 4, 2, NOW).err(),
        Some(FireError::NotEnough { current: 0, required: 4 })
    );
}
