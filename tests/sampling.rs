use grower_ledger::chat::ChatKey;
use grower_ledger::ledger::Ledger;
use grower_ledger::sampling::{
    distinct_indices, members_at, offer_draw, pick_by_weight, random_active_member, random_by_weight,
    random_distinct_indices, random_members,
};

const NOW: i64 = 1_641_600_000;

#[test]
fn distinct_indices_keep_first_draws() {
    assert_eq!(distinct_indices(&vec![3, 1, 3, 2, 0], 3), vec![3, 1, 2]);
    assert_eq!(distinct_indices(&vec![4, 4, 4], 2), vec![4]);
    assert_eq!(distinct_indices(&vec![], 2), Vec::<u64>::new());
}

#[test]
fn offer_draw_skips_repeats() {
    let mut chosen = vec![1];
    assert!(!offer_draw(&mut chosen, 3, 1));
    assert!(offer_draw(&mut chosen, 3, 2));
    assert!(!offer_draw(&mut chosen, 2, 5));
    assert_eq!(chosen, vec![1, 2]);
}

#[test]
fn random_indices_are_distinct_and_in_range() {
    for _ in 0..20 {
        let mut got = random_distinct_indices(5, 5);
        assert_eq!(got.len(), 5);
        got.sort();
        assert_eq!(got, vec![0, 1, 2, 3, 4]);
    }
    assert_eq!(random_distinct_indices(3, 10).len(), 3);
    assert!(random_distinct_indices(0, 3).is_empty());
}

#[test]
fn weight_draw_picks_the_covering_member() {
    let w = vec![2, 0, 3];
    assert_eq!(pick_by_weight(&w, 0), Some(0));
    assert_eq!(pick_by_weight(&w, 1), Some(0));
    assert_eq!(pick_by_weight(&w, 2), Some(2));
    assert_eq!(pick_by_weight(&w, 4), Some(2));
    assert_eq!(pick_by_weight(&w, 5), None);
    assert_eq!(random_by_weight(&vec![0, 0]), None);
    assert_eq!(random_by_weight(&vec![0, 7, 0]), Some(1));
}

fn chat() -> ChatKey {
    ChatKey::Id(1)
}

#[test]
fn random_members_exclude_the_actor() {
    let mut ledger = Ledger::new(true);
    for uid in 1..=4u64 {
        ledger.upsert_user(uid, "m".to_string(), NOW);
        ledger.apply_delta(&chat(), uid, 1, NOW).unwrap();
    }
    let mut got: Vec<u64> = random_members(&ledger, &chat(), Some(2), 3).iter().map(|e| e.user).collect();
    got.sort();
    assert_eq!(got, vec![1, 3, 4]);
    assert_eq!(random_members(&ledger, &chat(), Some(2), 10).len(), 3);
}

#[test]
fn random_active_member_only_from_window() {
    let mut ledger = Ledger::new(true);
    for uid in 1..=3u64 {
        ledger.upsert_user(uid, "m".to_string(), NOW);
    }
    ledger.apply_delta(&chat(), 1, 1, NOW - 30 * 86400).unwrap();
    ledger.apply_delta(&chat(), 2, 1, NOW).unwrap();
    ledger.apply_delta(&chat(), 3, 1, NOW).unwrap();
    let since = NOW - 7 * 86400;
    for _ in 0..10 {
        assert_eq!(random_active_member(&ledger, &chat(), Some(3), since).unwrap().user, 2);
    }
    assert!(random_active_member(&ledger, &ChatKey::Id(9), None, since).is_none());
}

#[test]
fn members_at_resolves_rank_indices() {
    let mut ledger = Ledger::new(true);
    for uid in 1..=4u64 {
        ledger.upsert_user(uid, "m".to_string(), NOW);
        ledger.apply_delta(&chat(), uid, uid as i32, NOW).unwrap();
    }
    // rank order without member 3: 4, 2, 1
    let got: Vec<u64> = members_at(&ledger, &chat(), Some(3), &vec![2, 0]).iter().map(|e| e.user).collect();
    assert_eq!(got, vec![1, 4]);
}

#[test]
fn random_indices_have_exact_length() {
    for total in 0..6u64 {
        for count in 0..8u64 {
            let got = random_distinct_indices(total, count);
            assert_eq!(got.len() as u64, count.min(total));
            let mut sorted = got.clone();
            sorted.sort();
            sorted.dedup();
            assert_eq!(sorted.len(), got.len());
            assert!(got.iter().all(|i| *i < total));
        }
    }
}
