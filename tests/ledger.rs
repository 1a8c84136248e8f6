use grower_ledger::board::LedgerEntry;
use grower_ledger::chat::ChatKey;
use grower_ledger::ledger::{Ledger, LedgerError, TopPage, TransferKind};

const UID: u64 = 1;
const CHAT_ID: i64 = 100;
const NAME: &str = "Test User";
const TODAY: i64 = 19_000;
const NOW: i64 = 1_641_600_000;

fn chat() -> ChatKey {
    ChatKey::Id(CHAT_ID)
}

fn create_user(ledger: &mut Ledger, uid: u64, name: &str) {
    ledger.upsert_user(uid, name.to_string(), NOW);
}

fn check_top(ledger: &Ledger, length: i32) {
    let top = ledger.top_page(&chat(), 0, 1);
    assert_eq!(top.rows.len(), 1);
    assert_eq!(top.rows[0].entry.value, length);
    assert_eq!(top.rows[0].entry.user, UID);
    assert_eq!(top.rows[0].name, NAME);
}

fn run_all(ranking: bool) {
    let mut ledger = Ledger::new(ranking);
    create_user(&mut ledger, UID, NAME);
    let top = ledger.top_page(&chat(), 0, 1);
    assert_eq!(top.rows.len(), 0);

    let increment = 5;
    let growth = ledger.grow(&chat(), UID, increment, TODAY, NOW).expect("couldn't grow");
    assert_eq!(growth.pos_in_top, if ranking { Some(1) } else { None });
    assert_eq!(growth.new_length, increment);
    check_top(&ledger, increment);

    // the daily winner receives a bonus of the same size
    let growth = ledger.apply_delta(&chat(), UID, increment, NOW).expect("couldn't elect a winner");
    assert_eq!(growth.pos_in_top, if ranking { Some(1) } else { None });
    let new_length = 2 * increment;
    assert_eq!(growth.new_length, new_length);
    check_top(&ledger, new_length);
}

#[test]
fn dicks_test_all() {
    run_all(true);
}

#[test]
fn test_all_with_top_pagination_disabled() {
    run_all(false);
}

#[test]
fn test_top_page() {
    let mut ledger = Ledger::new(true);
    let user2_name = format!("{NAME} 2");
    create_user(&mut ledger, UID, NAME);
    ledger.grow(&chat(), UID, 0, TODAY, NOW).expect("couldn't create a dick");
    create_user(&mut ledger, UID + 1, &user2_name);
    ledger.grow(&chat(), UID + 1, 1, TODAY, NOW).expect("couldn't create a dick #2");

    let top_with_user2_only = ledger.top_page(&chat(), 0, 1);
    assert_eq!(top_with_user2_only.rows.len(), 1);
    assert_eq!(top_with_user2_only.rows[0].name, user2_name);
    assert_eq!(top_with_user2_only.rows[0].entry.value, 1);

    let top_with_user1_only = ledger.top_page(&chat(), 1, 1);
    assert_eq!(top_with_user1_only.rows.len(), 1);
    assert_eq!(top_with_user1_only.rows[0].name, NAME);
    assert_eq!(top_with_user1_only.rows[0].entry.value, 0);
}

fn enough(ledger: &Ledger, uid: u64, bet: i32) -> bool {
    ledger.has_entry(uid, &chat()) && ledger.fetch_value(uid, &chat()) >= bet
}

#[test]
fn test_pvp() {
    let mut ledger = Ledger::new(true);
    assert!(!enough(&ledger, UID, 1));
    create_user(&mut ledger, UID, NAME);
    ledger.grow(&chat(), UID, 1, TODAY, NOW).expect("couldn't create a dick");
    assert!(enough(&ledger, UID, 1));
    assert!(!enough(&ledger, UID, 2));

    create_user(&mut ledger, UID + 1, "");
    ledger.grow(&chat(), UID + 1, 1, TODAY, NOW).expect("couldn't create a dick #2");
    let (gr1, gr2) = ledger
        .transfer(&chat(), UID, UID + 1, 1, TransferKind::Gift, NOW)
        .expect("couldn't move the length");
    assert_eq!(gr1.new_length, 0);
    assert_eq!(gr2.new_length, 2);
    assert_eq!(gr2.pos_in_top, Some(1));
    assert_eq!(gr1.pos_in_top, Some(2));
}

fn two_members(a: i32, b: i32) -> Ledger {
    let mut ledger = Ledger::new(true);
    create_user(&mut ledger, 1, "a");
    create_user(&mut ledger, 2, "b");
    ledger.apply_delta(&chat(), 1, a, NOW).unwrap();
    ledger.apply_delta(&chat(), 2, b, NOW).unwrap();
    ledger
}

#[test]
fn transfer_conserves_the_sum() {
    let mut ledger = two_members(10, 4);
    let (from, to) = ledger.transfer(&chat(), 1, 2, 7, TransferKind::Gift, NOW).unwrap();
    assert_eq!(from.new_length, 3);
    assert_eq!(to.new_length, 11);
    assert_eq!(ledger.fetch_value(1, &chat()) + ledger.fetch_value(2, &chat()), 14);
}

#[test]
fn transfer_to_self_is_refused() {
    let mut ledger = two_members(10, 4);
    assert_eq!(ledger.transfer(&chat(), 1, 1, 3, TransferKind::Gift, NOW), Err(LedgerError::SameUser));
    assert_eq!(ledger.fetch_value(1, &chat()), 10);
}

#[test]
fn transfer_to_unknown_user_changes_nothing() {
    let mut ledger = two_members(10, 4);
    assert_eq!(ledger.transfer(&chat(), 1, 9, 3, TransferKind::Gift, NOW), Err(LedgerError::UnknownUser));
    assert_eq!(ledger.fetch_value(1, &chat()), 10);
}

#[test]
fn transfer_out_of_range_changes_nothing() {
    let mut ledger = two_members(10, i32::MAX - 1);
    assert_eq!(ledger.transfer(&chat(), 1, 2, 3, TransferKind::Gift, NOW), Err(LedgerError::OutOfRange));
    assert_eq!(ledger.fetch_value(1, &chat()), 10);
    assert_eq!(ledger.fetch_value(2, &chat()), i32::MAX - 1);
}

#[test]
fn grow_twice_on_one_day() {
    let mut ledger = Ledger::new(true);
    create_user(&mut ledger, UID, NAME);
    assert_eq!(ledger.grow(&chat(), UID, 4, TODAY, NOW).unwrap().new_length, 4);
    assert_eq!(ledger.grow(&chat(), UID, 4, TODAY, NOW + 60), Err(LedgerError::AlreadyGrown));
    assert_eq!(ledger.fetch_value(UID, &chat()), 4);
    assert_eq!(ledger.grow(&chat(), UID, 4, TODAY + 1, NOW + 86400).unwrap().new_length, 8);
}

#[test]
fn adjusted_member_may_still_grow() {
    let mut ledger = Ledger::new(true);
    create_user(&mut ledger, UID, NAME);
    ledger.apply_delta(&chat(), UID, 3, NOW).unwrap();
    assert_eq!(ledger.grow(&chat(), UID, 2, TODAY, NOW).unwrap().new_length, 5);
}

#[test]
fn negative_growth_shrinks() {
    let mut ledger = Ledger::new(true);
    create_user(&mut ledger, UID, NAME);
    assert_eq!(ledger.grow(&chat(), UID, -3, TODAY, NOW).unwrap().new_length, -3);
}

#[test]
fn unregistered_member_cannot_grow() {
    let mut ledger = Ledger::new(true);
    assert_eq!(ledger.grow(&chat(), UID, 1, TODAY, NOW), Err(LedgerError::UnknownUser));
    assert_eq!(ledger.apply_delta(&chat(), UID, 1, NOW), Err(LedgerError::UnknownUser));
}

#[test]
fn delta_out_of_range_is_refused() {
    let mut ledger = two_members(i32::MAX, 0);
    assert_eq!(ledger.apply_delta(&chat(), 1, 1, NOW), Err(LedgerError::OutOfRange));
    assert_eq!(ledger.fetch_value(1, &chat()), i32::MAX);
}

#[test]
fn overtaking_member_ranks_ahead() {
    let mut ledger = two_members(10, 4);
    assert_eq!(ledger.position(2, &chat()), Some(2));
    let res = ledger.apply_delta(&chat(), 2, 7, NOW).unwrap();
    assert_eq!(res.pos_in_top, Some(1));
    let top = ledger.top_page(&chat(), 0, 2);
    assert_eq!(top.rows[0].entry.user, 2);
    assert_eq!(top.rows[1].entry.user, 1);
    assert_eq!(top.rows[0].position, 1);
    assert_eq!(top.rows[1].position, 2);
}

#[test]
fn equal_values_keep_entry_order() {
    let ledger = two_members(5, 5);
    let top = ledger.top_page(&chat(), 0, 2);
    assert_eq!(top.rows[0].entry.user, 1);
    assert_eq!(top.rows[1].entry.user, 2);
}

fn users_of(page: &TopPage) -> Vec<u64> {
    page.rows.iter().map(|r| r.entry.user).collect()
}

#[test]
fn pages_are_contiguous() {
    let mut ledger = Ledger::new(true);
    for uid in 1..=5u64 {
        create_user(&mut ledger, uid, "m");
        ledger.apply_delta(&chat(), uid, (uid as i32) * 10, NOW).unwrap();
    }
    let p0 = ledger.top_page(&chat(), 0, 2);
    let p1 = ledger.top_page(&chat(), 1, 2);
    let p2 = ledger.top_page(&chat(), 2, 2);
    assert_eq!(users_of(&p0), vec![5, 4]);
    assert_eq!(users_of(&p1), vec![3, 2]);
    assert_eq!(users_of(&p2), vec![1]);
    assert!(p0.has_more_pages);
    assert!(p1.has_more_pages);
    assert!(!p2.has_more_pages);
    assert_eq!(p1.rows[0].position, 3);
    assert_eq!(ledger.top_page(&chat(), 3, 2).rows.len(), 0);
    assert_eq!(ledger.top_page(&chat(), usize::MAX, 2).rows.len(), 0);
}

#[test]
fn chats_are_kept_apart() {
    let mut ledger = Ledger::new(true);
    create_user(&mut ledger, UID, NAME);
    let instance = ChatKey::Instance("inline-1".to_string());
    ledger.apply_delta(&chat(), UID, 3, NOW).unwrap();
    ledger.apply_delta(&instance, UID, 8, NOW).unwrap();
    assert_eq!(ledger.fetch_value(UID, &chat()), 3);
    assert_eq!(ledger.fetch_value(UID, &instance), 8);
    assert_eq!(ledger.fetch_value(UID, &ChatKey::Id(101)), 0);
    assert!(!ledger.has_entry(UID, &ChatKey::Instance("other".to_string())));
}

#[test]
fn upsert_keeps_registration_time() {
    let mut ledger = Ledger::new(true);
    let first = ledger.upsert_user(UID, "old".to_string(), NOW);
    let second = ledger.upsert_user(UID, "new".to_string(), NOW + 500);
    assert_eq!(first.created_at, NOW);
    assert_eq!(second.created_at, NOW);
    let user = ledger.get_user(UID).unwrap();
    assert_eq!(user.name, "new");
    assert!(ledger.get_user(UID + 1).is_none());
}

#[test]
fn members_by_index_skip_the_excluded() {
    let ledger = two_members(10, 4);
    assert_eq!(ledger.count_members(&chat(), Some(1)), 1);
    assert_eq!(ledger.count_members(&chat(), None), 2);
    let only: Option<LedgerEntry> = ledger.nth_member(&chat(), Some(1), 0);
    assert_eq!(only.unwrap().user, 2);
    assert!(ledger.nth_member(&chat(), Some(1), 1).is_none());
    assert_eq!(ledger.nth_member(&chat(), None, 1).unwrap().user, 2);
}

#[test]
fn active_members_follow_the_window() {
    let mut ledger = Ledger::new(true);
    create_user(&mut ledger, 1, "a");
    create_user(&mut ledger, 2, "b");
    ledger.apply_delta(&chat(), 1, 5, NOW - 10 * 86400).unwrap();
    ledger.apply_delta(&chat(), 2, 5, NOW).unwrap();
    let active = ledger.active_members(&chat(), NOW - 7 * 86400);
    assert_eq!(active.len(), 1);
    assert_eq!(active[0].user, 2);
}

#[test]
fn purge_removes_everything_of_a_member() {
    let mut ledger = two_members(10, 4);
    ledger.transfer(&chat(), 1, 2, 3, TransferKind::Gift, NOW).unwrap();
    let other = ChatKey::Instance("inline".to_string());
    ledger.apply_delta(&other, 1, 2, NOW).unwrap();
    assert_eq!(ledger.purge_user(1), 1);
    assert!(ledger.get_user(1).is_none());
    assert!(!ledger.has_entry(1, &chat()));
    assert!(!ledger.has_entry(1, &other));
    assert_eq!(ledger.fetch_value(2, &chat()), 7);
    assert_eq!(ledger.position(2, &chat()), Some(1));
    assert_eq!(ledger.purge_user(1), 0);
    assert_eq!(ledger.apply_delta(&chat(), 1, 1, NOW), Err(LedgerError::UnknownUser));
}
