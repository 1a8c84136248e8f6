use grower_ledger::chat::ChatKey;
use grower_ledger::config::{GiftRestrictionConfig, GiftRestrictionsConfig, RestrictedUser};
use grower_ledger::dto::{adjust, get_user, AdjustRequest, AdjustResponse, GetTopResponse, GetUserResponse};
use grower_ledger::front::{authorized, full_name, pagination_buttons};
use grower_ledger::gate::IdempotencyGate;
use grower_ledger::ledger::Ledger;
use grower_ledger::stats::{PersonalStats, PersonalStatsEntity};
use grower_ledger::top::{can_grow_on, days_since, time_till_next_day, Top};

const TTL: u64 = 86400;

#[test]
fn gate_lets_a_key_through_once() {
    let mut gate = IdempotencyGate::new(TTL, 1000);
    let mut admitted = 0;
    for i in 0..100u64 {
        if gate.admit_key("req-1".to_string(), 1000 + i) {
            admitted += 1;
        }
    }
    assert_eq!(admitted, 1);
    assert!(gate.admit_key("req-2".to_string(), 1100));
    assert!(!gate.admit_key("req-1".to_string(), 1000 + TTL - 1));
    assert!(gate.admit_key("req-1".to_string(), 1000 + TTL));
    assert!(!gate.admit_key("req-1".to_string(), 1000 + TTL + 5));
}

#[test]
fn gate_sweeps_expired_records() {
    let mut gate = IdempotencyGate::new(10, 2);
    assert!(gate.admit_key("a".to_string(), 0));
    assert!(gate.admit_key("b".to_string(), 0));
    assert!(gate.admit_key("c".to_string(), 5));
    assert_eq!(gate.len(), 3);
    assert!(gate.admit_key("d".to_string(), 12));
    assert_eq!(gate.len(), 2);
    assert!(!gate.admit_key("c".to_string(), 13));
}

fn request(delta: i32) -> AdjustRequest {
    AdjustRequest { chat_id: 5, user_id: 1, delta, reason: "bonus".to_string(), locale: None, silent: None }
}

#[test]
fn adjust_applies_once_per_key() {
    let mut ledger = Ledger::new(true);
    let mut gate = IdempotencyGate::new(TTL, 1000);
    assert_eq!(
        adjust(&mut ledger, &mut gate, &request(3), None, 0, 0),
        Ok(AdjustResponse::new_skipped("user_not_registered".to_string()))
    );
    ledger.upsert_user(1, "one".to_string(), 0);
    ledger.apply_delta(&ChatKey::Id(5), 1, 1, 0).unwrap();
    assert_eq!(
        adjust(&mut ledger, &mut gate, &request(3), Some("k".to_string()), 0, 0),
        Ok(AdjustResponse::new_applied(4))
    );
    assert_eq!(
        adjust(&mut ledger, &mut gate, &request(3), Some("k".to_string()), 0, 1),
        Ok(AdjustResponse::Skipped { reason: "duplicate".to_string() })
    );
    assert_eq!(
        adjust(&mut ledger, &mut gate, &request(-2), None, 0, 2),
        Ok(AdjustResponse::Applied { new_length: 2 })
    );
}

#[test]
fn get_user_reports_the_entry() {
    let mut ledger = Ledger::new(true);
    assert_eq!(get_user(&ledger, 5, 1), GetUserResponse::new_skipped("user_not_registered".to_string()));
    ledger.upsert_user(1, "one".to_string(), 0);
    ledger.upsert_user(2, "two".to_string(), 0);
    ledger.apply_delta(&ChatKey::Id(5), 1, 1, 0).unwrap();
    ledger.apply_delta(&ChatKey::Id(5), 2, 9, 0).unwrap();
    assert_eq!(get_user(&ledger, 5, 1), GetUserResponse::new_ok(5, 1, "one".to_string(), 1, Some(2)));
    let unranked = Ledger::new(false);
    assert_eq!(get_user(&unranked, 5, 1), GetUserResponse::new_skipped("user_not_registered".to_string()));
    let top = GetTopResponse { users: vec![get_user(&ledger, 5, 2)] };
    assert_eq!(top.users[0], GetUserResponse::new_ok(5, 2, "two".to_string(), 9, Some(1)));
}

#[test]
fn restrictions_flatten_groups() {
    let config = GiftRestrictionsConfig {
        restricted_users: vec![
            RestrictedUser { user_ids: vec![1, 2], custom_name: "Bank".to_string() },
            RestrictedUser { user_ids: vec![2, 3], custom_name: "Treasury".to_string() },
        ],
    };
    let flat = GiftRestrictionConfig::from_groups(&config);
    assert_eq!(flat.restrictions.len(), 3);
    assert_eq!(flat.restrictions[&1], "Bank");
    assert_eq!(flat.restrictions[&2], "Treasury");
    assert_eq!(flat.restrictions[&3], "Treasury");
    assert!(GiftRestrictionConfig::new().restrictions.is_empty());
}

#[test]
fn stats_default_missing_parts() {
    let entity = PersonalStatsEntity {
        chats: Some(2),
        max_length: None,
        total_length: Some(15),
        given_cm: None,
        received_cm: Some(4),
    };
    let stats = PersonalStats::from_entity(entity);
    assert_eq!(
        stats,
        PersonalStats { chats: 2, max_length: 0, total_length: 15, given_cm: 0, received_cm: 4 }
    );
}

#[test]
fn top_text_holder() {
    let t = Top::from("a".to_string());
    assert!(!t.has_more_pages);
    let t = Top::with_more_pages("b".to_string());
    assert!(t.has_more_pages);
    assert_eq!(t.lines, "b");
}

#[test]
fn time_till_next_day_at_late_evening() {
    // 22:10:57 leaves 1 h 49 min until midnight
    assert_eq!(time_till_next_day(22 * 3600 + 10 * 60 + 57), (1, 49));
    assert_eq!(time_till_next_day(0), (24, 0));
    assert_eq!(time_till_next_day(86399), (0, 0));
}

#[test]
fn growth_marker_and_account_age() {
    assert!(can_grow_on(None, 10));
    assert!(can_grow_on(Some(9), 10));
    assert!(!can_grow_on(Some(10), 10));
    assert_eq!(days_since(0, 86400 * 3 + 5), 3);
    assert_eq!(days_since(100, 100), 0);
}

#[test]
fn chat_keys_compare_by_value() {
    assert!(ChatKey::Id(3).same_as(&ChatKey::Id(3)));
    assert!(!ChatKey::Id(3).same_as(&ChatKey::Instance("3".to_string())));
    assert!(ChatKey::Instance("x".to_string()).same_as(&ChatKey::Instance("x".to_string()).duplicate()));
}

#[test]
fn front_end_rules() {
    assert_eq!(full_name("Ada".to_string(), Some("Lovelace".to_string())), "Ada Lovelace");
    assert_eq!(full_name("Ada".to_string(), None), "Ada");
    assert_eq!(pagination_buttons(0, true), (None, Some(1)));
    assert_eq!(pagination_buttons(2, false), (Some(1), None));
    assert!(authorized(&"secret".to_string(), &"secret".to_string()));
    assert!(!authorized(&"secret".to_string(), &"other".to_string()));
    assert!(!authorized(&String::new(), &String::new()));
}

#[test]
fn account_age_before_registration_is_negative() {
    assert_eq!(days_since(86400 * 3 + 5, 0), -3);
    assert_eq!(days_since(10, 0), 0);
}

#[test]
fn adjust_after_window_applies_again() {
    let mut ledger = Ledger::new(true);
    let mut gate = IdempotencyGate::new(TTL, 1000);
    ledger.upsert_user(1, "one".to_string(), 0);
    ledger.apply_delta(&ChatKey::Id(5), 1, 1, 0).unwrap();
    assert_eq!(
        adjust(&mut ledger, &mut gate, &request(3), Some("k".to_string()), 0, 10),
        Ok(AdjustResponse::new_applied(4))
    );
    let mut applied = 0;
    for i in 0..99u64 {
        if let Ok(AdjustResponse::Applied { .. }) =
            adjust(&mut ledger, &mut gate, &request(3), Some("k".to_string()), 0, 11 + i)
        {
            applied += 1;
        }
    }
    assert_eq!(applied, 0);
    assert_eq!(ledger.fetch_value(1, &ChatKey::Id(5)), 4);
    assert_eq!(
        adjust(&mut ledger, &mut gate, &request(3), Some("k".to_string()), 0, 10 + TTL),
        Ok(AdjustResponse::new_applied(7))
    );
}
