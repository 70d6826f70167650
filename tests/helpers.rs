use odoo_ls_core::session::{
    clamp_delay, index_update_action, init_crash_buffer, DelayAction, DelayEvent, DelayState, UpdateAction,
};
use odoo_ls_core::utils::{compare_semver, string_fuzzy_contains};
use std::cmp::Ordering;

#[test]
fn semver_compares_numbers_not_text() {
    assert_eq!(compare_semver("1.10.0", "1.9.0"), Ordering::Greater);
    assert_eq!(compare_semver("17.0", "17.0.0"), Ordering::Equal);
    assert_eq!(compare_semver("16.0", "17.0"), Ordering::Less);
    assert_eq!(compare_semver("1.x", "1.0"), Ordering::Equal);
    assert_eq!(compare_semver("", "0"), Ordering::Equal);
    assert_eq!(compare_semver("+2", "1"), Ordering::Greater);
    assert_eq!(compare_semver("4294967296", "0"), Ordering::Equal);
    assert_eq!(compare_semver("4294967295", "0"), Ordering::Greater);
}

#[test]
fn fuzzy_contains_in_order_ignoring_case() {
    assert!(string_fuzzy_contains("ResPartner", "rsp"));
    assert!(string_fuzzy_contains("anything", ""));
    assert!(!string_fuzzy_contains("partner", "pz"));
    assert!(!string_fuzzy_contains("abc", "cba"));
    assert!(string_fuzzy_contains("SaleOrderLine", "SOL"));
}

#[test]
fn crash_buffer_keeps_the_last_twenty() {
    let mut b = init_crash_buffer();
    for i in 0..25u32 {
        b.push_message(i);
    }
    let v = b.get_messages();
    assert_eq!(v.len(), 20);
    assert_eq!(v[0], 5);
    assert_eq!(v[19], 24);
}

#[test]
fn delay_is_clamped() {
    assert_eq!(clamp_delay(10), 1000);
    assert_eq!(clamp_delay(5000), 5000);
    assert_eq!(clamp_delay(60000), 15000);
}

#[test]
fn update_actions() {
    assert!(index_update_action(11, 10, true, true, false, 0) == UpdateAction::Restart);
    assert!(index_update_action(1, 10, false, true, false, 3) == UpdateAction::ProcessNow);
    assert!(index_update_action(1, 10, false, true, false, 10) == UpdateAction::Delay);
    assert!(index_update_action(1, 10, true, true, false, 0) == UpdateAction::Delay);
    assert!(index_update_action(1, 10, true, false, false, 0) == UpdateAction::ProcessNow);
    assert!(index_update_action(1, 10, false, true, true, 0) == UpdateAction::Delay);
}

#[test]
fn bursts_of_changes_rebuild_once() {
    let mut s = DelayState::new(0);
    assert_eq!(s.delay_ms, 1000);
    assert!(s.on_event(DelayEvent::Process) == DelayAction::Wait);
    assert!(s.on_event(DelayEvent::Process) == DelayAction::Wait);
    assert!(s.on_event(DelayEvent::Timeout) == DelayAction::RunRebuilds);
    assert!(s.on_event(DelayEvent::Timeout) == DelayAction::Wait);
    assert!(s.on_event(DelayEvent::UpdateDelay(20000)) == DelayAction::Wait);
    assert_eq!(s.delay_ms, 15000);
}

#[test]
fn restart_is_asked_once_and_stops_rebuilds() {
    let mut s = DelayState::new(2000);
    s.on_event(DelayEvent::Process);
    assert!(s.on_event(DelayEvent::Restart) == DelayAction::NotifyRestart);
    assert!(s.on_event(DelayEvent::Restart) == DelayAction::Wait);
    assert!(s.on_event(DelayEvent::Timeout) == DelayAction::Wait);
    assert!(s.on_event(DelayEvent::Exit) == DelayAction::Stop);
}
