use status_hook::handlers::SENTINEL;
use status_hook::{call_original, replace_status_func, HandlerEntry, HandlerRegistry, OriginalCall};

const H: u64 = 0x7000_1000;
const H2: u64 = 0x7000_2000;

fn entry(status_kind: i32, sub_script: i32, override_fn: u64, original_fn: Option<u64>) -> HandlerEntry {
    HandlerEntry { status_kind, sub_script, override_fn, original_fn }
}

#[test]
fn new_handler_registry_knows_no_owner() {
    let registry = HandlerRegistry::new();
    assert!(registry.entries("fx").is_none());
    assert_eq!(call_original(&registry, "fx", 5, 2), OriginalCall::OriginalNotSet);
}

#[test]
fn registration_creates_the_owners_list() {
    let mut registry = HandlerRegistry::new();
    replace_status_func(&mut registry, "fx", 5, 2, H);
    assert_eq!(registry.entries("fx").unwrap(), &vec![entry(5, 2, H, None)]);
    assert!(registry.entries("item").is_none());
}

#[test]
fn registration_appends_in_order() {
    let mut registry = HandlerRegistry::new();
    replace_status_func(&mut registry, "fx", 5, 2, H);
    replace_status_func(&mut registry, "item", 5, 2, 0x10);
    replace_status_func(&mut registry, "fx", 7, 0, H2);
    replace_status_func(&mut registry, "fx", -1, i32::MAX, 0x30);
    assert_eq!(
        registry.entries("fx").unwrap(),
        &vec![entry(5, 2, H, None), entry(7, 0, H2, None), entry(-1, i32::MAX, 0x30, None)]
    );
    assert_eq!(registry.entries("item").unwrap(), &vec![entry(5, 2, 0x10, None)]);
}

#[test]
fn registering_a_key_twice_stores_two_entries() {
    let mut registry = HandlerRegistry::new();
    replace_status_func(&mut registry, "fx", 5, 2, H);
    replace_status_func(&mut registry, "fx", 5, 2, H2);
    assert_eq!(registry.entries("fx").unwrap().len(), 2);
    assert_eq!(registry.entries("fx").unwrap(), &vec![entry(5, 2, H, None), entry(5, 2, H2, None)]);
}

#[test]
fn only_the_first_of_two_entries_is_reached() {
    let mut registry = HandlerRegistry::new();
    replace_status_func(&mut registry, "fx", 5, 2, H);
    replace_status_func(&mut registry, "fx", 5, 2, H2);
    assert_eq!(registry.capture("fx", 5, 2, 0x1500), Some(H));
    assert_eq!(
        registry.entries("fx").unwrap(),
        &vec![entry(5, 2, H, Some(0x1500)), entry(5, 2, H2, None)]
    );
    assert_eq!(call_original(&registry, "fx", 5, 2), OriginalCall::Captured(0x1500));
    assert_eq!(registry.capture("fx", 5, 2, 0x1600), Some(H));
    assert_eq!(
        registry.entries("fx").unwrap(),
        &vec![entry(5, 2, H, Some(0x1600)), entry(5, 2, H2, None)]
    );
}

#[test]
fn capture_stores_the_incoming_pointer() {
    let mut registry = HandlerRegistry::new();
    replace_status_func(&mut registry, "fx", 5, 2, H);
    assert_eq!(registry.capture("fx", 5, 2, 0x1500), Some(H));
    assert_eq!(registry.entries("fx").unwrap(), &vec![entry(5, 2, H, Some(0x1500))]);
}

#[test]
fn capture_keeps_the_last_pointer_seen() {
    let mut registry = HandlerRegistry::new();
    replace_status_func(&mut registry, "fx", 5, 2, H);
    registry.capture("fx", 5, 2, 0x1500);
    registry.capture("fx", 5, 2, 0x1700);
    assert_eq!(call_original(&registry, "fx", 5, 2), OriginalCall::Captured(0x1700));
}

#[test]
fn capture_without_a_match_changes_nothing() {
    let mut registry = HandlerRegistry::new();
    replace_status_func(&mut registry, "fx", 5, 2, H);
    assert_eq!(registry.capture("fx", 5, 3, 0x1500), None);
    assert_eq!(registry.capture("fx", 2, 5, 0x1500), None);
    assert_eq!(registry.capture("item", 5, 2, 0x1500), None);
    assert_eq!(registry.entries("fx").unwrap(), &vec![entry(5, 2, H, None)]);
    assert!(registry.entries("item").is_none());
}

#[test]
fn capture_touches_one_owner_only() {
    let mut registry = HandlerRegistry::new();
    replace_status_func(&mut registry, "fx", 5, 2, H);
    replace_status_func(&mut registry, "item", 5, 2, H2);
    assert_eq!(registry.capture("item", 5, 2, 0x5500), Some(H2));
    assert_eq!(registry.entries("fx").unwrap(), &vec![entry(5, 2, H, None)]);
    assert_eq!(registry.entries("item").unwrap(), &vec![entry(5, 2, H2, Some(0x5500))]);
}

#[test]
fn original_after_capture_is_the_captured_handler() {
    let mut registry = HandlerRegistry::new();
    replace_status_func(&mut registry, "fx", 5, 2, H);
    registry.capture("fx", 5, 2, 0x1500);
    let call = call_original(&registry, "fx", 5, 2);
    assert_eq!(call, OriginalCall::Captured(0x1500));
    assert_ne!(call, OriginalCall::Captured(H));
    assert_eq!(call.sentinel(), None);
    assert!(!call.emits_diagnostic());
    assert_eq!(call.diagnostic(), None);
}

#[test]
fn original_before_capture_is_the_stub() {
    let mut registry = HandlerRegistry::new();
    replace_status_func(&mut registry, "fx", 5, 2, H);
    let call = call_original(&registry, "fx", 5, 2);
    assert_eq!(call, OriginalCall::Stub);
    assert_eq!(call.sentinel(), Some(0));
    assert!(call.emits_diagnostic());
    assert_eq!(call.diagnostic(), Some("[status_kind] ERROR: Original func was not set!"));
}

#[test]
fn original_for_an_unknown_owner_is_reported() {
    let mut registry = HandlerRegistry::new();
    replace_status_func(&mut registry, "fx", 5, 2, H);
    let call = call_original(&registry, "item", 5, 2);
    assert_eq!(call, OriginalCall::OriginalNotSet);
    assert_eq!(call.sentinel(), Some(0));
    assert_eq!(SENTINEL, 0);
    assert!(call.emits_diagnostic());
    assert_eq!(call.diagnostic(), Some("[status_hook] ERROR: Could not find original function!"));
}

#[test]
fn original_for_an_unmatched_key_is_silent() {
    let mut registry = HandlerRegistry::new();
    replace_status_func(&mut registry, "fx", 5, 2, H);
    registry.capture("fx", 5, 2, 0x1500);
    for (status_kind, sub_script) in [(5, 3), (4, 2), (2, 5), (0, 0)] {
        let call = call_original(&registry, "fx", status_kind, sub_script);
        assert_eq!(call, OriginalCall::HandlerMiss);
        assert_eq!(call.sentinel(), Some(0));
        assert!(!call.emits_diagnostic());
        assert_eq!(call.diagnostic(), None);
    }
}

#[test]
fn interleaved_registrations_lose_no_entry() {
    let owners = ["mario", "luigi", "peach", "yoshi"];
    let mut registry = HandlerRegistry::new();
    for round in 0..25i32 {
        for (n, owner) in owners.iter().enumerate() {
            if (round as usize) % (n + 1) == 0 {
                replace_status_func(&mut registry, owner, round, n as i32, 0x100 + round as u64);
            }
        }
    }
    assert_eq!(registry.entries("mario").unwrap().len(), 25);
    assert_eq!(registry.entries("luigi").unwrap().len(), 13);
    assert_eq!(registry.entries("peach").unwrap().len(), 9);
    assert_eq!(registry.entries("yoshi").unwrap().len(), 7);
    let luigi = registry.entries("luigi").unwrap();
    for (place, stored) in luigi.iter().enumerate() {
        assert_eq!(*stored, entry(2 * place as i32, 1, 0x100 + 2 * place as u64, None));
    }
}

#[test]
fn owners_are_told_apart_exactly() {
    let mut registry = HandlerRegistry::new();
    replace_status_func(&mut registry, "fx", 1, 1, 0x10);
    replace_status_func(&mut registry, "Fx", 1, 1, 0x20);
    replace_status_func(&mut registry, "fx ", 1, 1, 0x30);
    assert_eq!(registry.entries("fx").unwrap(), &vec![entry(1, 1, 0x10, None)]);
    assert_eq!(registry.entries("Fx").unwrap(), &vec![entry(1, 1, 0x20, None)]);
    assert_eq!(registry.entries("fx ").unwrap(), &vec![entry(1, 1, 0x30, None)]);
    assert!(registry.entries("f").is_none());
}

#[test]
fn shadowed_entry_stays_out_of_reach() {
    let mut registry = HandlerRegistry::new();
    replace_status_func(&mut registry, "fx", 5, 2, H);
    replace_status_func(&mut registry, "fx", 5, 2, H2);
    replace_status_func(&mut registry, "fx", 6, 0, 0x30);
    replace_status_func(&mut registry, "item", 5, 2, 0x40);
    replace_status_func(&mut registry, "fx", 5, 2, 0x50);
    for addr in [0x1500u64, 0x1600, 0x1700] {
        assert_eq!(registry.capture("fx", 5, 2, addr), Some(H));
        assert_eq!(registry.capture("fx", 6, 0, addr + 8), Some(0x30));
        assert_eq!(registry.capture("item", 5, 2, addr + 16), Some(0x40));
        assert_eq!(call_original(&registry, "fx", 5, 2), OriginalCall::Captured(addr));
    }
    let stored = registry.entries("fx").unwrap();
    assert_eq!(stored.len(), 4);
    assert_eq!(stored[0], entry(5, 2, H, Some(0x1700)));
    assert_eq!(stored[1], entry(5, 2, H2, None));
    assert_eq!(stored[2], entry(6, 0, 0x30, Some(0x1708)));
    assert_eq!(stored[3], entry(5, 2, 0x50, None));
}
