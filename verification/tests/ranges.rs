use status_hook::ranges::{ModuleRanges, DEFAULT_SPAN, SHIM_TRIGGER};

fn two_ranges() -> ModuleRanges {
    let mut ranges = ModuleRanges::new();
    ranges.record_or_update("fx", 0x1000, Some(0x1000));
    ranges.record_or_update("item", 0x5000, Some(0x1000));
    ranges
}

fn owner_of(ranges: &ModuleRanges, addr: u64) -> Option<String> {
    ranges.lookup_containing(addr).map(|r| r.name.clone())
}

#[test]
fn new_registry_is_empty() {
    let ranges = ModuleRanges::new();
    assert_eq!(ranges.len(), 0);
    assert!(ranges.lookup_containing(0x1500).is_none());
    assert!(ranges.get("fx").is_none());
}

#[test]
fn lookup_inside_a_range_names_its_module() {
    let ranges = two_ranges();
    let owner = ranges.lookup_containing(0x1500).unwrap();
    assert_eq!(owner.name, "fx");
    assert_eq!(owner.start, 0x1000);
    assert_eq!(owner.end, 0x2000);
    assert_eq!(owner_of(&ranges, 0x5800), Some("item".to_string()));
}

#[test]
fn lookup_at_the_lower_bound_misses() {
    let ranges = two_ranges();
    assert_eq!(owner_of(&ranges, 0x1000), None);
    assert_eq!(owner_of(&ranges, 0x1001), Some("fx".to_string()));
    assert_eq!(owner_of(&ranges, 0x5000), None);
}

#[test]
fn lookup_at_the_upper_bound_misses() {
    let ranges = two_ranges();
    assert_eq!(owner_of(&ranges, 0x2000), None);
    assert_eq!(owner_of(&ranges, 0x1fff), Some("fx".to_string()));
    assert_eq!(owner_of(&ranges, 0x6000), None);
}

#[test]
fn lookup_outside_every_range_misses() {
    let ranges = two_ranges();
    assert_eq!(owner_of(&ranges, 0x7000), None);
    assert_eq!(owner_of(&ranges, 0x3000), None);
    assert_eq!(owner_of(&ranges, 0), None);
    assert_eq!(owner_of(&ranges, u64::MAX), None);
}

#[test]
fn lookup_in_overlapping_ranges_takes_the_first_seen() {
    let mut ranges = ModuleRanges::new();
    ranges.record_or_update("early", 0x1000, None);
    ranges.record_or_update("late", 0x2000, Some(0x100));
    assert_eq!(owner_of(&ranges, 0x2050), Some("early".to_string()));
    let mut swapped = ModuleRanges::new();
    swapped.record_or_update("late", 0x2000, Some(0x100));
    swapped.record_or_update("early", 0x1000, None);
    assert_eq!(owner_of(&swapped, 0x2050), Some("late".to_string()));
    assert_eq!(owner_of(&swapped, 0x1800), Some("early".to_string()));
}

#[test]
fn record_without_a_size_spans_the_default() {
    let mut ranges = ModuleRanges::new();
    let end = ranges.record_or_update("fx", 0x7100_0000, None);
    assert_eq!(DEFAULT_SPAN, 0xfff_ffff);
    assert_eq!(end, Some(0x7100_0000 + 0xfff_ffff));
    assert_eq!(end, Some(0x80ff_ffff));
    let stored = ranges.get("fx").unwrap();
    assert_eq!(stored.start, 0x7100_0000);
    assert_eq!(stored.end, 0x80ff_ffff);
}

#[test]
fn record_with_a_size_ends_at_base_plus_size() {
    let mut ranges = ModuleRanges::new();
    let end = ranges.record_or_update("fx", 0x4000, Some(0x250));
    assert_eq!(end, Some(0x4250));
    assert_eq!(ranges.get("fx").unwrap().end, 0x4250);
    let empty = ranges.record_or_update("none", 0x9000, Some(0));
    assert_eq!(empty, Some(0x9000));
    assert_eq!(owner_of(&ranges, 0x9000), None);
}

#[test]
fn record_stops_at_the_top_of_the_address_space() {
    let mut ranges = ModuleRanges::new();
    let end = ranges.record_or_update("high", u64::MAX - 5, None);
    assert_eq!(end, Some(u64::MAX));
    let end = ranges.record_or_update("wide", 0x10, Some(u64::MAX));
    assert_eq!(end, Some(u64::MAX));
    let exact = ranges.record_or_update("exact", u64::MAX - 0xfff_ffff, None);
    assert_eq!(exact, Some(u64::MAX));
    assert_eq!(owner_of(&ranges, u64::MAX - 1), Some("high".to_string()));
    assert_eq!(owner_of(&ranges, u64::MAX), None);
}

#[test]
fn reload_changes_bounds_without_a_second_entry() {
    let mut ranges = two_ranges();
    assert_eq!(ranges.len(), 2);
    ranges.record_or_update("fx", 0x9000, Some(0x800));
    assert_eq!(ranges.len(), 2);
    let stored = ranges.get("fx").unwrap();
    assert_eq!(stored.start, 0x9000);
    assert_eq!(stored.end, 0x9800);
    assert_eq!(owner_of(&ranges, 0x1500), None);
    assert_eq!(owner_of(&ranges, 0x9400), Some("fx".to_string()));
    assert_eq!(owner_of(&ranges, 0x5800), Some("item".to_string()));
}

#[test]
fn reload_keeps_the_place_in_the_order() {
    let mut ranges = ModuleRanges::new();
    ranges.record_or_update("a", 0x1000, Some(0x100));
    ranges.record_or_update("b", 0x3000, Some(0x1000));
    ranges.record_or_update("a", 0x3000, Some(0x1000));
    assert_eq!(ranges.len(), 2);
    assert_eq!(owner_of(&ranges, 0x3500), Some("a".to_string()));
}

#[test]
fn reload_at_the_same_place_changes_nothing() {
    let mut ranges = two_ranges();
    ranges.record_or_update("item", 0x5000, Some(0x1000));
    assert_eq!(ranges.len(), 2);
    let stored = ranges.get("item").unwrap();
    assert_eq!((stored.start, stored.end), (0x5000, 0x6000));
}

#[test]
fn names_are_told_apart_exactly() {
    let mut ranges = ModuleRanges::new();
    ranges.record_or_update("fx", 0x1000, Some(0x10));
    ranges.record_or_update("FX", 0x2000, Some(0x10));
    ranges.record_or_update("fx2", 0x3000, Some(0x10));
    ranges.record_or_update("", 0x4000, Some(0x10));
    ranges.record_or_update("f\u{e9}", 0x5000, Some(0x10));
    assert_eq!(ranges.len(), 5);
    assert_eq!(ranges.get("fx").unwrap().start, 0x1000);
    assert_eq!(ranges.get("FX").unwrap().start, 0x2000);
    assert_eq!(ranges.get("fx2").unwrap().start, 0x3000);
    assert_eq!(ranges.get("").unwrap().start, 0x4000);
    assert_eq!(ranges.get("f\u{e9}").unwrap().start, 0x5000);
    assert!(ranges.get("f").is_none());
    assert!(ranges.get("fe").is_none());
}

#[test]
fn many_modules_are_all_kept() {
    let mut ranges = ModuleRanges::new();
    for i in 0..50u64 {
        let name = format!("module{}", i);
        ranges.record_or_update(&name, i * 0x1000, Some(0x1000));
    }
    assert_eq!(ranges.len(), 50);
    for i in 0..50u64 {
        let name = format!("module{}", i);
        assert_eq!(owner_of(&ranges, i * 0x1000 + 0x800), Some(name));
    }
}

#[test]
fn trigger_module_is_not_recorded() {
    let mut ranges = two_ranges();
    assert_eq!(SHIM_TRIGGER, "common");
    assert_eq!(ranges.record_or_update("common", 0x7100_0000, Some(0x1000)), None);
    assert_eq!(ranges.record_or_update(SHIM_TRIGGER, 0x7100_0000, None), None);
    assert_eq!(ranges.len(), 2);
    assert!(ranges.get("common").is_none());
    assert_eq!(owner_of(&ranges, 0x7100_0800), None);
}

#[test]
fn disjoint_ranges_classify_alike_in_any_order() {
    let loads = [("a", 0x1000u64), ("b", 0x2000), ("c", 0x3000)];
    let mut forward = ModuleRanges::new();
    for (name, base) in loads.iter() {
        forward.record_or_update(name, *base, Some(0x1000));
    }
    let mut backward = ModuleRanges::new();
    for (name, base) in loads.iter().rev() {
        backward.record_or_update(name, *base, Some(0x1000));
    }
    for addr in [0x0fffu64, 0x1000, 0x1001, 0x1fff, 0x2000, 0x2001, 0x2800, 0x3000, 0x3fff, 0x4000] {
        assert_eq!(owner_of(&forward, addr), owner_of(&backward, addr));
    }
    assert_eq!(owner_of(&forward, 0x2800), Some("b".to_string()));
}
