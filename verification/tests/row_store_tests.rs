use c64_core::fixtures;
use c64_core::{AddressMask, Memory, RowStore};

fn fixture_row_store() -> RowStore {
    let mut memory = Memory::new();
    memory
        .load_prg(&fixtures::prg_bytes())
        .expect("fixture PRG must load");
    let mut store = RowStore::new(memory);
    store.add_lane("instruction_start", fixtures::instruction_start_mask());
    store
}

#[test]
fn a_fresh_row_store_has_no_lanes() {
    let store = RowStore::new(Memory::new());
    assert_eq!(store.lane_count(), 0);
    assert!(store.lane("instruction_start").is_none());
}

#[test]
fn adding_a_lane_makes_it_findable_by_name() {
    let store = fixture_row_store();
    assert_eq!(store.lane_count(), 1);
    let lane = store.lane("instruction_start").expect("lane must exist");
    assert_eq!(lane.name(), "instruction_start");
    assert_eq!(
        lane.mask().count() as usize,
        fixtures::INSTRUCTION_START_ADDRS.len()
    );
}

#[test]
fn adding_a_lane_with_the_same_name_replaces_not_duplicates() {
    let mut store = fixture_row_store();
    assert_eq!(store.lane_count(), 1);
    store.add_lane("instruction_start", AddressMask::empty());
    assert_eq!(store.lane_count(), 1, "must replace, not accumulate");
    assert_eq!(
        store
            .lane("instruction_start")
            .expect("lane must still exist")
            .mask()
            .count(),
        0,
        "the replacement mask must actually take effect"
    );
}

#[test]
fn read_if_in_lane_returns_the_byte_only_when_the_address_is_selected() {
    let store = fixture_row_store();
    assert_eq!(
        store.read_if_in_lane("instruction_start", 0x0800),
        Some(0xA9)
    );
    assert_eq!(store.read_if_in_lane("instruction_start", 0x0801), None);
    assert_eq!(store.memory().read(0x0801), 0x10);
}

#[test]
fn read_if_in_lane_on_an_unknown_lane_name_is_none_not_a_panic() {
    let store = fixture_row_store();
    assert_eq!(store.read_if_in_lane("no_such_lane", 0x0800), None);
}

#[test]
fn lanes_with_different_names_coexist_and_replacing_one_keeps_the_other() {
    let mut store = fixture_row_store();
    let mut code = AddressMask::empty();
    for a in 0x0800u16..0x0812 {
        code.set(a);
    }
    store.add_lane("code", code);
    assert_eq!(store.lane_count(), 2);
    assert_eq!(store.read_if_in_lane("code", 0x0801), Some(0x10));
    assert_eq!(store.read_if_in_lane("code", 0x0812), None);

    let mut one = AddressMask::empty();
    one.set(0x0801);
    store.add_lane("instruction_start", one);
    assert_eq!(store.lane_count(), 2);
    assert_eq!(store.read_if_in_lane("instruction_start", 0x0800), None);
    assert_eq!(store.read_if_in_lane("instruction_start", 0x0801), Some(0x10));
    assert_eq!(store.lane("code").expect("code lane stays").mask().count(), 18);
}

#[test]
fn a_lane_built_by_hand_reports_its_parts() {
    let mut m = AddressMask::empty();
    m.set(0xD020);
    let lane = c64_core::Lane::new("border", m);
    assert_eq!(lane.name(), "border");
    assert!(lane.mask().contains(0xD020));
    assert_eq!(lane.mask().count(), 1);
}

#[test]
fn lane_names_compare_by_content() {
    let mut store = RowStore::new(Memory::new());
    store.add_lane("reachable", AddressMask::full());
    let owned = String::from("reach") + "able";
    assert!(store.lane(&owned).is_some());
    assert!(store.lane("reachabl").is_none());
    assert!(store.lane("reachable ").is_none());
    assert_eq!(store.read_if_in_lane(&owned, 0x1234), Some(0));
}

#[test]
fn a_sequence_of_adds_keeps_one_lane_per_name_with_the_last_mask() {
    let mut store = RowStore::new(Memory::new());
    let mut m1 = AddressMask::empty();
    m1.set(1);
    let mut m2 = AddressMask::empty();
    m2.set(2);
    let mut m3 = AddressMask::empty();
    m3.set(3);
    store.add_lane("a", m1);
    store.add_lane("b", m2);
    store.add_lane("a", m3);
    assert_eq!(store.lane_count(), 2);
    assert_eq!(store.lane("a").expect("a").mask().materialize_addresses(), vec![3]);
    assert_eq!(store.lane("b").expect("b").mask().materialize_addresses(), vec![2]);
    assert!(store.lane("c").is_none());
}
