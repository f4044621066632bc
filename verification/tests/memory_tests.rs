use bitpit::memory::Memory;
use bitpit::memory::node::{Node, TreeLevel, BitLevel, WordLevel, PageLevel, BranchLevel,
    ChildOfBranchLevel, address_key, child_index, row_index};
use bitpit::memory::read::search_bit;
use bitpit::memory::twiddling::{floor_div, floor_div_rem, floor_rem, get_word_bit, set_word_bit};

#[test]
fn fresh_memory_reads_zero() {
    let memory = Memory::new();
    assert!(!memory.get_bit(0));
    assert!(!memory.get_bit(12345));
    assert!(!memory.get_bit(-12345));
    assert!(!memory.get_bit(i128::MAX));
    assert!(!memory.get_bit(i128::MIN));
}

#[test]
fn set_then_get_round_trip() {
    let mut memory = Memory::new();
    for &address in &[0i128, 1, 7, 15, 16, 1000, -1, -8, -4096, i128::MAX, i128::MIN] {
        memory.set_bit(address, true);
        assert!(memory.get_bit(address), "address {address}");
    }
    for &address in &[0i128, 1, 7, 15, 16, 1000, -1, -8, -4096, i128::MAX, i128::MIN] {
        assert!(memory.get_bit(address));
    }
}

#[test]
fn writes_do_not_disturb_neighbours() {
    let mut memory = Memory::new();
    memory.set_bit(40, true);
    assert!(!memory.get_bit(39));
    assert!(!memory.get_bit(41));
    assert!(!memory.get_bit(-40));
    memory.set_bit(40, false);
    assert!(!memory.get_bit(40));
}

#[test]
fn far_apart_writes_share_one_tree() {
    let mut memory = Memory::new();
    memory.set_bit(3, true);
    memory.set_bit(1 << 100, true);
    memory.set_bit(-(1 << 90), true);
    assert!(memory.get_bit(3));
    assert!(memory.get_bit(1 << 100));
    assert!(memory.get_bit(-(1 << 90)));
    assert!(!memory.get_bit(4));
    assert!(memory.tree_layers() >= 2);
}

#[test]
fn tree_layers_starts_at_one() {
    let memory = Memory::new();
    assert_eq!(memory.tree_layers(), 1);
}

#[test]
fn search_bit_misses_outside_the_page() {
    let page = Node::page(0);
    assert_eq!(search_bit(&page, 3), Some(false));
    assert_eq!(search_bit(&page, 16), None);
    assert_eq!(search_bit(&page, -1), None);
}

#[test]
fn address_key_is_twos_complement() {
    assert_eq!(address_key(0), 0);
    assert_eq!(address_key(5), 5);
    assert_eq!(address_key(-1), u128::MAX);
    assert_eq!(address_key(i128::MIN), 1u128 << 127);
}

#[test]
fn level_scales_and_slots() {
    assert_eq!(BitLevel.scale_factor(), 1);
    assert_eq!(WordLevel.scale_factor(), 8);
    assert_eq!(PageLevel.scale_factor(), 16);
    assert_eq!(BranchLevel(0).scale_factor(), 32);
    assert_eq!(ChildOfBranchLevel(BranchLevel(0)).scale_factor(), 16);
    assert_eq!(BitLevel.parent().scale_factor(), 8);
    assert_eq!(BranchLevel(2).parent().scale_factor(), 256);
}

#[test]
fn rows_and_child_slots() {
    assert_eq!(row_index(35, PageLevel), 2);
    assert_eq!(child_index(9, WordLevel), 1);
    assert_eq!(child_index(9, BitLevel), 1);
    assert_eq!(child_index(35, ChildOfBranchLevel(BranchLevel(0))), 0);
    assert_eq!(child_index(-1, ChildOfBranchLevel(BranchLevel(0))), 1);
}

#[test]
fn flooring_division_rounds_down() {
    assert_eq!(floor_div(7, 2), 3);
    assert_eq!(floor_div(-7, 2), -4);
    assert_eq!(floor_rem(7, 2), 1);
    assert_eq!(floor_rem(-7, 2), 1);
    assert_eq!(floor_rem(-8, 2), 0);
    assert_eq!(floor_div_rem(-9, 4), (-3, 3));
}

#[test]
fn word_bit_access() {
    let mut word = 0u8;
    set_word_bit(&mut word, 3, true);
    assert_eq!(word, 8);
    assert!(get_word_bit(word, 3));
    assert!(!get_word_bit(word, 2));
    set_word_bit(&mut word, 3, false);
    assert_eq!(word, 0);
}
