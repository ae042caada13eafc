use echo::game::entities::{
    chunk_pointer, entry_offset, handle_index, CAPACITY, FIRST_CONTROLLER, LAST_CONTROLLER,
};

const SYSTEM: usize = 0x1000;

#[test]
fn the_first_chunk_holds_the_low_indices_that_player_controllers_use() {
    // Every controller index shares chunk zero, so they all read their
    // chunk pointer from the same place.
    for index in FIRST_CONTROLLER..=LAST_CONTROLLER {
        assert_eq!(chunk_pointer(SYSTEM, index), Some(SYSTEM + 0x10));
    }
    assert_eq!(entry_offset(1), 0x70);
    assert_eq!(entry_offset(64), 0x70 * 64);
}

#[test]
fn crossing_a_chunk_boundary_moves_to_the_next_pointer_and_restarts_the_entries() {
    assert_eq!(chunk_pointer(SYSTEM, 511), Some(SYSTEM + 0x10));
    assert_eq!(entry_offset(511), 0x70 * 511);

    assert_eq!(chunk_pointer(SYSTEM, 512), Some(SYSTEM + 0x18));
    assert_eq!(entry_offset(512), 0, "a new chunk starts at its own base");

    assert_eq!(chunk_pointer(SYSTEM, 1024), Some(SYSTEM + 0x20));
}

#[test]
fn index_zero_and_anything_past_the_table_name_no_slot() {
    assert_eq!(chunk_pointer(SYSTEM, 0), None, "zero means no entity");
    assert_eq!(chunk_pointer(SYSTEM, CAPACITY), None);
    assert_eq!(chunk_pointer(SYSTEM, u32::MAX), None);
    // The last slot lives in chunk 63: the table base plus 63 pointers.
    assert_eq!(chunk_pointer(SYSTEM, CAPACITY - 1), Some(SYSTEM + 0x208));
    assert_eq!(entry_offset(CAPACITY - 1), 0x70 * 511);
}

#[test]
fn a_handle_yields_its_index_and_the_empty_handles_yield_nothing() {
    // Serial in the high bits, index in the low fifteen.
    assert_eq!(handle_index(0x0001_8001), Some(1));
    assert_eq!(handle_index(0x7FFF), Some(0x7FFF));

    assert_eq!(handle_index(0), None, "a null handle");
    assert_eq!(handle_index(u32::MAX), None, "the invalid handle");
    assert_eq!(
        handle_index(0xFFFF_8000),
        None,
        "a serial with a zero index still names nothing"
    );
}

#[test]
fn the_capacity_is_sixty_four_chunks_of_five_hundred_and_twelve() {
    assert_eq!(CAPACITY, 32768);
    assert_eq!(chunk_pointer(SYSTEM, 32767), Some(SYSTEM + 0x10 + 8 * 63));
    assert_eq!(chunk_pointer(SYSTEM, 32768), None);
}

#[test]
fn every_index_a_handle_yields_is_accepted_by_the_table() {
    // The law that a handle's index is a real slot, on concrete handles.
    for raw in [1u32, 0x8001, 0x7FFF, 0x1234_5678, 0xFFFF_FFFE, 0x0002_0200] {
        if let Some(index) = handle_index(raw) {
            assert!(index >= 1 && index < CAPACITY);
            assert!(chunk_pointer(SYSTEM, index).is_some());
        }
    }
    assert_eq!(handle_index(0x0002_0200), Some(0x200));
}

#[test]
fn chunk_and_entry_address_distinct_indices_differently() {
    // Two indices never share both a chunk pointer and an entry offset.
    let mut seen = std::collections::HashSet::new();
    for index in [1u32, 2, 511, 512, 513, 1023, 1024, 1025, 32767] {
        let key = (chunk_pointer(SYSTEM, index), entry_offset(index));
        assert!(seen.insert(key), "{index}");
    }
}
