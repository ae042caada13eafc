//! Finding an entity by index.
//!
//! Entities sit in 64 chunks of 512 slots each, reached through a table of
//! chunk pointers, so one entity is two dereferences away. A handle packs an
//! index into its low fifteen bits and a serial number above them.

use vstd::prelude::*;

verus! {

/// Slots per chunk.
pub const CHUNK_SIZE: u32 = 512;

/// Chunks in the table.
pub const CHUNK_COUNT: u32 = 64;

/// Where the chunk pointer table starts inside the entity system.
pub const CHUNK_TABLE: usize = 0x10;

/// Bytes between chunk pointers.
pub const CHUNK_POINTER_STRIDE: usize = 0x08;

/// Bytes between entries inside a chunk.
pub const ENTRY_STRIDE: usize = 0x70;

/// The part of a handle that is an index; the rest is the serial.
pub const HANDLE_INDEX_MASK: u32 = 0x7FFF;

/// One past the highest entity index the table can hold.
pub const CAPACITY: u32 = CHUNK_SIZE * CHUNK_COUNT;

/// The lowest index a player controller occupies.
pub const FIRST_CONTROLLER: u32 = 1;

/// The highest index a player controller occupies.
pub const LAST_CONTROLLER: u32 = 64;

/// An index names a slot of the table: zero is the game's "no entity".
pub open spec fn names_a_slot(index: int) -> bool {
    0 < index < CAPACITY
}

/// The chunk an index lives in.
pub open spec fn chunk_of(index: int) -> int {
    index / (CHUNK_SIZE as int)
}

/// The slot of an index inside its chunk.
pub open spec fn slot_of(index: int) -> int {
    index % (CHUNK_SIZE as int)
}

/// Address of the chunk pointer for an index, as a mathematical integer.
pub open spec fn chunk_pointer_at(system: int, index: int) -> int {
    system + CHUNK_TABLE + CHUNK_POINTER_STRIDE * chunk_of(index)
}

/// Address holding the pointer to the chunk that `index` lives in.
///
/// Index zero is excluded: the game uses it as "no entity", so a zero here is
/// a null handle that leaked through rather than a real slot.
pub fn chunk_pointer(system: usize, index: u32) -> (res: Option<usize>)
    requires
        names_a_slot(index as int) ==> chunk_pointer_at(system as int, index as int) <= usize::MAX,
    ensures
        res is Some <==> names_a_slot(index as int),
        res matches Some(p) ==> p == chunk_pointer_at(system as int, index as int),
{
    if index == 0 || index >= CAPACITY {
        return None;
    }
    let chunk = (index / CHUNK_SIZE) as usize;
    Some(system + CHUNK_TABLE + CHUNK_POINTER_STRIDE * chunk)
}

/// Offset of `index`'s entry within its own chunk.
pub fn entry_offset(index: u32) -> (res: usize)
    ensures
        res == ENTRY_STRIDE * slot_of(index as int),
{
    let slot = (index % CHUNK_SIZE) as usize;
    ENTRY_STRIDE * slot
}

/// The index a handle refers to, or `None` for a handle that names nothing.
pub open spec fn handle_index_spec(raw: u32) -> Option<u32> {
    if raw == 0 || raw == u32::MAX || raw & HANDLE_INDEX_MASK == 0 {
        None
    } else {
        Some(raw & HANDLE_INDEX_MASK)
    }
}

/// The index a handle refers to, or `None` for a handle that names nothing.
pub fn handle_index(raw: u32) -> (res: Option<u32>)
    ensures
        res == handle_index_spec(raw),
{
    if raw == 0 || raw == u32::MAX {
        return None;
    }
    let index = raw & HANDLE_INDEX_MASK;
    if index == 0 {
        None
    } else {
        Some(index)
    }
}

/// Every index a handle yields is a real slot of the table: at least one and
/// below the capacity, so it can be handed to [`chunk_pointer`] and
/// [`entry_offset`] without being turned away.
pub proof fn lemma_handle_index_names_a_slot(raw: u32)
    ensures
        handle_index_spec(raw) matches Some(i) ==> names_a_slot(i as int) && i <= HANDLE_INDEX_MASK,
{
    assert(raw & 0x7FFFu32 <= 0x7FFFu32) by (bit_vector);
}

/// An index is recovered from its chunk and slot: the chunk pointer and entry
/// offset together address exactly one slot, and different indices never
/// share both.
pub proof fn lemma_chunk_and_slot_recover_the_index(index: int)
    requires
        names_a_slot(index),
    ensures
        index == chunk_of(index) * (CHUNK_SIZE as int) + slot_of(index),
        0 <= chunk_of(index) < CHUNK_COUNT,
        0 <= slot_of(index) < CHUNK_SIZE,
{
}

/// Two slots that share a chunk pointer and an entry offset are the same slot.
pub proof fn lemma_slots_are_distinct(system: int, a: int, b: int)
    requires
        names_a_slot(a),
        names_a_slot(b),
        chunk_pointer_at(system, a) == chunk_pointer_at(system, b),
        ENTRY_STRIDE * slot_of(a) == ENTRY_STRIDE * slot_of(b),
    ensures
        a == b,
{
    lemma_chunk_and_slot_recover_the_index(a);
    lemma_chunk_and_slot_recover_the_index(b);
}

/// Every controller index lies in chunk zero, so all of them read their chunk
/// pointer from the start of the table.
pub proof fn lemma_controllers_share_the_first_chunk(system: int, index: int)
    requires
        FIRST_CONTROLLER <= index <= LAST_CONTROLLER,
    ensures
        names_a_slot(index),
        chunk_pointer_at(system, index) == system + CHUNK_TABLE,
        slot_of(index) == index,
{
}

/// A handle's index is its low fifteen bits: the serial above them never
/// changes which slot it names, and a handle names nothing exactly when it
/// is null, all ones, or its low fifteen bits are zero.
pub proof fn lemma_handle_index_is_the_low_fifteen_bits(raw: u32)
    ensures
        handle_index_spec(raw) == (if raw == 0 || raw == u32::MAX || raw % 0x8000 == 0 {
            None::<u32>
        } else {
            Some((raw % 0x8000) as u32)
        }),
{
    assert(raw & 0x7FFFu32 == raw % 0x8000) by (bit_vector);
}

} // verus!
