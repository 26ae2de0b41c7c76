//! Slots and their states.

use vstd::prelude::*;

verus! {

/// What a slot has been through.
///
/// A slot starts as `NeverUsed`, becomes `Occupied` when a key is stored in
/// it, `Tombstoned` when that key is deleted, and `Occupied` again when a
/// later key takes the place. No slot ever returns to `NeverUsed`.
#[derive(Copy, Clone, PartialEq, Eq, Debug, Structural)]
pub enum State {
    NeverUsed,
    Tombstoned,
    Occupied,
}

/// A slot: the key last stored in it, and its state. The key counts as
/// present only while the state is `Occupied`.
pub type HashSlot<'a> = (&'a str, State);

/// A slot as contracts see it: the characters of its key, and its state.
pub struct SlotView {
    pub key: Seq<char>,
    pub state: State,
}

/// The mathematical value of a slot.
pub open spec fn slot_view(slot: HashSlot) -> SlotView {
    SlotView { key: slot.0@, state: slot.1 }
}

} // verus!
