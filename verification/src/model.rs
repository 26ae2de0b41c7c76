//! The table as a sequence of slots, and what adding and deleting do to it.

use vstd::prelude::*;
use crate::key::{home_slot, TABLE_SIZE};
use crate::slot::{SlotView, State};

verus! {

/// A slot can take a new key unless it is occupied.
pub open spec fn available(slot: SlotView) -> bool {
    slot.state != State::Occupied
}

/// The table before anything was added: empty keys, never used.
pub open spec fn empty_table() -> Seq<SlotView> {
    Seq::new(TABLE_SIZE as nat, |i: int| SlotView { key: Seq::empty(), state: State::NeverUsed })
}

/// Every slot is occupied.
pub open spec fn full(slots: Seq<SlotView>) -> bool {
    forall|i: int| 0 <= i < slots.len() ==> !available(#[trigger] slots[i])
}

/// The slot that a probe starting at `start` visits at its step `step`:
/// indices grow by one and wrap from the last slot to the first.
pub open spec fn probe_index(start: int, step: int) -> int {
    (start + step) % (TABLE_SIZE as int)
}

/// `step` is the first step of the probe from `start` that meets an
/// available slot.
pub open spec fn first_free_step(slots: Seq<SlotView>, start: int, step: int) -> bool {
    &&& 0 <= step < TABLE_SIZE
    &&& available(slots[probe_index(start, step)])
    &&& forall|earlier: int|
        0 <= earlier < step ==> !available(slots[#[trigger] probe_index(start, earlier)])
}

/// Where a probe from `start` ends: the first available slot in probe order,
/// or nowhere if the probe has gone once round the table and met none.
pub open spec fn probe_target(slots: Seq<SlotView>, start: int) -> Option<int> {
    if exists|step: int| first_free_step(slots, start, step) {
        Some(probe_index(start, choose|step: int| first_free_step(slots, start, step)))
    } else {
        None
    }
}

/// The table and the answer after adding `key`: the key goes to the target of
/// the probe from its home slot, whatever keys the table already holds; a
/// table without an available slot stays as it is.
pub open spec fn add_result(slots: Seq<SlotView>, key: Seq<char>) -> (Seq<SlotView>, bool) {
    match probe_target(slots, home_slot(key)) {
        Some(target) => (slots.update(target, SlotView { key, state: State::Occupied }), true),
        None => (slots, false),
    }
}

/// The table and the answer after deleting `key`: only the home slot is
/// looked at, and an occupied home slot is tombstoned, whichever key it
/// holds. The slot keeps its key's characters.
pub open spec fn delete_result(slots: Seq<SlotView>, key: Seq<char>) -> (Seq<SlotView>, bool) {
    let home = home_slot(key);
    if slots[home].state == State::Occupied {
        (slots.update(home, SlotView { key: slots[home].key, state: State::Tombstoned }), true)
    } else {
        (slots, false)
    }
}

/// Two steps of one probe that both are the first free step are one step.
pub proof fn lemma_first_free_step_unique(slots: Seq<SlotView>, start: int, a: int, b: int)
    requires
        first_free_step(slots, start, a),
        first_free_step(slots, start, b),
    ensures
        a == b,
{
    if a < b {
        assert(!available(slots[probe_index(start, a)]));
    } else if b < a {
        assert(!available(slots[probe_index(start, b)]));
    }
}

/// A first free step names the probe's target.
pub proof fn lemma_probe_target_at(slots: Seq<SlotView>, start: int, step: int)
    requires
        first_free_step(slots, start, step),
    ensures
        probe_target(slots, start) == Some(probe_index(start, step)),
{
    let chosen = choose|s: int| first_free_step(slots, start, s);
    lemma_first_free_step_unique(slots, start, chosen, step);
}

/// A probe whose start is available ends where it starts.
pub proof fn lemma_probe_stays_home(slots: Seq<SlotView>, start: int)
    requires
        0 <= start < TABLE_SIZE,
        available(slots[start]),
    ensures
        probe_target(slots, start) == Some(start),
{
    assert(probe_index(start, 0) == start);
    lemma_probe_target_at(slots, start, 0);
}

/// A probe that meets an available slot before the end of the table ends
/// there: at the lowest available index from `start` on.
pub proof fn lemma_probe_without_wrap(slots: Seq<SlotView>, start: int, target: int)
    requires
        0 <= start <= target < TABLE_SIZE,
        forall|i: int| start <= i < target ==> !available(#[trigger] slots[i]),
        available(slots[target]),
    ensures
        probe_target(slots, start) == Some(target),
{
    let step = target - start;
    assert(probe_index(start, step) == target);
    assert forall|earlier: int| 0 <= earlier < step implies !available(
        slots[#[trigger] probe_index(start, earlier)],
    ) by {
        assert(probe_index(start, earlier) == start + earlier);
    }
    lemma_probe_target_at(slots, start, step);
}

/// A probe that meets no available slot up to the end of the table goes on
/// from slot 0 and ends at the lowest available index below `start`.
pub proof fn lemma_probe_with_wrap(slots: Seq<SlotView>, start: int, target: int)
    requires
        0 <= target < start <= TABLE_SIZE,
        forall|i: int| start <= i < TABLE_SIZE ==> !available(#[trigger] slots[i]),
        forall|i: int| 0 <= i < target ==> !available(#[trigger] slots[i]),
        available(slots[target]),
    ensures
        probe_target(slots, start) == Some(target),
{
    let step = TABLE_SIZE - start + target;
    assert(probe_index(start, step) == target);
    assert forall|earlier: int| 0 <= earlier < step implies !available(
        slots[#[trigger] probe_index(start, earlier)],
    ) by {
        if start + earlier < TABLE_SIZE {
            assert(probe_index(start, earlier) == start + earlier);
        } else {
            assert(probe_index(start, earlier) == start + earlier - TABLE_SIZE);
        }
    }
    lemma_probe_target_at(slots, start, step);
}

/// The target of a probe is met at its first free step.
pub proof fn lemma_probe_target_step(slots: Seq<SlotView>, start: int) -> (step: int)
    requires
        probe_target(slots, start) is Some,
    ensures
        first_free_step(slots, start, step),
        probe_target(slots, start) == Some(probe_index(start, step)),
{
    choose|step: int| first_free_step(slots, start, step)
}

/// A probe finds no target exactly when the table is full, and a target
/// that it finds is an available slot of the table.
pub proof fn lemma_probe_target_unless_full(slots: Seq<SlotView>, start: int)
    requires
        slots.len() == TABLE_SIZE,
        0 <= start <= TABLE_SIZE,
    ensures
        probe_target(slots, start) is None <==> full(slots),
        probe_target(slots, start) matches Some(target) ==> 0 <= target < TABLE_SIZE && available(
            slots[target],
        ),
{
    if full(slots) {
        assert forall|step: int| !first_free_step(slots, start, step) by {
            if 0 <= step < TABLE_SIZE {
                assert(!available(slots[probe_index(start, step)]));
            }
        }
    } else {
        let i = choose|i: int| 0 <= i < slots.len() && available(#[trigger] slots[i]);
        let reach = if i >= start { i - start } else { i - start + TABLE_SIZE };
        assert(probe_index(start, reach) == i);
        lemma_first_free_step_exists(slots, start, reach);
    }
}

/// If some step of the probe meets an available slot, some step is the first.
proof fn lemma_first_free_step_exists(slots: Seq<SlotView>, start: int, step: int)
    requires
        0 <= step < TABLE_SIZE,
        available(slots[probe_index(start, step)]),
    ensures
        exists|first: int| first_free_step(slots, start, first),
    decreases step,
{
    if exists|earlier: int| 0 <= earlier < step && available(slots[#[trigger] probe_index(start, earlier)]) {
        let earlier = choose|earlier: int| 0 <= earlier < step && available(slots[#[trigger] probe_index(start, earlier)]);
        lemma_first_free_step_exists(slots, start, earlier);
    } else {
        assert(first_free_step(slots, start, step));
    }
}

/// How many slots are occupied.
pub open spec fn occupied_count(slots: Seq<SlotView>) -> nat
    decreases slots.len(),
{
    if slots.len() == 0 {
        0
    } else {
        occupied_count(slots.drop_last()) + if available(slots.last()) {
            0nat
        } else {
            1nat
        }
    }
}

/// No more slots are occupied than there are, and all are exactly when the
/// table is full; none is exactly when every slot is available.
pub proof fn lemma_occupied_count_bounds(slots: Seq<SlotView>)
    ensures
        occupied_count(slots) <= slots.len(),
        occupied_count(slots) == slots.len() <==> full(slots),
        occupied_count(slots) == 0 <==> forall|i: int|
            0 <= i < slots.len() ==> available(#[trigger] slots[i]),
    decreases slots.len(),
{
    if slots.len() > 0 {
        let front = slots.drop_last();
        lemma_occupied_count_bounds(front);
        assert forall|i: int| 0 <= i < front.len() implies front[i] == slots[i] by {}
        if full(slots) {
            assert forall|i: int| 0 <= i < front.len() implies !available(#[trigger] front[i]) by {
                assert(!available(slots[i]));
            }
            assert(!available(slots[slots.len() - 1]));
        }
        if occupied_count(slots) == slots.len() {
            assert forall|i: int| 0 <= i < slots.len() implies !available(#[trigger] slots[i]) by {
                if i < front.len() {
                    assert(!available(front[i]));
                }
            }
        }
        if forall|i: int| 0 <= i < slots.len() ==> available(#[trigger] slots[i]) {
            assert forall|i: int| 0 <= i < front.len() implies available(#[trigger] front[i]) by {
                assert(available(slots[i]));
            }
            assert(available(slots[slots.len() - 1]));
        }
        if occupied_count(slots) == 0 {
            assert forall|i: int| 0 <= i < slots.len() implies available(#[trigger] slots[i]) by {
                if i < front.len() {
                    assert(available(front[i]));
                }
            }
        }
    }
}

/// Replacing one slot changes the count by what that slot gained or lost.
pub proof fn lemma_occupied_count_update(slots: Seq<SlotView>, i: int, slot: SlotView)
    requires
        0 <= i < slots.len(),
    ensures
        occupied_count(slots.update(i, slot)) + (if available(slots[i]) {
            0nat
        } else {
            1nat
        }) == occupied_count(slots) + (if available(slot) {
            0nat
        } else {
            1nat
        }),
    decreases slots.len(),
{
    let replaced = slots.update(i, slot);
    if i == slots.len() - 1 {
        assert(replaced.drop_last() =~= slots.drop_last());
    } else {
        lemma_occupied_count_update(slots.drop_last(), i, slot);
        assert(replaced.drop_last() =~= slots.drop_last().update(i, slot));
    }
}

/// The table after adding `keys` one after another, first to last.
pub open spec fn add_all(slots: Seq<SlotView>, keys: Seq<Seq<char>>) -> Seq<SlotView>
    decreases keys.len(),
{
    if keys.len() == 0 {
        slots
    } else {
        add_result(add_all(slots, keys.drop_last()), keys.last()).0
    }
}

} // verus!
