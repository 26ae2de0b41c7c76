//! What holds of every table, whatever was added to it and deleted from it.
//!
//! The theorems speak of tables as sequences of slots, and of `add_result`
//! and `delete_result`, in whose terms `HashTable::add` and
//! `HashTable::delete` state what they do.

use vstd::prelude::*;
use crate::command::{
    finished, is_whitespace, parse_token, run_result, token_result, tokens, tokens_after,
    CommandError, CommandView, OutcomeView,
};
use crate::key::{home_slot, lemma_home_slot_in_table, valid_key, TABLE_SIZE};
use crate::model::{
    add_all, add_result, available, delete_result, empty_table, full, lemma_occupied_count_bounds,
    lemma_occupied_count_update, lemma_probe_stays_home, lemma_probe_target_unless_full,
    lemma_probe_target_step, lemma_probe_with_wrap, lemma_probe_without_wrap, occupied_count,
    probe_index, probe_target,
};
use crate::slot::{SlotView, State};

verus! {

/// The changes of state that a slot can go through in one operation: none,
/// from available to occupied, or from occupied to tombstoned.
pub open spec fn step_allowed(before: State, after: State) -> bool {
    ||| after == before
    ||| before != State::Occupied && after == State::Occupied
    ||| before == State::Occupied && after == State::Tombstoned
}

/// The number of steps after which the probe from `start` visits `slot`.
pub open spec fn steps_to(start: int, slot: int) -> int {
    (slot - start + TABLE_SIZE) % (TABLE_SIZE as int)
}

/// A probe begins at its start, goes from each slot to the next higher one
/// and from the last slot to slot 0, and in `TABLE_SIZE` steps visits every
/// slot of the table once.
pub proof fn lemma_probe_order(start: int)
    requires
        0 <= start <= TABLE_SIZE,
    ensures
        probe_index(start, 0) == start % (TABLE_SIZE as int),
        forall|step: int|
            0 <= step ==> #[trigger] probe_index(start, step + 1) == if probe_index(start, step)
                == TABLE_SIZE - 1 {
                0
            } else {
                probe_index(start, step) + 1
            },
        forall|step: int| 0 <= step ==> 0 <= #[trigger] probe_index(start, step) < TABLE_SIZE,
        forall|a: int, b: int|
            0 <= a < b < TABLE_SIZE ==> #[trigger] probe_index(start, a) != #[trigger] probe_index(
                start,
                b,
            ),
        forall|slot: int|
            0 <= slot < TABLE_SIZE ==> 0 <= #[trigger] steps_to(start, slot) < TABLE_SIZE
                && probe_index(start, steps_to(start, slot)) == slot,
{
}

/// Adding to a table in which every slot is occupied is refused and changes
/// no slot.
pub proof fn lemma_add_to_full_table(slots: Seq<SlotView>, key: Seq<char>)
    requires
        slots.len() == TABLE_SIZE,
        valid_key(key),
        full(slots),
    ensures
        add_result(slots, key).0 == slots,
        add_result(slots, key).1 == false,
{
    lemma_home_slot_in_table(key);
    lemma_probe_target_unless_full(slots, home_slot(key));
}

/// Adding is refused only by a full table. When it is accepted, exactly one
/// slot changes: it was available, it now is occupied and holds the key.
pub proof fn lemma_add_fills_one_slot(slots: Seq<SlotView>, key: Seq<char>)
    requires
        slots.len() == TABLE_SIZE,
        valid_key(key),
    ensures
        add_result(slots, key).1 <==> !full(slots),
        add_result(slots, key).0.len() == TABLE_SIZE,
        add_result(slots, key).1 ==> exists|target: int|
            {
                &&& 0 <= target < TABLE_SIZE
                &&& available(#[trigger] slots[target])
                &&& add_result(slots, key).0 == slots.update(
                    target,
                    SlotView { key, state: State::Occupied },
                )
            },
        occupied_count(add_result(slots, key).0) == occupied_count(slots) + if full(slots) {
            0nat
        } else {
            1nat
        },
{
    lemma_home_slot_in_table(key);
    lemma_probe_target_unless_full(slots, home_slot(key));
    match probe_target(slots, home_slot(key)) {
        Some(target) => {
            assert(available(slots[target]));
            lemma_occupied_count_update(slots, target, SlotView { key, state: State::Occupied });
        },
        None => {},
    }
}

/// Added one after another to a table that was never used, the first
/// `TABLE_SIZE` keys are accepted, whichever slots they call home, and fill
/// the table; every later key is refused and changes nothing.
pub proof fn lemma_capacity(keys: Seq<Seq<char>>, next: Seq<char>)
    requires
        forall|i: int| 0 <= i < keys.len() ==> valid_key(#[trigger] keys[i]),
        valid_key(next),
    ensures
        add_all(empty_table(), keys).len() == TABLE_SIZE,
        occupied_count(add_all(empty_table(), keys)) == if keys.len() <= TABLE_SIZE {
            keys.len()
        } else {
            TABLE_SIZE as nat
        },
        add_result(add_all(empty_table(), keys), next).1 <==> keys.len() < TABLE_SIZE,
        keys.len() >= TABLE_SIZE ==> add_result(add_all(empty_table(), keys), next).0 == add_all(
            empty_table(),
            keys,
        ),
    decreases keys.len(),
{
    let table = add_all(empty_table(), keys);
    if keys.len() == 0 {
        lemma_occupied_count_bounds(empty_table());
    } else {
        let front = keys.drop_last();
        assert forall|i: int| 0 <= i < front.len() implies valid_key(#[trigger] front[i]) by {
            assert(front[i] == keys[i]);
        }
        lemma_capacity(front, keys.last());
        lemma_add_fills_one_slot(add_all(empty_table(), front), keys.last());
        lemma_occupied_count_bounds(add_all(empty_table(), front));
    }
    lemma_occupied_count_bounds(table);
    lemma_add_fills_one_slot(table, next);
    if full(table) {
        lemma_add_to_full_table(table, next);
    }
}

/// A key whose home slot is available goes there.
pub proof fn lemma_add_at_home(slots: Seq<SlotView>, key: Seq<char>)
    requires
        slots.len() == TABLE_SIZE,
        valid_key(key),
        available(slots[home_slot(key)]),
    ensures
        add_result(slots, key).0 == slots.update(
            home_slot(key),
            SlotView { key, state: State::Occupied },
        ),
        add_result(slots, key).1,
{
    lemma_home_slot_in_table(key);
    lemma_probe_stays_home(slots, home_slot(key));
}

/// A key whose home slot is occupied goes to the next available slot in
/// increasing index order, if there is one before the end of the table.
pub proof fn lemma_add_after_collision(slots: Seq<SlotView>, key: Seq<char>, target: int)
    requires
        slots.len() == TABLE_SIZE,
        valid_key(key),
        home_slot(key) <= target < TABLE_SIZE,
        forall|i: int| home_slot(key) <= i < target ==> !available(#[trigger] slots[i]),
        available(slots[target]),
    ensures
        add_result(slots, key).0 == slots.update(target, SlotView { key, state: State::Occupied }),
        add_result(slots, key).1,
{
    lemma_home_slot_in_table(key);
    lemma_probe_without_wrap(slots, home_slot(key), target);
}

/// A key that finds every slot from its home slot to the end of the table
/// occupied goes on from slot 0, to the lowest available index.
pub proof fn lemma_add_wraps_around(slots: Seq<SlotView>, key: Seq<char>, target: int)
    requires
        slots.len() == TABLE_SIZE,
        valid_key(key),
        0 <= target < home_slot(key),
        forall|i: int| home_slot(key) <= i < TABLE_SIZE ==> !available(#[trigger] slots[i]),
        forall|i: int| 0 <= i < target ==> !available(#[trigger] slots[i]),
        available(slots[target]),
    ensures
        add_result(slots, key).0 == slots.update(target, SlotView { key, state: State::Occupied }),
        add_result(slots, key).1,
{
    lemma_home_slot_in_table(key);
    lemma_probe_with_wrap(slots, home_slot(key), target);
}

/// Of two keys with one home slot, added one after the other where that
/// slot is available, the first takes the home slot and the second, if the
/// table has room, the first available slot that the probe meets after it.
pub proof fn lemma_second_key_probes_on(slots: Seq<SlotView>, first: Seq<char>, second: Seq<char>)
    requires
        slots.len() == TABLE_SIZE,
        valid_key(first),
        valid_key(second),
        home_slot(first) == home_slot(second),
        available(slots[home_slot(first)]),
    ensures
        ({
            let home = home_slot(first);
            let once = add_result(slots, first).0;
            let twice = add_result(once, second);
            &&& add_result(slots, first).1
            &&& once == slots.update(home, SlotView { key: first, state: State::Occupied })
            &&& twice.1 ==> exists|step: int|
                {
                    &&& 1 <= step < TABLE_SIZE
                    &&& available(slots[#[trigger] probe_index(home, step)])
                    &&& forall|earlier: int|
                        1 <= earlier < step ==> !available(
                            slots[#[trigger] probe_index(home, earlier)],
                        )
                    &&& twice.0 == once.update(
                        probe_index(home, step),
                        SlotView { key: second, state: State::Occupied },
                    )
                }
        }),
{
    let home = home_slot(first);
    lemma_home_slot_in_table(first);
    lemma_add_at_home(slots, first);
    let once = add_result(slots, first).0;
    if add_result(once, second).1 {
        let step = lemma_probe_target_step(once, home);
        assert(probe_index(home, 0) == home);
        assert(step != 0);
        assert(1 <= step < TABLE_SIZE);
        assert(probe_index(home, step) != home);
        assert(available(slots[probe_index(home, step)]));
        assert forall|earlier: int| 1 <= earlier < step implies !available(
            slots[#[trigger] probe_index(home, earlier)],
        ) by {
            assert(!available(once[probe_index(home, earlier)]));
            assert(probe_index(home, earlier) != home);
        }
    }
}

/// Add a key, delete it, and add a second key with the same home slot: the
/// delete and the second add both succeed, and the second key then sits in
/// the home slot, occupied. Where the home slot was available at first, that
/// is the slot which the first key had taken, and no other slot has changed.
pub proof fn lemma_tombstone_reuse(slots: Seq<SlotView>, first: Seq<char>, second: Seq<char>)
    requires
        slots.len() == TABLE_SIZE,
        valid_key(first),
        valid_key(second),
        home_slot(first) == home_slot(second),
    ensures
        ({
            let home = home_slot(first);
            let added = add_result(slots, first).0;
            let deleted = delete_result(added, first);
            let reused = add_result(deleted.0, second);
            &&& deleted.1
            &&& deleted.0[home].state == State::Tombstoned
            &&& reused.1
            &&& reused.0 == added.update(home, SlotView { key: second, state: State::Occupied })
            &&& available(slots[home]) ==> {
                &&& added[home] == SlotView { key: first, state: State::Occupied }
                &&& reused.0 == slots.update(home, SlotView { key: second, state: State::Occupied })
            }
        }),
{
    let home = home_slot(first);
    lemma_home_slot_in_table(first);
    lemma_add_fills_one_slot(slots, first);
    let added = add_result(slots, first).0;
    if available(slots[home]) {
        lemma_add_at_home(slots, first);
    } else {
        lemma_probe_target_unless_full(slots, home);
    }
    assert(added[home].state == State::Occupied);
    let deleted = delete_result(added, first).0;
    lemma_add_at_home(deleted, second);
    assert(add_result(deleted, second).0 =~= added.update(
        home,
        SlotView { key: second, state: State::Occupied },
    ));
    if available(slots[home]) {
        assert(add_result(deleted, second).0 =~= slots.update(
            home,
            SlotView { key: second, state: State::Occupied },
        ));
    }
}

/// Deleting looks at the home slot of the key and at no other: it succeeds
/// exactly when that slot is occupied, whichever key the slot holds, and
/// every other slot stays as it is. A key that was stored away from its home
/// slot is therefore still stored after it was deleted.
pub proof fn lemma_delete_is_local(slots: Seq<SlotView>, key: Seq<char>)
    requires
        slots.len() == TABLE_SIZE,
        valid_key(key),
    ensures
        delete_result(slots, key).1 <==> slots[home_slot(key)].state == State::Occupied,
        delete_result(slots, key).0.len() == TABLE_SIZE,
        delete_result(slots, key).0[home_slot(key)].key == slots[home_slot(key)].key,
        forall|i: int|
            0 <= i < TABLE_SIZE && i != home_slot(key) ==> #[trigger] delete_result(slots, key).0[i]
                == slots[i],
{
    lemma_home_slot_in_table(key);
}

/// A key that a collision has sent away from its home slot cannot be
/// deleted once the home slot is no longer occupied: the delete fails, and
/// the key stays where it is.
pub proof fn lemma_delete_misses_probed_key(slots: Seq<SlotView>, key: Seq<char>, at: int)
    requires
        slots.len() == TABLE_SIZE,
        valid_key(key),
        0 <= at < TABLE_SIZE,
        at != home_slot(key),
        slots[at] == (SlotView { key, state: State::Occupied }),
        available(slots[home_slot(key)]),
    ensures
        delete_result(slots, key).1 == false,
        delete_result(slots, key).0 == slots,
        delete_result(slots, key).0[at] == (SlotView { key, state: State::Occupied }),
{
}

/// Deleting a key whose home slot was never used or is tombstoned fails and
/// changes nothing, however often it is tried.
pub proof fn lemma_failed_delete(slots: Seq<SlotView>, key: Seq<char>)
    requires
        slots.len() == TABLE_SIZE,
        valid_key(key),
        slots[home_slot(key)].state == State::NeverUsed || slots[home_slot(key)].state
            == State::Tombstoned,
    ensures
        delete_result(slots, key).1 == false,
        delete_result(slots, key).0 == slots,
        delete_result(delete_result(slots, key).0, key) == delete_result(slots, key),
{
}

/// A second delete of the same key, with nothing added in between, fails
/// and changes nothing.
pub proof fn lemma_delete_twice(slots: Seq<SlotView>, key: Seq<char>)
    requires
        slots.len() == TABLE_SIZE,
        valid_key(key),
    ensures
        delete_result(delete_result(slots, key).0, key).1 == false,
        delete_result(delete_result(slots, key).0, key).0 == delete_result(slots, key).0,
{
    lemma_home_slot_in_table(key);
}

/// A successful delete frees one slot, a failed one none.
pub proof fn lemma_delete_frees_one_slot(slots: Seq<SlotView>, key: Seq<char>)
    requires
        slots.len() == TABLE_SIZE,
        valid_key(key),
    ensures
        occupied_count(slots) == occupied_count(delete_result(slots, key).0) + if delete_result(
            slots,
            key,
        ).1 {
            1nat
        } else {
            0nat
        },
{
    let home = home_slot(key);
    lemma_home_slot_in_table(key);
    if slots[home].state == State::Occupied {
        lemma_occupied_count_update(
            slots,
            home,
            SlotView { key: slots[home].key, state: State::Tombstoned },
        );
    }
}

/// Neither operation takes a slot through a change of state other than the
/// allowed ones. In particular no slot ever returns to `NeverUsed`, and the
/// table keeps its size.
pub proof fn lemma_slots_step(slots: Seq<SlotView>, key: Seq<char>)
    requires
        slots.len() == TABLE_SIZE,
        valid_key(key),
    ensures
        add_result(slots, key).0.len() == TABLE_SIZE,
        delete_result(slots, key).0.len() == TABLE_SIZE,
        forall|i: int|
            0 <= i < TABLE_SIZE ==> step_allowed(
                slots[i].state,
                (#[trigger] add_result(slots, key).0[i]).state,
            ),
        forall|i: int|
            0 <= i < TABLE_SIZE ==> step_allowed(
                slots[i].state,
                (#[trigger] delete_result(slots, key).0[i]).state,
            ),
        forall|i: int|
            0 <= i < TABLE_SIZE && slots[i].state != State::NeverUsed ==> (#[trigger] add_result(
                slots,
                key,
            ).0[i]).state != State::NeverUsed,
        forall|i: int|
            0 <= i < TABLE_SIZE && slots[i].state != State::NeverUsed ==> (#[trigger] delete_result(
                slots,
                key,
            ).0[i]).state != State::NeverUsed,
{
    lemma_home_slot_in_table(key);
    lemma_probe_target_unless_full(slots, home_slot(key));
}

/// A word is a run of characters with no whitespace among them, and not
/// empty.
pub open spec fn is_word(word: Seq<char>) -> bool {
    &&& word.len() > 0
    &&& forall|i: int| 0 <= i < word.len() ==> !is_whitespace(#[trigger] word[i])
}

/// Every token that the scan after `word` yields is a word, if `word` holds
/// no whitespace.
proof fn lemma_tokens_after_are_words(word: Seq<char>, text: Seq<char>)
    requires
        forall|i: int| 0 <= i < word.len() ==> !is_whitespace(#[trigger] word[i]),
    ensures
        forall|i: int|
            0 <= i < tokens_after(word, text).len() ==> is_word(
                #[trigger] tokens_after(word, text)[i],
            ),
    decreases text.len(),
{
    let found = tokens_after(word, text);
    if text.len() == 0 {
        assert forall|i: int| 0 <= i < found.len() implies is_word(#[trigger] found[i]) by {
            assert(found[i] == word);
        }
    } else if is_whitespace(text[0]) {
        let later = tokens_after(Seq::empty(), text.skip(1));
        lemma_tokens_after_are_words(Seq::empty(), text.skip(1));
        assert forall|i: int| 0 <= i < found.len() implies is_word(#[trigger] found[i]) by {
            if i < finished(word).len() {
                assert(found[i] == word);
            } else {
                assert(found[i] == later[i - finished(word).len()]);
            }
        }
    } else {
        let longer = word.push(text[0]);
        assert forall|i: int| 0 <= i < longer.len() implies !is_whitespace(
            #[trigger] longer[i],
        ) by {
            if i < word.len() {
                assert(longer[i] == word[i]);
            }
        }
        lemma_tokens_after_are_words(longer, text.skip(1));
        assert(found == tokens_after(longer, text.skip(1)));
    }
}

/// Every token of a text is a word.
pub proof fn lemma_tokens_are_words(text: Seq<char>)
    ensures
        forall|i: int| 0 <= i < tokens(text).len() ==> is_word(#[trigger] tokens(text)[i]),
{
    lemma_tokens_after_are_words(Seq::empty(), text);
}

/// The scan after `word` of a text without whitespace yields both as one
/// token.
proof fn lemma_tokens_after_word(word: Seq<char>, text: Seq<char>)
    requires
        word.len() + text.len() > 0,
        forall|i: int| 0 <= i < text.len() ==> !is_whitespace(#[trigger] text[i]),
    ensures
        tokens_after(word, text) == seq![word + text],
    decreases text.len(),
{
    if text.len() == 0 {
        assert(word + text =~= word);
    } else {
        let rest = text.skip(1);
        assert forall|i: int| 0 <= i < rest.len() implies !is_whitespace(#[trigger] rest[i]) by {
            assert(rest[i] == text[i + 1]);
        }
        lemma_tokens_after_word(word.push(text[0]), rest);
        assert(word.push(text[0]) + rest =~= word + text);
    }
}

/// A word is its own and only token.
pub proof fn lemma_tokens_of_word(word: Seq<char>)
    requires
        is_word(word),
    ensures
        tokens(word) == seq![word],
{
    lemma_tokens_after_word(Seq::empty(), word);
    assert(Seq::<char>::empty() + word =~= word);
}

/// Whitespace at the start of a text adds no token.
pub proof fn lemma_tokens_skip_whitespace(space: char, rest: Seq<char>)
    requires
        is_whitespace(space),
    ensures
        tokens(seq![space] + rest) == tokens(rest),
{
    let text = seq![space] + rest;
    assert(text[0] == space);
    assert(text.skip(1) =~= rest);
    assert(finished(Seq::empty()) + tokens(rest) =~= tokens(rest));
}

/// The scan after `word` of a run without whitespace, then whitespace, then
/// more text yields the word and the run as one token before the tokens of
/// the rest.
proof fn lemma_tokens_after_split(word: Seq<char>, run: Seq<char>, space: char, rest: Seq<char>)
    requires
        word.len() + run.len() > 0,
        forall|i: int| 0 <= i < run.len() ==> !is_whitespace(#[trigger] run[i]),
        is_whitespace(space),
    ensures
        tokens_after(word, run + seq![space] + rest) == seq![word + run] + tokens(rest),
    decreases run.len(),
{
    let text = run + seq![space] + rest;
    if run.len() == 0 {
        assert(text[0] == space);
        assert(text.skip(1) =~= rest);
        assert(word + run =~= word);
    } else {
        let later = run.skip(1);
        assert(text[0] == run[0]);
        assert(text.skip(1) =~= later + seq![space] + rest);
        assert forall|i: int| 0 <= i < later.len() implies !is_whitespace(#[trigger] later[i]) by {
            assert(later[i] == run[i + 1]);
        }
        lemma_tokens_after_split(word.push(run[0]), later, space, rest);
        assert(word.push(run[0]) + later =~= word + run);
    }
}

/// A word, whitespace after it, and more text: the word is the first token,
/// and the tokens of the rest follow.
pub proof fn lemma_tokens_split(word: Seq<char>, space: char, rest: Seq<char>)
    requires
        is_word(word),
        is_whitespace(space),
    ensures
        tokens(word + seq![space] + rest) == seq![word] + tokens(rest),
{
    lemma_tokens_after_split(Seq::empty(), word, space, rest);
    assert(Seq::<char>::empty() + word =~= word);
}

/// Whatever the tokens are, there is one outcome for each, in order, and
/// the table keeps its size.
pub proof fn lemma_run_result_shape(slots: Seq<SlotView>, tokens: Seq<Seq<char>>)
    requires
        slots.len() == TABLE_SIZE,
    ensures
        run_result(slots, tokens).0.len() == TABLE_SIZE,
        run_result(slots, tokens).1.len() == tokens.len(),
        forall|i: int|
            0 <= i < tokens.len() ==> match #[trigger] run_result(slots, tokens).1[i] {
                OutcomeView::Applied { command, .. } => parse_token(tokens[i]) == Ok::<
                    CommandView,
                    CommandError,
                >(command),
                OutcomeView::Skipped { token, reason } => token == tokens[i] && parse_token(
                    tokens[i],
                ) == Err::<CommandView, CommandError>(reason),
            },
    decreases tokens.len(),
{
    if tokens.len() > 0 {
        let front = tokens.drop_last();
        lemma_run_result_shape(slots, front);
        let before = run_result(slots, front);
        match parse_token(tokens.last()) {
            Ok(command) => {
                lemma_slots_step(before.0, command.key);
            },
            Err(_) => {},
        }
        assert forall|i: int| 0 <= i < tokens.len() implies match #[trigger] run_result(
            slots,
            tokens,
        ).1[i] {
            OutcomeView::Applied { command, .. } => parse_token(tokens[i]) == Ok::<
                CommandView,
                CommandError,
            >(command),
            OutcomeView::Skipped { token, reason } => token == tokens[i] && parse_token(tokens[i])
                == Err::<CommandView, CommandError>(reason),
        } by {
            if i < front.len() {
                assert(run_result(slots, tokens).1[i] == before.1[i]);
                assert(front[i] == tokens[i]);
            }
        }
    }
}

/// A token that is no command leaves the table as it is.
pub proof fn lemma_skipped_token_changes_nothing(slots: Seq<SlotView>, token: Seq<char>)
    requires
        parse_token(token) is Err,
    ensures
        token_result(slots, token).0 == slots,
        token_result(slots, token).1 is Skipped,
{
}

} // verus!
