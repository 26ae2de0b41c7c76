//! The table itself.

use vstd::prelude::*;
use crate::key::{home_slot, lemma_home_slot_in_table, valid_key, TABLE_SIZE};
use crate::model::{
    add_result, available, delete_result, empty_table, full, lemma_probe_target_unless_full,
    lemma_probe_with_wrap, lemma_probe_without_wrap, probe_target,
};
use crate::slot::{slot_view, HashSlot, SlotView, State};
use vstd::string::StrSliceExecFns;

verus! {

/// A table of `TABLE_SIZE` slots that borrows the keys stored in it.
#[derive(Debug)]
pub struct HashTable<'a> {
    slots: [HashSlot<'a>; TABLE_SIZE],
}

impl<'a> View for HashTable<'a> {
    type V = Seq<SlotView>;

    /// The slots in index order.
    closed spec fn view(&self) -> Seq<SlotView> {
        Seq::new(TABLE_SIZE as nat, |i: int| slot_view(self.slots[i]))
    }
}

impl<'a> Default for HashTable<'a> {
    fn default() -> (table: Self)
        ensures
            table@ == empty_table(),
    {
        let table = Self { slots: [("", State::NeverUsed); TABLE_SIZE] };
        proof {
            reveal_strlit("");
            assert(""@ =~= Seq::<char>::empty());
            assert(table@ =~= empty_table());
        }
        table
    }
}

impl<'a> HashTable<'a> {
    /// Every table has `TABLE_SIZE` slots.
    pub proof fn lemma_len(&self)
        ensures
            self@.len() == TABLE_SIZE,
    {
    }

    /// Replacing one slot of the array replaces that slot of the view.
    proof fn lemma_slot_replaced(&self, i: int)
        requires
            0 <= i < TABLE_SIZE,
        ensures
            forall|after: Self, slot: HashSlot<'a>|
                #![trigger after@, slot_view(slot)]
                after.slots@ == self.slots@.update(i, slot) ==> after@ == self@.update(
                    i,
                    slot_view(slot),
                ),
    {
        assert forall|after: Self, slot: HashSlot<'a>|
            after.slots@ == self.slots@.update(i, slot) implies #[trigger] after@ == self@.update(
            i,
            #[trigger] slot_view(slot),
        ) by {
            assert(after@ =~= self@.update(i, slot_view(slot)));
        }
    }

    /// A table whose slots have never been used.
    pub fn new() -> (table: Self)
        ensures
            table@ == empty_table(),
    {
        Self::default()
    }

    /// Probes from `start` and hands out the first slot that is not occupied,
    /// for the caller to fill; there is none exactly when the table is full.
    /// `start` may be `TABLE_SIZE`, which probes as from slot 0. The table
    /// changes only through the slot handed out.
    pub fn wrap_next_index(&mut self, start: usize) -> (found: Option<&mut HashSlot<'a>>)
        requires
            start <= TABLE_SIZE,
        ensures
            found is None <==> full(old(self)@),
            match found {
                Some(slot) => {
                    &&& probe_target(old(self)@, start as int) matches Some(target)
                    &&& 0 <= target < TABLE_SIZE
                    &&& slot.1 != State::Occupied
                    &&& slot_view(*slot) == old(self)@[target]
                    &&& final(self)@ == old(self)@.update(target, slot_view(*final(slot)))
                },
                None => {
                    &&& probe_target(old(self)@, start as int) is None
                    &&& final(self)@ == old(self)@
                },
            },
    {
        proof {
            lemma_probe_target_unless_full(self@, start as int);
        }
        let mut i: usize = start;
        while i < TABLE_SIZE
            invariant
                start <= i <= TABLE_SIZE,
                *self == *old(self),
                forall|j: int| start <= j < i ==> !available(#[trigger] self@[j]),
            decreases TABLE_SIZE - i,
        {
            if self.slots[i].1 != State::Occupied {
                proof {
                    lemma_probe_without_wrap(self@, start as int, i as int);
                    self.lemma_slot_replaced(i as int);
                }
                return Some(&mut self.slots[i]);
            }
            i += 1;
        }
        i = 0;
        while i < start
            invariant
                i <= start <= TABLE_SIZE,
                *self == *old(self),
                forall|j: int| start <= j < TABLE_SIZE ==> !available(#[trigger] self@[j]),
                forall|j: int| 0 <= j < i ==> !available(#[trigger] self@[j]),
            decreases start - i,
        {
            if self.slots[i].1 != State::Occupied {
                proof {
                    lemma_probe_with_wrap(self@, start as int, i as int);
                    self.lemma_slot_replaced(i as int);
                }
                return Some(&mut self.slots[i]);
            }
            i += 1;
        }
        None
    }

    /// The home slot of `key`.
    pub fn hash(&self, key: &'a str) -> (home: usize)
        requires
            valid_key(key@),
        ensures
            home == home_slot(key@),
            home < TABLE_SIZE,
    {
        let len: usize = key.unicode_len();
        let last: char = key.get_char(len - 1);
        proof {
            lemma_home_slot_in_table(key@);
        }
        last as usize - 'a' as usize
    }

    /// Stores `key` in the first slot, probing from its home slot, that is
    /// not occupied, and says whether there was one. Keys already in the
    /// table are not looked for: adding a key twice stores it twice.
    pub fn add(&mut self, key: &'a str) -> (added: bool)
        requires
            valid_key(key@),
        ensures
            final(self)@ == add_result(old(self)@, key@).0,
            added == add_result(old(self)@, key@).1,
            added <==> !full(old(self)@),
    {
        let home = self.hash(key);
        if let Some(slot) = self.wrap_next_index(home) {
            slot.0 = key;
            slot.1 = State::Occupied;
            true
        } else {
            false
        }
    }

    /// Tombstones the home slot of `key` if it is occupied, and says whether
    /// it was. No other slot is looked at, and the key in the home slot is
    /// not compared with `key`.
    pub fn delete(&mut self, key: &'a str) -> (deleted: bool)
        requires
            valid_key(key@),
        ensures
            final(self)@ == delete_result(old(self)@, key@).0,
            deleted == delete_result(old(self)@, key@).1,
            deleted <==> old(self)@[home_slot(key@)].state == State::Occupied,
    {
        let home = self.hash(key);
        proof {
            self.lemma_slot_replaced(home as int);
        }
        let slot = &mut self.slots[home];
        if slot.1 == State::Occupied {
            slot.1 = State::Tombstoned;
            true
        } else {
            false
        }
    }

    /// The slots in index order, each with its index, the key last written
    /// to it (empty in a new table) and its state.
    pub fn entries(&self) -> (listed: Vec<(usize, &'a str, State)>)
        ensures
            listed@.len() == TABLE_SIZE,
            forall|i: int|
                0 <= i < TABLE_SIZE ==> {
                    &&& (#[trigger] listed@[i]).0 == i
                    &&& listed@[i].1@ == self@[i].key
                    &&& listed@[i].2 == self@[i].state
                },
    {
        let mut listed: Vec<(usize, &'a str, State)> = Vec::new();
        let mut i: usize = 0;
        while i < TABLE_SIZE
            invariant
                i <= TABLE_SIZE,
                listed@.len() == i,
                forall|j: int|
                    0 <= j < i ==> {
                        &&& (#[trigger] listed@[j]).0 == j
                        &&& listed@[j].1@ == self@[j].key
                        &&& listed@[j].2 == self@[j].state
                    },
            decreases TABLE_SIZE - i,
        {
            let slot = self.slots[i];
            listed.push((i, slot.0, slot.1));
            i += 1;
        }
        listed
    }
}

} // verus!
