//! Keys, and the slot that each key calls home.

use vstd::prelude::*;
use vstd::string::StrSliceExecFns;

verus! {

/// Number of slots in a table: one for each letter that a key may end in.
pub const TABLE_SIZE: usize = 26;

/// Length of the longest key, counted in characters.
pub const MAX_KEY_LEN: usize = 10;

/// The characters that keys are made of.
pub open spec fn is_key_char(c: char) -> bool {
    'a' <= c <= 'z'
}

/// A key is between one and `MAX_KEY_LEN` lowercase ASCII letters.
pub open spec fn valid_key(key: Seq<char>) -> bool {
    &&& 1 <= key.len() <= MAX_KEY_LEN
    &&& forall|i: int| 0 <= i < key.len() ==> is_key_char(#[trigger] key[i])
}

/// Position of a letter in the alphabet, counted from zero.
pub open spec fn letter_index(c: char) -> int {
    c as int - 'a' as int
}

/// The home slot of a key: the alphabet position of its last letter.
pub open spec fn home_slot(key: Seq<char>) -> int {
    letter_index(key.last())
}

/// Every valid key has its home inside the table.
pub proof fn lemma_home_slot_in_table(key: Seq<char>)
    requires
        valid_key(key),
    ensures
        0 <= home_slot(key) < TABLE_SIZE,
{
    assert(is_key_char(key[key.len() - 1]));
}

/// Decides whether `key` may be handed to a table.
pub fn is_valid_key(key: &str) -> (ok: bool)
    ensures
        ok == valid_key(key@),
{
    let len: usize = key.unicode_len();
    if len == 0 || len > MAX_KEY_LEN {
        return false;
    }
    let mut i: usize = 0;
    while i < len
        invariant
            len == key@.len(),
            1 <= len <= MAX_KEY_LEN,
            i <= len,
            forall|j: int| 0 <= j < i ==> is_key_char(#[trigger] key@[j]),
        decreases len - i,
    {
        let c: char = key.get_char(i);
        if c < 'a' || c > 'z' {
            assert(!is_key_char(key@[i as int]));
            return false;
        }
        i += 1;
    }
    true
}

} // verus!
