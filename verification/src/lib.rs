//! A fixed-capacity table of string keys, one slot per lowercase letter.
//!
//! A key is hashed by its last letter to its home slot. Adding probes linearly
//! from the home slot, wrapping at the end of the table, and stores the key in
//! the first slot that is not occupied. Deleting looks at the home slot only
//! and leaves a tombstone there. The table never grows.

pub mod command;
pub mod key;
pub mod model;
pub mod slot;
pub mod table;
pub mod theorems;

pub use crate::command::{
    parse_command, split_tokens, Command, CommandError, Operation, Outcome,
};
pub use crate::key::{is_valid_key, MAX_KEY_LEN, TABLE_SIZE};
pub use crate::slot::{HashSlot, State};
pub use crate::table::HashTable;
