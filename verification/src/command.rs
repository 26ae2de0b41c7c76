//! Commands as text: one letter that names the operation, then the key.
//!
//! A line of input holds commands separated by whitespace. `A` or `a` adds
//! the key that follows it, `D` or `d` deletes it. A command whose key is not
//! valid is passed over, and so is one that begins with any other character;
//! neither reaches the table, and neither stops the commands after it.

use vstd::prelude::*;
use vstd::string::StrSliceExecFns;
use crate::key::{is_valid_key, valid_key};
use crate::model::{add_result, delete_result};
use crate::slot::SlotView;
use crate::table::HashTable;

verus! {

/// What a command asks of the table.
#[derive(Copy, Clone, PartialEq, Eq, Debug, Structural)]
pub enum Operation {
    Add,
    Delete,
}

/// An operation and the key to apply it to.
#[derive(Copy, Clone, PartialEq, Eq, Debug)]
pub struct Command<'a> {
    pub op: Operation,
    pub key: &'a str,
}

/// A command as contracts see it.
pub struct CommandView {
    pub op: Operation,
    pub key: Seq<char>,
}

impl<'a> View for Command<'a> {
    type V = CommandView;

    open spec fn view(&self) -> CommandView {
        CommandView { op: self.op, key: self.key@ }
    }
}

/// Why a token is no command.
#[derive(Copy, Clone, PartialEq, Eq, Debug, Structural)]
pub enum CommandError {
    /// The token is empty or begins with a character that names no operation.
    UnknownOperation,
    /// What follows the operation letter is not a valid key.
    InvalidKey,
}

/// What became of one token of the input.
#[derive(Copy, Clone, PartialEq, Eq, Debug)]
pub enum Outcome<'a> {
    /// The token was a command; `changed` is what the table answered.
    Applied { command: Command<'a>, changed: bool },
    /// The token was passed over and the table not touched.
    Skipped { token: &'a str, reason: CommandError },
}

/// An outcome as contracts see it.
pub enum OutcomeView {
    Applied { command: CommandView, changed: bool },
    Skipped { token: Seq<char>, reason: CommandError },
}

impl<'a> View for Outcome<'a> {
    type V = OutcomeView;

    open spec fn view(&self) -> OutcomeView {
        match *self {
            Outcome::Applied { command, changed } => OutcomeView::Applied {
                command: command@,
                changed,
            },
            Outcome::Skipped { token, reason } => OutcomeView::Skipped { token: token@, reason },
        }
    }
}

/// The characters of each string, in order.
pub open spec fn text_views(texts: Seq<&str>) -> Seq<Seq<char>> {
    Seq::new(texts.len(), |i: int| texts[i]@)
}

/// The view of each outcome, in order.
pub open spec fn outcome_views(outcomes: Seq<Outcome>) -> Seq<OutcomeView> {
    Seq::new(outcomes.len(), |i: int| outcomes[i]@)
}

/// The operation that a letter names, if it names one.
pub open spec fn operation_of(letter: char) -> Option<Operation> {
    if letter == 'A' || letter == 'a' {
        Some(Operation::Add)
    } else if letter == 'D' || letter == 'd' {
        Some(Operation::Delete)
    } else {
        None
    }
}

/// The command that a token spells. The first character names the
/// operation and the rest is the key; the operation is looked at first.
pub open spec fn parse_token(token: Seq<char>) -> Result<CommandView, CommandError> {
    if token.len() == 0 {
        Err(CommandError::UnknownOperation)
    } else {
        match operation_of(token[0]) {
            None => Err(CommandError::UnknownOperation),
            Some(op) => if valid_key(token.skip(1)) {
                Ok(CommandView { op, key: token.skip(1) })
            } else {
                Err(CommandError::InvalidKey)
            },
        }
    }
}

/// The table and the answer after a command.
pub open spec fn apply_result(slots: Seq<SlotView>, command: CommandView) -> (Seq<SlotView>, bool) {
    match command.op {
        Operation::Add => add_result(slots, command.key),
        Operation::Delete => delete_result(slots, command.key),
    }
}

/// The table and the outcome after one token.
pub open spec fn token_result(slots: Seq<SlotView>, token: Seq<char>) -> (
    Seq<SlotView>,
    OutcomeView,
) {
    match parse_token(token) {
        Ok(command) => {
            let applied = apply_result(slots, command);
            (applied.0, OutcomeView::Applied { command, changed: applied.1 })
        },
        Err(reason) => (slots, OutcomeView::Skipped { token, reason }),
    }
}

/// The table and the outcomes after a sequence of tokens, taken first to
/// last: one outcome for each token.
pub open spec fn run_result(slots: Seq<SlotView>, tokens: Seq<Seq<char>>) -> (
    Seq<SlotView>,
    Seq<OutcomeView>,
)
    decreases tokens.len(),
{
    if tokens.len() == 0 {
        (slots, Seq::empty())
    } else {
        let before = run_result(slots, tokens.drop_last());
        let last = token_result(before.0, tokens.last());
        (last.0, before.1.push(last.1))
    }
}

/// Whether a character separates commands: what `char::is_whitespace` says
/// of it, which is whether Unicode gives it the property `White_Space`.
pub uninterp spec fn is_whitespace(c: char) -> bool;

/// Calls `char::is_whitespace`. Nothing is claimed of the answer but that it
/// depends on the character alone.
#[verifier::external_body]
fn char_is_whitespace(c: char) -> (space: bool)
    ensures
        space == is_whitespace(c),
{
    c.is_whitespace()
}

/// A word in progress when the text ends or whitespace follows: it counts as
/// a token unless it is empty.
pub open spec fn finished(word: Seq<char>) -> Seq<Seq<char>> {
    if word.len() > 0 {
        seq![word]
    } else {
        Seq::empty()
    }
}

/// The tokens of `word` followed by `text`, where `word` holds no whitespace:
/// characters are taken into the word until whitespace ends it.
pub open spec fn tokens_after(word: Seq<char>, text: Seq<char>) -> Seq<Seq<char>>
    decreases text.len(),
{
    if text.len() == 0 {
        finished(word)
    } else if is_whitespace(text[0]) {
        finished(word) + tokens_after(Seq::empty(), text.skip(1))
    } else {
        tokens_after(word.push(text[0]), text.skip(1))
    }
}

/// The tokens of a text: its longest runs of characters that are not
/// whitespace, first to last.
pub open spec fn tokens(text: Seq<char>) -> Seq<Seq<char>> {
    tokens_after(Seq::empty(), text)
}

/// Reads one token as a command.
pub fn parse_command<'a>(token: &'a str) -> (parsed: Result<Command<'a>, CommandError>)
    ensures
        match parsed {
            Ok(command) => parse_token(token@) == Ok::<CommandView, CommandError>(command@),
            Err(reason) => parse_token(token@) == Err::<CommandView, CommandError>(reason),
        },
{
    let len: usize = token.unicode_len();
    if len == 0 {
        return Err(CommandError::UnknownOperation);
    }
    let letter: char = token.get_char(0);
    let op = if letter == 'A' || letter == 'a' {
        Operation::Add
    } else if letter == 'D' || letter == 'd' {
        Operation::Delete
    } else {
        return Err(CommandError::UnknownOperation);
    };
    let key = token.substring_char(1, len);
    assert(key@ =~= token@.skip(1));
    if is_valid_key(key) {
        Ok(Command { op, key })
    } else {
        Err(CommandError::InvalidKey)
    }
}

/// Cuts a text into its tokens. Each character is reached by counting from
/// the start of the text, so the time taken grows with the square of the
/// text's length.
pub fn split_tokens<'a>(input: &'a str) -> (words: Vec<&'a str>)
    ensures
        text_views(words@) == tokens(input@),
{
    let len: usize = input.unicode_len();
    let mut words: Vec<&'a str> = Vec::new();
    let mut start: usize = 0;
    let mut i: usize = 0;
    assert(input@.skip(0) =~= input@);
    assert(input@.subrange(0, 0) =~= Seq::<char>::empty());
    assert(text_views(words@) =~= Seq::<Seq<char>>::empty());
    while i < len
        invariant
            len == input@.len(),
            start <= i <= len,
            tokens(input@) == text_views(words@) + tokens_after(
                input@.subrange(start as int, i as int),
                input@.skip(i as int),
            ),
        decreases len - i,
    {
        let c: char = input.get_char(i);
        let ghost word = input@.subrange(start as int, i as int);
        let ghost before = text_views(words@);
        assert(input@.skip(i as int).skip(1) =~= input@.skip(i + 1));
        assert(input@.skip(i as int)[0] == c);
        if char_is_whitespace(c) {
            if start < i {
                let token = input.substring_char(start, i);
                words.push(token);
                assert(text_views(words@) =~= before + finished(word));
            }
            start = i + 1;
            assert(input@.subrange(start as int, i + 1) =~= Seq::<char>::empty());
        } else {
            assert(input@.subrange(start as int, i + 1) =~= word.push(c));
        }
        i += 1;
    }
    let ghost before = text_views(words@);
    if start < len {
        let token = input.substring_char(start, len);
        words.push(token);
        assert(text_views(words@) =~= before + finished(input@.subrange(start as int, len as int)));
    }
    words
}

impl<'a> HashTable<'a> {
    /// Does what `command` asks, and hands on the table's answer.
    pub fn apply(&mut self, command: Command<'a>) -> (changed: bool)
        requires
            valid_key(command.key@),
        ensures
            final(self)@ == apply_result(old(self)@, command@).0,
            changed == apply_result(old(self)@, command@).1,
    {
        match command.op {
            Operation::Add => self.add(command.key),
            Operation::Delete => self.delete(command.key),
        }
    }

    /// Takes the tokens first to last: applies each one that is a command
    /// and passes over the others. There is one outcome for each token.
    pub fn run_tokens(&mut self, tokens: &Vec<&'a str>) -> (outcomes: Vec<Outcome<'a>>)
        ensures
            final(self)@ == run_result(old(self)@, text_views(tokens@)).0,
            outcome_views(outcomes@) == run_result(old(self)@, text_views(tokens@)).1,
            outcomes@.len() == tokens@.len(),
    {
        let mut outcomes: Vec<Outcome<'a>> = Vec::new();
        let mut i: usize = 0;
        assert(text_views(tokens@).take(0) =~= Seq::<Seq<char>>::empty());
        assert(outcome_views(outcomes@) =~= Seq::<OutcomeView>::empty());
        while i < tokens.len()
            invariant
                i <= tokens.len(),
                outcomes@.len() == i,
                self@ == run_result(old(self)@, text_views(tokens@).take(i as int)).0,
                outcome_views(outcomes@) == run_result(
                    old(self)@,
                    text_views(tokens@).take(i as int),
                ).1,
            decreases tokens.len() - i,
        {
            let token: &'a str = tokens[i];
            let ghost before = outcome_views(outcomes@);
            proof {
                let taken = text_views(tokens@).take(i + 1);
                assert(taken.drop_last() =~= text_views(tokens@).take(i as int));
                assert(taken.last() == token@);
            }
            let outcome = match parse_command(token) {
                Ok(command) => {
                    let changed = self.apply(command);
                    Outcome::Applied { command, changed }
                },
                Err(reason) => Outcome::Skipped { token, reason },
            };
            outcomes.push(outcome);
            assert(outcome_views(outcomes@) =~= before.push(outcome@));
            i += 1;
        }
        assert(text_views(tokens@).take(i as int) =~= text_views(tokens@));
        outcomes
    }

    /// Runs the commands of `input`, first to last.
    pub fn parse_input(&mut self, input: &'a str) -> (outcomes: Vec<Outcome<'a>>)
        ensures
            final(self)@ == run_result(old(self)@, tokens(input@)).0,
            outcome_views(outcomes@) == run_result(old(self)@, tokens(input@)).1,
            outcomes@.len() == tokens(input@).len(),
    {
        let words = split_tokens(input);
        self.run_tokens(&words)
    }
}

} // verus!
