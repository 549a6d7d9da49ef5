use crate::lexer::{is_binary_symbol, is_blank};
use crate::number::is_number_char;
use vstd::prelude::*;

verus! {

/// The characters an expression is written in: blanks, digits, the decimal
/// point, the five operators and the two parentheses.
pub open spec fn allowed(c: char) -> bool {
    is_blank(c) || is_number_char(c) || is_binary_symbol(c) || c == '(' || c == ')'
}

/// Whether an expression may hold the character.
pub fn is_allowed(c: char) -> (yes: bool)
    ensures
        yes == allowed(c),
{
    c == ' ' || c == '\t' || (c >= '0' && c <= '9') || c == '.' || c == '+' || c == '-' || c == '*'
        || c == '/' || c == '^' || c == '(' || c == ')'
}

/// A key press, as far as the line editor tells keys apart.
#[derive(Debug, Clone, Copy, PartialEq, Eq, Structural)]
pub enum Key {
    Char(char),
    Backspace,
    Other,
}

/// What the terminal has to do after a key press.
#[derive(Debug, Clone, Copy, PartialEq, Eq, Structural)]
pub enum KeyAction {
    /// Show the character that was added to the line.
    Echo(char),
    /// Wipe the character that was taken from the line.
    Erase,
    /// The line is complete.
    Submit,
    /// Nothing to do.
    Ignore,
}

/// The line after a key press, and what the terminal has to do.
pub open spec fn after_key(line: Seq<char>, key: Key) -> (Seq<char>, KeyAction) {
    match key {
        Key::Char(c) => {
            if allowed(c) {
                (line.push(c), KeyAction::Echo(c))
            } else if c == 'q' {
                (line.push('q'), KeyAction::Submit)
            } else if c == '\n' {
                (line, KeyAction::Submit)
            } else {
                (line, KeyAction::Ignore)
            }
        },
        Key::Backspace => {
            if line.len() > 0 {
                (line.drop_last(), KeyAction::Erase)
            } else {
                (line, KeyAction::Ignore)
            }
        },
        Key::Other => (line, KeyAction::Ignore),
    }
}

/// Takes one key press into the line. A character of expressions joins the
/// line; backspace takes the last character away; `q` joins the line and
/// ends it; a line feed ends it; every other key is passed over.
pub fn handle_key(line: &mut Vec<char>, key: Key) -> (action: KeyAction)
    ensures
        (final(line)@, action) == after_key(old(line)@, key),
{
    match key {
        Key::Char(c) => {
            if is_allowed(c) {
                line.push(c);
                KeyAction::Echo(c)
            } else if c == 'q' {
                line.push('q');
                KeyAction::Submit
            } else if c == '\n' {
                KeyAction::Submit
            } else {
                KeyAction::Ignore
            }
        },
        Key::Backspace => {
            if line.len() > 0 {
                line.pop();
                KeyAction::Erase
            } else {
                KeyAction::Ignore
            }
        },
        Key::Other => KeyAction::Ignore,
    }
}

/// Whether a line asks to leave: its last character is `q`.
pub fn is_exit_request(line: &Vec<char>) -> (yes: bool)
    ensures
        yes == (line@.len() > 0 && line@.last() == 'q'),
{
    line.len() > 0 && line[line.len() - 1] == 'q'
}

} // verus!
