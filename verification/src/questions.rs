//! Reading the user's answers to questions.

use vstd::prelude::*;

use crate::text::{
    chars_of, parse_unsigned, parse_unsigned_spec, string_from_range, trim, trim_bounds,
};

verus! {

/// The reading of an answer to a yes/no question.
#[derive(Debug, Clone, Copy, PartialEq, Eq, Structural)]
pub enum BoolReply {
    Yes,
    No,
    /// The answer starts with something else.
    Invalid,
    /// Nothing was answered.
    Empty,
}

/// How an answer to a yes/no question is read: by its first character,
/// `y` or `Y` for yes, `n` or `N` for no.
pub open spec fn bool_reply_of(line: Seq<char>) -> BoolReply {
    if line.len() == 0 {
        BoolReply::Empty
    } else if line[0] == 'y' || line[0] == 'Y' {
        BoolReply::Yes
    } else if line[0] == 'n' || line[0] == 'N' {
        BoolReply::No
    } else {
        BoolReply::Invalid
    }
}

/// Reads an answer to a yes/no question (see `bool_reply_of`).
pub fn bool_answer(line: &str) -> (r: BoolReply)
    ensures
        r == bool_reply_of(line@),
{
    let v = chars_of(line);
    if v.len() == 0 {
        BoolReply::Empty
    } else if v[0] == 'y' || v[0] == 'Y' {
        BoolReply::Yes
    } else if v[0] == 'n' || v[0] == 'N' {
        BoolReply::No
    } else {
        BoolReply::Invalid
    }
}

/// The reading of an answer to a question with numbered options.
#[derive(Debug, Clone, Copy, PartialEq, Eq, Structural)]
pub enum OptionReply {
    /// The number of the option chosen, from 1.
    Chosen(usize),
    /// A number that is not the number of an option.
    OutOfRange,
    /// Not a number.
    Invalid,
}

/// How an answer to a question with `n` numbered options is read: the
/// trimmed answer must be a number (as `str::parse::<usize>` reads it) from 1
/// to `n`.
pub open spec fn option_reply_of(line: Seq<char>, n: nat) -> OptionReply {
    match parse_unsigned_spec(trim(line), usize::MAX as nat) {
        None => OptionReply::Invalid,
        Some(v) => if 1 <= v <= n {
            OptionReply::Chosen(v as usize)
        } else {
            OptionReply::OutOfRange
        },
    }
}

/// Reads an answer to a question with `n_options` numbered options (see
/// `option_reply_of`).
pub fn option_answer(line: &str, n_options: usize) -> (r: OptionReply)
    ensures
        r == option_reply_of(line@, n_options as nat),
{
    let v = chars_of(line);
    let (lo, hi) = trim_bounds(&v);
    let trimmed = string_from_range(&v, lo, hi);
    match parse_unsigned(trimmed.as_str(), usize::MAX as u64) {
        None => OptionReply::Invalid,
        Some(value) => {
            if 1 <= value && value <= n_options as u64 {
                OptionReply::Chosen(value as usize)
            } else {
                OptionReply::OutOfRange
            }
        },
    }
}

} // verus!
