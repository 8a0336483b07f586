//! The first lines of a text.

use vstd::prelude::*;
use crate::error::{refusal, AccessFailure, CommandError};
use crate::lines::{lines_of, split_lines};
use crate::text::texts;

verus! {

/// Which file to read, and how many of its lines to give.
#[derive(Debug)]
pub struct HeadArgs {
    /// The path of the file, as raw bytes.
    pub path: Vec<u8>,
    /// How many lines to give.
    pub number: usize,
}

/// The first `number` of `lines`, or all of them where there are no more.
pub open spec fn first_lines(lines: Seq<Seq<char>>, number: int) -> Seq<Seq<char>> {
    if number < lines.len() {
        lines.take(number)
    } else {
        lines
    }
}

/// Gives the first lines of a file, from what reading the file gave: its
/// first `number` lines where it was read, and the error that the refusal
/// stands for, with the path, where it was not.
pub fn head(args: HeadArgs, content: Result<String, AccessFailure>) -> (result: Result<
    Vec<String>,
    CommandError,
>)
    ensures
        match content {
            Ok(text) => result matches Ok(lines) && texts(lines@) == first_lines(
                lines_of(text@),
                args.number as int,
            ),
            Err(failure) => result matches Err(error) && error@ == refusal(failure, args.path@),
        },
{
    match content {
        Ok(text) => Ok(split_lines(text.as_str(), Some(args.number))),
        Err(failure) => Err(CommandError::refused(failure, args.path)),
    }
}

} // verus!
