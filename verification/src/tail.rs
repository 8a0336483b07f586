//! The last lines of a text.

use vstd::prelude::*;
use crate::error::{refusal, AccessFailure, CommandError};
use crate::lines::{lines_of, split_lines};
use crate::text::texts;

verus! {

/// Which file to read, and how many of its lines to give.
#[derive(Debug)]
pub struct TailArgs {
    /// The path of the file, as raw bytes.
    pub path: Vec<u8>,
    /// How many lines to give.
    pub number: usize,
}

/// The last `number` of `lines`, or all of them where there are no more.
pub open spec fn last_lines(lines: Seq<Seq<char>>, number: int) -> Seq<Seq<char>> {
    if number < lines.len() {
        lines.skip(lines.len() - number)
    } else {
        lines
    }
}

/// Gives the last lines of a file, from what reading the file gave: its
/// last `number` lines, in their order, where it was read, and the error
/// that the refusal stands for, with the path, where it was not.
pub fn tail(args: TailArgs, content: Result<String, AccessFailure>) -> (result: Result<
    Vec<String>,
    CommandError,
>)
    ensures
        match content {
            Ok(text) => result matches Ok(lines) && texts(lines@) == last_lines(
                lines_of(text@),
                args.number as int,
            ),
            Err(failure) => result matches Err(error) && error@ == refusal(failure, args.path@),
        },
{
    match content {
        Ok(text) => {
            let mut all = split_lines(text.as_str(), None);
            let total = all.len();
            if args.number >= total {
                Ok(all)
            } else {
                let ghost whole = all@;
                let kept = all.split_off(total - args.number);
                assert(texts(kept@) =~= texts(whole).skip(total - args.number));
                Ok(kept)
            }
        },
        Err(failure) => Err(CommandError::refused(failure, args.path)),
    }
}

} // verus!
