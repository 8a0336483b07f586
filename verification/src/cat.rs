//! The whole of a text.

use vstd::prelude::*;
use crate::error::{refusal, AccessFailure, CommandError};

verus! {

/// Which file to read.
#[derive(Debug)]
pub struct CatArgs {
    /// The path of the file, as raw bytes.
    pub path: Vec<u8>,
}

/// Gives the content of a file, from what reading the file gave: the text
/// as it was read, or the error that the refusal stands for, with the path.
pub fn cat(args: CatArgs, content: Result<String, AccessFailure>) -> (result: Result<
    String,
    CommandError,
>)
    ensures
        match content {
            Ok(text) => result == Ok::<String, CommandError>(text),
            Err(failure) => result matches Err(error) && error@ == refusal(failure, args.path@),
        },
{
    match content {
        Ok(text) => Ok(text),
        Err(failure) => Err(CommandError::refused(failure, args.path)),
    }
}

} // verus!
