//! Four shell utilities, `ls`, `head`, `tail` and `cat`, as functions of
//! what the file system answered.
//!
//! Nothing here touches a file. The caller asks the file system and hands
//! over the answer: for a listing a [`ls::PathProbe`] and the present time,
//! for the other commands the text of the file or the refusal to read it.
//! What comes back is stated exactly: [`ls::ls_outcome`] says what a listing
//! is, [`listing::is_listing_order`] in which order the entries of a
//! directory stand in it, and [`lines::lines_of`] what the lines of a text
//! are. [`theorems`] holds what follows for every listing.

pub mod cat;
pub mod error;
pub mod head;
pub mod lines;
pub mod listing;
pub mod ls;
pub mod path;
pub mod raw;
pub mod sort;
pub mod tail;
pub mod text;
pub mod theorems;
