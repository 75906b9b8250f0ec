//! The level book of a rhythm-jumping game: the pieces a level is made of,
//! the text format that levels are saved in, and the level editor's rules.
use vstd::prelude::*;

pub mod number;
pub mod text;
pub mod piece;
pub mod levels;
pub mod book_file;
pub mod pieces;
pub mod editor;
pub mod title;

verus! {

} // verus!
