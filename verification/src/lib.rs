//! Bracket highlighting for the zsh line editor: which brackets of a
//! buffer match, and the highlights that show it.

use vstd::prelude::*;

pub mod args;
pub mod brackets;
pub mod styles;
pub mod text;

pub use args::{args_accepted, Args, ParseArgsError};
pub use brackets::{brackets_paint, Highlight};
pub use styles::{read_styles, styles_accepted, StyleSet};
pub use text::{parse_usize, IntErrorKind};

verus! {

} // verus!
