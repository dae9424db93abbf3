//! Tabletop dice notation: parsing expressions such as `6d20 - 1d4` into
//! terms, rolling them, and rendering expressions and rolls back to text.

pub mod dice;
pub mod errors;
pub mod text;

pub use dice::die::Die;
pub use dice::notation::{dice_content, find_dice, TermCaptures};
pub use dice::roll::Roll;
pub use dice::Dice;
pub use errors::{DiceError, ParsingError, StructureError};
