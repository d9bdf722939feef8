//! Parsing and pricing of Hay Day item data: the records that the item
//! table of the game's wiki holds, line by line, and the value that the
//! ingredients of each item add up to.

pub mod added_price;
pub mod columns;
pub mod extract;
pub mod matching;
pub mod numeric;
pub mod wiki;
