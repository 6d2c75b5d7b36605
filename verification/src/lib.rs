//! Extraction of a state machine (states, shapes, steps) from the text cells
//! of a spreadsheet, with the record sets and file texts derived from them.
//!
//! Limits: at most `MAX_ROWS` rows of a sheet are read, the header row
//! included, and cell text is written between double quotes as it is, so a
//! cell that holds a double quote gives a malformed line.

pub mod text;
pub mod sheet;
pub mod states;
pub mod steps;
pub mod mapping;
pub mod workbook;
