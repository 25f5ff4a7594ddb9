//! Non-interactive hunk picker for unified diffs: parse a diff, split its hunks into minimal
//! sub-hunks, address them by index, range or content id, and emit the chosen ones as a diff
//! of their own.

pub mod apply;
pub mod bytes;
pub mod cli;
pub mod counts;
pub mod command;
pub mod emit;
pub mod error;
pub mod gitenv;
pub mod input;
pub mod list;
pub mod model;
pub mod parsed;
pub mod parser;
pub mod renumber;
pub mod reselect;
pub mod roundtrip;
pub mod select;
pub mod split;
pub mod subhunk_id;
pub mod text;
pub mod validate;
