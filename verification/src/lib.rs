//! What is worth reading of the output of `find`, `bun run` and `bun test`.
//!
//! The library decides: which arguments a tool gets, what of its output is kept, and
//! how the result is shown. It reads no file and runs no command; what is found and
//! what is printed comes in as plain values.
//!
//! * `find_args`, `glob`, `find_cmd`, `paths` and `listing`: a search for files, from
//!   its arguments to the report on what was found.
//! * `bun_run_cmd`: the call of `bun run` and the filter on its output.
//! * `bun_test_cmd`, with `junit`, `xml`, `test_text`, `patterns`, `ansi` and
//!   `test_report`: the call of `bun test` and the reading of its result, from a
//!   JUnit report or from plain text.
//! * `text` and `numbers`: strings and numbers, as far as the others need them.

pub mod ansi;
pub mod bun_run_cmd;
pub mod bun_test_cmd;
pub mod find_args;
pub mod find_cmd;
pub mod glob;
pub mod junit;
pub mod listing;
pub mod numbers;
pub mod paths;
pub mod patterns;
pub mod test_report;
pub mod test_text;
pub mod text;
pub mod xml;
