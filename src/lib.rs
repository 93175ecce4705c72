//! Style and complexity checks for C translation units.
//!
//! - `syntax`: the model of a parsed C file that every check reads.
//! - `complexity`: the logical line count of function bodies, itemised.
//! - `realign`: one file's own text rebuilt from preprocessor output, with
//!   its own line numbers.
//! - `identifiers`: macro naming and identifier style consistency.
//! - `lint`: findings, and the checks on a file's top level.
//! - `includes`: the files of a translation unit, found through `#include`.
//! - `text`: lines and numbers.
pub mod text;
pub mod syntax;
pub mod lint;
pub mod complexity;
pub mod realign;
pub mod identifiers;
pub mod includes;
