//! Verified core of a terminal spec editor: row rendering and syntax
//! highlighting, streamed-output sanitising, Markdown highlighting of shell
//! output, spec snapshots and command-line parsing.

pub mod text;
pub mod syntax;
pub mod row;
pub mod markdown;
pub mod output;
pub mod spec_session;
pub mod args;
