//! Highlight types, their terminal colours, and syntax configurations.

use vstd::prelude::*;

verus! {

/// Resets all terminal formatting.
pub const RESET: &'static str = "\x1b[m";

/// White background, black foreground: used for control characters.
pub const WBG: &'static str = "\x1b[47;30m";

/// Type of highlighting of a rendered byte.
#[derive(Clone, Copy, Debug, PartialEq, Eq, Structural)]
pub enum HlType {
    Normal,
    Number,
    Match,
    String,
    MlString,
    Comment,
    MlComment,
    Keyword1,
    Keyword2,
}

impl HlType {
    /// The escape sequence that selects this highlighting, as characters.
    pub open spec fn spec_escape(self) -> Seq<char> {
        match self {
            HlType::Normal => "\x1b[39m"@,
            HlType::Number => "\x1b[31m"@,
            HlType::Match => "\x1b[46m"@,
            HlType::String => "\x1b[32m"@,
            HlType::MlString => "\x1b[32m"@,
            HlType::Comment => "\x1b[34m"@,
            HlType::MlComment => "\x1b[34m"@,
            HlType::Keyword1 => "\x1b[33m"@,
            HlType::Keyword2 => "\x1b[35m"@,
        }
    }

    /// The escape sequence that selects this highlighting.
    pub fn escape(&self) -> (s: &'static str)
        ensures
            s@ == self.spec_escape(),
    {
        match self {
            HlType::Normal => "\x1b[39m",
            HlType::Number => "\x1b[31m",
            HlType::Match => "\x1b[46m",
            HlType::String => "\x1b[32m",
            HlType::MlString => "\x1b[32m",
            HlType::Comment => "\x1b[34m",
            HlType::MlComment => "\x1b[34m",
            HlType::Keyword1 => "\x1b[33m",
            HlType::Keyword2 => "\x1b[35m",
        }
    }
}

/// A syntax configuration: how to highlight the rows of a file.
pub struct SyntaxConf {
    /// Name of the language.
    pub name: String,
    /// Whether numbers are highlighted.
    pub highlight_numbers: bool,
    /// Quotes that open and close single-line strings.
    pub sl_string_quotes: Vec<char>,
    /// Markers that start a comment running to the end of the line.
    pub sl_comment_start: Vec<String>,
    /// Start and end of multi-line comments.
    pub ml_comment_delims: Option<(String, String)>,
    /// Delimiter of multi-line strings (both start and end).
    pub ml_string_delim: Option<String>,
    /// Keyword groups and the highlighting of each.
    pub keywords: Vec<(HlType, Vec<String>)>,
}

impl Default for SyntaxConf {
    fn default() -> (conf: Self)
        ensures
            conf.name@.len() == 0,
            !conf.highlight_numbers,
            conf.sl_string_quotes@.len() == 0,
            conf.sl_comment_start@.len() == 0,
            conf.ml_comment_delims is None,
            conf.ml_string_delim is None,
            conf.keywords@.len() == 0,
    {
        SyntaxConf {
            name: String::new(),
            highlight_numbers: false,
            sl_string_quotes: Vec::new(),
            sl_comment_start: Vec::new(),
            ml_comment_delims: None,
            ml_string_delim: None,
            keywords: Vec::new(),
        }
    }
}

impl SyntaxConf {
    /// Multi-line comments have a non-empty opening or closing delimiter, and
    /// multi-line strings a non-empty delimiter: with both empty, a row would
    /// open and close the construct forever without highlighting a byte.
    pub open spec fn wf(&self) -> bool {
        &&& (self.ml_comment_delims matches Some(d) ==> d.0@.len() > 0 || d.1@.len() > 0)
        &&& (self.ml_string_delim matches Some(d) ==> d@.len() > 0)
    }
}

} // verus!
