//! Errors a parse can end with. A grammar error carries the position
//! (line and column, both starting at 1) or the span at which the
//! source stopped making sense.

use vstd::prelude::*;

verus! {

/// Where in the source a grammar error was found: a single position or
/// a span from a start to an end position, each a (line, column) pair.
#[derive(Debug, Clone, Copy, PartialEq, Eq)]
pub enum LineColLocation {
    Pos((usize, usize)),
    Span((usize, usize), (usize, usize)),
}

/// A syntax or structure fault in the configuration text. The path
/// names the originating file once the error has crossed a file
/// boundary; raw input is attributed to `<anonymous>`.
#[derive(Debug, PartialEq, Eq)]
pub struct GrammarError {
    pub line_col: LineColLocation,
    pub message: String,
    pub path: String,
}

/// A fault met while obtaining a configuration file's text.
#[derive(Debug, PartialEq, Eq)]
pub enum ConfigReadError {
    /// The file at this path could not be read.
    ReadingConfig(String),
    /// The path does not name a regular file.
    NotRegularFile(String),
    /// The file at this path exceeds the size cap, in MiB.
    TooLarge(String, u64),
}

/// Every way a parse can fail.
#[derive(Debug, PartialEq, Eq)]
pub enum ParseError {
    Grammar(GrammarError),
    /// The grammar produced no root production.
    MainSection,
    ConfigRead(ConfigReadError),
    /// A key name that resolves to no key code.
    InvalidKey(String),
}

impl ParseError {
    /// The same error, a grammar fault now naming its originating
    /// file.
    pub fn with_path(self, path: &str) -> (r: ParseError)
        ensures
            match self {
                ParseError::Grammar(g) => r matches ParseError::Grammar(g2) && g2.line_col
                    == g.line_col && g2.message == g.message && g2.path@ == path@,
                _ => r == self,
            },
    {
        match self {
            ParseError::Grammar(g) => ParseError::Grammar(
                GrammarError {
                    line_col: g.line_col,
                    message: g.message,
                    path: String::from_str(path),
                },
            ),
            other => other,
        }
    }
}

} // verus!
