//! Parse-mode flags.
use vstd::prelude::*;

verus! {

/// Which non-standard syntax the reader accepts.
#[derive(Clone, Copy, Debug, PartialEq, Eq, Structural)]
pub struct Dialect {
    /// Accept `// ...` and `/* ... */` wherever whitespace may stand.
    pub allow_comments: bool,
    /// Reserved: a comma before a closing bracket. The reader does not act on it.
    pub allow_trailing_comma: bool,
}

impl Dialect {
    /// Plain JSON: no comments, no trailing commas.
    pub fn strict() -> (d: Dialect)
        ensures
            d == (Dialect { allow_comments: false, allow_trailing_comma: false }),
    {
        Dialect { allow_comments: false, allow_trailing_comma: false }
    }

    /// The same dialect with comment support set to `on`.
    pub fn comments(self, on: bool) -> (d: Dialect)
        ensures
            d == (Dialect { allow_comments: on, allow_trailing_comma: self.allow_trailing_comma }),
    {
        Dialect { allow_comments: on, allow_trailing_comma: self.allow_trailing_comma }
    }

    /// The same dialect with the trailing-comma flag set to `on`.
    pub fn trailing_comma(self, on: bool) -> (d: Dialect)
        ensures
            d == (Dialect { allow_comments: self.allow_comments, allow_trailing_comma: on }),
    {
        Dialect { allow_comments: self.allow_comments, allow_trailing_comma: on }
    }
}

impl Default for Dialect {
    /// The dialect used when none is named: plain JSON.
    fn default() -> (d: Dialect)
        ensures
            d == (Dialect { allow_comments: false, allow_trailing_comma: false }),
    {
        Dialect { allow_comments: false, allow_trailing_comma: false }
    }
}

} // verus!
