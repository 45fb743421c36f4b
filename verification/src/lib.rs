//! Parser for an INI-like configuration dialect.
//!
//! A document is a root body of `key=value` lines followed by any number of
//! `[dotted.section]` headers, each with its own body.  Scanning honours
//! full-line and inline comments (`;` or `#`), single- and double-quoted
//! values, backslash escapes, and dotted section paths.  The result is a
//! nested key-value tree; every failure is reported as a recoverable error
//! value rather than a panic.

use vstd::prelude::*;

pub mod grammar;
pub mod item;
pub mod parser;

pub use item::try_insert;
pub use item::Item;
pub use item::ItemV;
pub use item::ParseError;
pub use item::SectionMap;
pub use parser::Parser;

verus! {

/// Parses a whole document and returns the root mapping, or the error
/// the parse ended with.  The result is exactly what the grammar's
/// `parse_document` gives on the document's characters.
pub fn from_str(data: &str) -> (r: Result<SectionMap, ParseError>)
    ensures
        match r {
            Ok(m) => m.wf() && grammar::parse_document(data@) == Ok::<
                Map<Seq<char>, ItemV>,
                ParseError,
            >(m@),
            Err(e) => grammar::parse_document(data@) == Err::<Map<Seq<char>, ItemV>, ParseError>(
                e,
            ),
        },
{
    Parser::new(data).parse()
}

} // verus!
