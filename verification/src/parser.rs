//! The parser component handed to the application shell; the scanning logic
//! itself lives in [`crate::parser_core`].

use vstd::prelude::*;

verus! {

/// Builds the parser component; the optional path names where the files to
/// scan live.
pub trait AnubisParserInterface: Sized {
    fn new(path: Option<&String>) -> Self;
}

/// The scanner component. It holds no state: each file is scanned on its own
/// through [`crate::parser_core::file_parser`].
pub struct AnubisParser {}

impl AnubisParserInterface for AnubisParser {
    fn new(path: Option<&String>) -> (r: Self) {
        AnubisParser {  }
    }
}

} // verus!
