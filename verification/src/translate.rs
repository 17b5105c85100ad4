//! Export formats a tree can be written out as, and their file extensions.

use vstd::prelude::*;

verus! {

/// An output format for writing a decoded tree to a text file.
#[derive(Clone, Copy, PartialEq, Eq, Structural, Debug)]
pub enum Format {
    Json,
}

/// The file extension that belongs to an output format.
pub fn get_ext(fmt: &Format) -> (r: String)
    ensures
        fmt is Json ==> r@ == "json"@,
{
    match fmt {
        Format::Json => "json".to_owned(),
    }
}

} // verus!
