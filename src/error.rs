use vstd::prelude::*;

verus! {

/// Why a decode failed.
#[derive(Debug)]
pub enum Error {
    /// A recognized but unimplemented feature.
    Unsupported(&'static str),
    /// The byte source ended before the value being read was complete.
    Io,
    /// Structurally invalid input.
    Parse(&'static str),
}

} // verus!
