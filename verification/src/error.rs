//! The failure kinds of the pipeline.

use vstd::prelude::*;

verus! {

/// What can go wrong while building a Kickstart document.
///
/// `IO` stands for a missing splice target (the file a `%include` line
/// names is not in the table of available files), `Parse` for malformed
/// structure (a bad directive line, a stray or missing `%end`, a nested
/// or nameless section start), and `Cycle` for an include chain that
/// revisits a file currently being resolved.
#[derive(Clone, Copy, Debug, PartialEq, Eq, Structural)]
pub enum KickstartError {
    IO,
    Parse,
    Cycle,
}

impl KickstartError {
    /// A short human-readable label for the error kind.
    pub fn describe(&self) -> (r: &'static str)
        ensures
            *self == KickstartError::IO ==> r@ == "missing file"@,
            *self == KickstartError::Parse ==> r@ == "malformed document"@,
            *self == KickstartError::Cycle ==> r@ == "include cycle"@,
    {
        match self {
            KickstartError::IO => "missing file",
            KickstartError::Parse => "malformed document",
            KickstartError::Cycle => "include cycle",
        }
    }
}

} // verus!
