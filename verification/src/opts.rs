//! What a run is asked to do: where the streams come from and go to, and
//! the kinds of their elements.

use crate::conversion::{refusal, Conversion, ConfigError};
pub use crate::scalar::Type;
use vstd::prelude::*;

verus! {

/// `std::path::PathBuf`, carried through as it is: nothing is claimed of
/// what a path holds.
#[verifier::external_type_specification]
#[verifier::external_body]
pub struct ExPathBuf(std::path::PathBuf);

/// The options of one run.
#[derive(Debug)]
pub struct Opt {
    /// Input file; the standard input where there is none.
    pub input: Option<std::path::PathBuf>,
    /// Output file; the standard output where there is none.
    pub output: Option<std::path::PathBuf>,
    /// The kind of the elements read.
    pub in_type: Type,
    /// The kind of the elements written.
    pub out_type: Type,
}

impl Opt {
    /// The conversion that the options ask for, without a multiplier and in
    /// the byte order of this machine, or the refusal of their pair of
    /// kinds. It is decided before any stream is opened.
    pub fn conversion(&self) -> (r: Result<Conversion, ConfigError>)
        ensures
            match r {
                Ok(c) => {
                    &&& refusal(self.in_type, self.out_type, None) is None
                    &&& c.valid()
                    &&& c.source() == self.in_type
                    &&& c.target() == self.out_type
                    &&& c.multiplier() is None
                },
                Err(e) => refusal(self.in_type, self.out_type, None) == Some(e),
            },
    {
        Conversion::new(self.in_type, self.out_type, None)
    }
}

} // verus!
