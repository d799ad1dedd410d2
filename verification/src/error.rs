use vstd::prelude::*;

verus! {

/// The external `std::io::Error`, carried by [`OslomError::Io`].
#[verifier::external_type_specification]
#[verifier::external_body]
pub struct ExIoError(std::io::Error);

/// Errors of the OSLOM library.
#[derive(Debug)]
pub enum OslomError {
    /// Invalid network structure.
    InvalidNetwork(String),
    /// Invalid configuration.
    InvalidConfig(String),
    /// An iterative algorithm did not converge.
    ConvergenceFailed(String),
    /// Not enough data to work on.
    InsufficientData(String),
    /// An input/output error.
    Io(std::io::Error),
    /// A numerical error.
    Numerical(String),
}

} // verus!
