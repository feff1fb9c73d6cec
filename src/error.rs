//! Errors of the bundler. Input/output failures reach the library as the
//! failure's message and the path it concerns.
use vstd::prelude::*;

verus! {

/// A failure of a bundling run.
#[derive(Debug)]
pub enum BundlerError {
    /// Reading the game's or a mod's data failed.
    Extraction(ExtractionError),
    /// Writing the bundle failed.
    Deployment(DeploymentError),
}

/// A failure while reading data: the failure's message, the path, and
/// where the failure was noticed, if known.
#[derive(Debug)]
pub enum ExtractionError {
    Io(String, String, Option<String>),
}

impl ExtractionError {
    /// The error for an input/output failure `message` on `path`.
    pub fn from_io(path: String, message: String) -> (r: ExtractionError)
        ensures
            r matches ExtractionError::Io(m, p, c) && m@ == message@ && p@ == path@ && c is None,
    {
        ExtractionError::Io(message, path, Option::None)
    }
}

/// A failure while writing the bundle.
#[derive(Debug)]
pub enum DeploymentError {
    /// An input/output failure: its message and the path.
    Io(String, String),
    /// The target directory exists and may not be overwritten.
    AlreadyExists,
}

impl DeploymentError {
    /// The error for an input/output failure `message` on `path`.
    pub fn from_io(path: String, message: String) -> (r: DeploymentError)
        ensures
            r matches DeploymentError::Io(m, p) && m@ == message@ && p@ == path@,
    {
        DeploymentError::Io(message, path)
    }
}

/// Why a patch could not be applied to a record.
#[derive(Clone, Copy, Debug, PartialEq, Eq, Structural)]
pub enum ApplyError {
    /// A path that the record type does not have.
    UnknownPath,
    /// A value of a kind that the path cannot hold.
    WrongKind,
    /// A text value that does not have the expected markup.
    Malformed,
}

} // verus!
