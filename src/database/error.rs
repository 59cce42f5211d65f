use vstd::prelude::*;

verus! {

/// The kinds of failure reported by the database layer.
#[derive(Debug, PartialEq, Eq, Structural)]
pub enum ErrorKind {
    /// A write was attempted on a frequency table that has no dictionary.
    MissingDict,
    /// A word outside the pruned dictionary was asked for.
    InvalidWord,
    /// The dump held malformed XML.
    XML,
    /// The binary codec failed.
    Serialization,
    /// An underlying file or stream failed.
    Io,
}

/// An error emitted by the database layer.
pub type Error = Box<ErrorKind>;

/// The result of a database operation.
pub type Result<T> = std::result::Result<T, Error>;

impl ErrorKind {
    /// A human readable description of the error.
    pub fn message(&self) -> (r: String)
        ensures
            r@ == match self {
                ErrorKind::InvalidWord => "Asked for word that was not part of the dictionary."@,
                ErrorKind::MissingDict => "Frequency database missing dictionary."@,
                ErrorKind::XML => "XML Error."@,
                ErrorKind::Serialization => "Error during serialization."@,
                ErrorKind::Io => "IO Error."@,
            },
    {
        match self {
            ErrorKind::InvalidWord => String::from_str("Asked for word that was not part of the dictionary."),
            ErrorKind::MissingDict => String::from_str("Frequency database missing dictionary."),
            ErrorKind::XML => String::from_str("XML Error."),
            ErrorKind::Serialization => String::from_str("Error during serialization."),
            ErrorKind::Io => String::from_str("IO Error."),
        }
    }
}

} // verus!
