use vstd::prelude::*;

verus! {

/// The errors that operations on a CASC storage can report.
///
/// Each variant carries a human-readable description of what went wrong.
#[derive(Debug, Clone, PartialEq, Eq)]
pub enum CascError {
    /// A required file, table entry, or named path is absent.
    FileNotFound(String),
    /// A structural parse failure in a text or metadata file.
    FileCorrupted(String),
    /// A binary layout did not match the format's invariants.
    InvalidData(String),
    /// A recognized but refused construct, such as an encrypted frame.
    UnsupportedFileType(String),
    /// An underlying input or output failure, carried as its description.
    Io(String),
    /// An operational condition without a better label.
    Other(String),
}

impl CascError {
    /// A human-readable description of the error, prefixed by its kind.
    pub fn message(&self) -> String {
        match self {
            CascError::InvalidData(err) => join_msg("Invalid data: ", err),
            CascError::FileNotFound(name) => join_msg("File not found: ", name),
            CascError::FileCorrupted(name) => join_msg("File is corrupted: ", name),
            CascError::UnsupportedFileType(name) => join_msg("Unsupported file type: ", name),
            CascError::Io(err) => join_msg("I/O error: ", err),
            CascError::Other(err) => join_msg("CASC error: ", err),
        }
    }
}

/// Concatenates an error-kind prefix and a detail string.
fn join_msg(prefix: &str, detail: &String) -> (r: String)
    ensures
        r@ == prefix@ + detail@,
{
    let mut s = String::from_str(prefix);
    s.append(detail.as_str());
    s
}

} // verus!
