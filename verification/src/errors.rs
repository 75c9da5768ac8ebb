use vstd::prelude::*;

verus! {

/// Relies on std's `std::io::Error` only as an opaque value: the cause a
/// failed open or read hands back, carried to the caller unread.
#[verifier::external_type_specification]
#[verifier::external_body]
pub struct ExIoError(std::io::Error);

/// Errors of loading a trace file. All of them surface from the loader;
/// per-line problems never do — a malformed line is skipped or stored as an
/// error frame instead.
pub enum AscParseError {
    /// The file name does not end in the trace suffix.
    InvalidExtension { path: String },
    /// The file could not be opened.
    OpenFile { path: String, source: std::io::Error },
    /// Reading from the file failed mid-stream.
    Read { path: String, source: std::io::Error },
}

} // verus!
