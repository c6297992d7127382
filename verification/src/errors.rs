//! Stable error taxonomy for opening and querying documents, and the
//! mapping of engine-level failures into it.
use vstd::prelude::*;

verus! {

/// Why a document could not be opened or a page could not be served.
#[derive(Clone, Copy, Debug, PartialEq, Eq, Structural)]
pub enum DocumentError {
    /// The path does not resolve or the file cannot be opened or read.
    FileMissingOrUnreadable,
    /// The input has zero length.
    EmptyFile,
    /// The required magic signature is absent from the initial byte window.
    InvalidHeader,
    /// The engine reports the content is corrupt or not a valid document.
    FormatError,
    /// The engine reports an encryption or security barrier.
    PasswordProtected,
    /// The engine reports a permission-based restriction distinct from
    /// password protection.
    SecurityRestricted,
    /// The requested page index is at or past the page count.
    PageIndexOutOfRange,
    /// Internal synchronization failure; should not occur under correct use.
    PoolLockFailure,
}

/// An engine-level load failure, reduced to plain values at the boundary.
#[derive(Clone, Copy, Debug, PartialEq, Eq, Structural)]
pub enum EngineFailure {
    /// The engine found the content malformed.
    Format,
    /// The engine hit a password barrier.
    Password,
    /// The engine could not read the file.
    File,
    /// The engine refused for security-permission reasons.
    Security,
    /// The engine reported a page-level error while opening.
    Page,
    /// Any other engine failure.
    Other,
}

/// The taxonomy entry that an engine failure maps to.
pub open spec fn spec_classify_engine_failure(f: EngineFailure) -> DocumentError {
    match f {
        EngineFailure::Format => DocumentError::FormatError,
        EngineFailure::Password => DocumentError::PasswordProtected,
        EngineFailure::File => DocumentError::FileMissingOrUnreadable,
        EngineFailure::Security => DocumentError::SecurityRestricted,
        EngineFailure::Page => DocumentError::PageIndexOutOfRange,
        EngineFailure::Other => DocumentError::FormatError,
    }
}

/// Maps an engine-level load failure into the stable taxonomy.
pub fn classify_engine_failure(f: EngineFailure) -> (r: DocumentError)
    ensures
        r == spec_classify_engine_failure(f),
{
    match f {
        EngineFailure::Format => DocumentError::FormatError,
        EngineFailure::Password => DocumentError::PasswordProtected,
        EngineFailure::File => DocumentError::FileMissingOrUnreadable,
        EngineFailure::Security => DocumentError::SecurityRestricted,
        EngineFailure::Page => DocumentError::PageIndexOutOfRange,
        EngineFailure::Other => DocumentError::FormatError,
    }
}

impl DocumentError {
    /// Stable machine-readable code for this error, independent of the
    /// engine's own wording.
    pub fn code(&self) -> (r: &'static str)
        ensures
            *self == DocumentError::FileMissingOrUnreadable ==> r@ == "PDF_OPEN_ERROR::FILE"@,
            *self == DocumentError::EmptyFile ==> r@ == "PDF_OPEN_ERROR::EMPTY"@,
            *self == DocumentError::InvalidHeader ==> r@ == "PDF_OPEN_ERROR::HEADER"@,
            *self == DocumentError::FormatError ==> r@ == "PDF_OPEN_ERROR::FORMAT"@,
            *self == DocumentError::PasswordProtected ==> r@ == "PDF_OPEN_ERROR::PASSWORD"@,
            *self == DocumentError::SecurityRestricted ==> r@ == "PDF_OPEN_ERROR::SECURITY"@,
            *self == DocumentError::PageIndexOutOfRange ==> r@ == "PDF_OPEN_ERROR::PAGE"@,
            *self == DocumentError::PoolLockFailure ==> r@ == "PDF_OPEN_ERROR::LOCK"@,
    {
        match self {
            DocumentError::FileMissingOrUnreadable => "PDF_OPEN_ERROR::FILE",
            DocumentError::EmptyFile => "PDF_OPEN_ERROR::EMPTY",
            DocumentError::InvalidHeader => "PDF_OPEN_ERROR::HEADER",
            DocumentError::FormatError => "PDF_OPEN_ERROR::FORMAT",
            DocumentError::PasswordProtected => "PDF_OPEN_ERROR::PASSWORD",
            DocumentError::SecurityRestricted => "PDF_OPEN_ERROR::SECURITY",
            DocumentError::PageIndexOutOfRange => "PDF_OPEN_ERROR::PAGE",
            DocumentError::PoolLockFailure => "PDF_OPEN_ERROR::LOCK",
        }
    }
}

} // verus!
