use vstd::prelude::*;
use vstd::string::StringExecFns;

verus! {

/// Why a catalog or audio operation failed.
#[derive(Debug)]
pub enum StoreError {
    /// The platform could not supply the per-user data directory.
    DataDirResolution,
    /// The platform could not supply the downloads directory.
    DownloadsDirResolution,
    /// Reading the voices file failed; carries the cause text.
    Io(String),
    /// The stored voices file is not a well-formed voices JSON document.
    Parse,
    /// The audio payload is not valid standard base64.
    Decode,
}

/// The user-visible text for each failure.
pub open spec fn spec_message(e: StoreError) -> Seq<char> {
    match e {
        StoreError::DataDirResolution => "Failed to get data directory"@,
        StoreError::DownloadsDirResolution => "Failed to get downloads directory"@,
        StoreError::Io(cause) => "Failed to read voices file: "@ + cause@,
        StoreError::Parse => "Failed to parse voices JSON"@,
        StoreError::Decode => "Failed to decode base64"@,
    }
}

impl StoreError {
    /// The descriptive message that is surfaced to the caller.
    pub fn message(&self) -> (r: String)
        ensures
            r@ == spec_message(*self),
    {
        match self {
            StoreError::DataDirResolution => String::from_str("Failed to get data directory"),
            StoreError::DownloadsDirResolution => String::from_str(
                "Failed to get downloads directory",
            ),
            StoreError::Io(cause) => String::from_str("Failed to read voices file: ").concat(
                cause.as_str(),
            ),
            StoreError::Parse => String::from_str("Failed to parse voices JSON"),
            StoreError::Decode => String::from_str("Failed to decode base64"),
        }
    }
}

} // verus!
