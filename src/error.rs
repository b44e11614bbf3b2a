use vstd::prelude::*;

verus! {

/// Errors that storage operations report.
#[derive(Debug, Clone, PartialEq, Eq)]
pub enum StorageError {
    /// The requested key was not found.
    KeyNotFound(String),
    /// The key already exists (reserved; no backend raises it).
    KeyAlreadyExists(String),
    /// The key's format or content is not accepted.
    InvalidKey(String),
    /// The value's format or content is not accepted.
    InvalidValue(String),
    /// An internal failure: I/O, a corrupt log record, a malformed header.
    Internal(String),
    /// The backend does not offer the operation (reserved).
    UnsupportedOperation(String),
}

/// Result type of storage operations.
pub type StorageResult<T> = Result<T, StorageError>;

/// Builds an owned string from a string slice.
pub fn owned(s: &str) -> (r: String)
    ensures
        r@ == s@,
{
    s.to_owned()
}

/// Builds `prefix` followed by `rest`.
pub fn joined(prefix: &str, rest: &str) -> (r: String)
    ensures
        r@ == prefix@ + rest@,
{
    let mut r = prefix.to_owned();
    r.append(rest);
    r
}

impl StorageError {
    /// The text shown for this error: a fixed prefix naming the kind of
    /// error, followed by its detail.
    pub fn to_string(&self) -> (r: String)
        ensures
            r@ == self.prefix_text() + self.detail()@,
    {
        match self {
            StorageError::KeyNotFound(d) => joined("Key not found: ", d.as_str()),
            StorageError::KeyAlreadyExists(d) => joined("Key already exists: ", d.as_str()),
            StorageError::InvalidKey(d) => joined("Invalid key: ", d.as_str()),
            StorageError::InvalidValue(d) => joined("Invalid value: ", d.as_str()),
            StorageError::Internal(d) => joined("Internal storage error: ", d.as_str()),
            StorageError::UnsupportedOperation(d) => joined("Unsupported operation: ", d.as_str()),
        }
    }

    /// The detail that the error carries.
    pub open spec fn detail(&self) -> String {
        match self {
            StorageError::KeyNotFound(d) => *d,
            StorageError::KeyAlreadyExists(d) => *d,
            StorageError::InvalidKey(d) => *d,
            StorageError::InvalidValue(d) => *d,
            StorageError::Internal(d) => *d,
            StorageError::UnsupportedOperation(d) => *d,
        }
    }

    /// The prefix that names the kind of error.
    pub open spec fn prefix_text(&self) -> Seq<char> {
        match self {
            StorageError::KeyNotFound(_) => "Key not found: "@,
            StorageError::KeyAlreadyExists(_) => "Key already exists: "@,
            StorageError::InvalidKey(_) => "Invalid key: "@,
            StorageError::InvalidValue(_) => "Invalid value: "@,
            StorageError::Internal(_) => "Internal storage error: "@,
            StorageError::UnsupportedOperation(_) => "Unsupported operation: "@,
        }
    }
}

/// The HTTP status that the request layer answers an error with: 404 for a
/// missing key, 400 for a rejected key or value, 500 for anything else.
pub fn http_status(e: &StorageError) -> (r: u16)
    ensures
        r == match e {
            StorageError::KeyNotFound(_) => 404u16,
            StorageError::InvalidKey(_) | StorageError::InvalidValue(_) => 400u16,
            _ => 500u16,
        },
{
    match e {
        StorageError::KeyNotFound(_) => 404,
        StorageError::InvalidKey(_) | StorageError::InvalidValue(_) => 400,
        _ => 500,
    }
}

/// The error code that the request layer reports for an error.
pub fn error_code(e: &StorageError) -> (r: String)
    ensures
        r@ == match e {
            StorageError::KeyNotFound(_) => "key_not_found"@,
            StorageError::InvalidKey(_) => "invalid_key"@,
            StorageError::InvalidValue(_) => "invalid_value"@,
            _ => "internal_error"@,
        },
{
    match e {
        StorageError::KeyNotFound(_) => owned("key_not_found"),
        StorageError::InvalidKey(_) => owned("invalid_key"),
        StorageError::InvalidValue(_) => owned("invalid_value"),
        _ => owned("internal_error"),
    }
}

} // verus!
