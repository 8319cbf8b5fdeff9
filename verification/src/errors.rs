use vstd::prelude::*;

verus! {

/// The failure kinds of the update pipeline.
#[derive(Clone, Copy, Debug, PartialEq, Eq, Structural)]
pub enum UpdateError {
    /// A request or transport failure.
    NetworkError,
    /// No download link matched the package filter.
    NotFound,
    /// The archive was unreadable or an entry could not be read.
    ExtractError,
    /// A filesystem read, write or permission failure.
    IOError,
    /// Malformed region configuration or unexpected package shape.
    ConfigError,
}

impl UpdateError {
    /// A short description, for reporting outside the library.
    pub fn describe(&self) -> (r: &'static str)
        ensures
            r@ == match *self {
                UpdateError::NetworkError => "network request failed"@,
                UpdateError::NotFound => "no matching download link"@,
                UpdateError::ExtractError => "archive could not be extracted"@,
                UpdateError::IOError => "filesystem operation failed"@,
                UpdateError::ConfigError => "bad configuration or package shape"@,
            },
    {
        match *self {
            UpdateError::NetworkError => "network request failed",
            UpdateError::NotFound => "no matching download link",
            UpdateError::ExtractError => "archive could not be extracted",
            UpdateError::IOError => "filesystem operation failed",
            UpdateError::ConfigError => "bad configuration or package shape",
        }
    }
}

} // verus!
