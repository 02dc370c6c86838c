//! Errors.

use vstd::prelude::*;

verus! {

/// Anything that can go wrong reading or writing a file.
#[derive(Debug)]
pub enum Error {
    /// The filesystem layer failed; the text is what it reported.
    Fs(String),
    /// No such file or directory.
    NotFound(String),
    /// A path component that should have been a directory was not.
    NotADirectory(String),
    /// The target is a directory and the operation wanted a file.
    IsADirectory(String),
    /// The name is already taken.
    AlreadyExists(String),
    /// A directory still has entries in it.
    NotEmpty(String),
    /// The filesystem has no free blocks left.
    NoSpace,
    /// The filesystem has no free inodes left.
    NoInodes,
    /// A name is too long, or otherwise unusable.
    InvalidName(String),
    /// The filesystem uses something that cannot be written.
    Unsupported(String),
    /// The path was malformed.
    InvalidPath(String),
    /// The stream an archive was being read from or written to failed; the
    /// text is what it reported.
    Io(String),
}

/// Result alias.
pub type Result<T> = std::result::Result<T, Error>;

impl Error {
    /// The text shown for the error.
    pub open spec fn text(self) -> Seq<char> {
        match self {
            Error::Fs(s) => s@,
            Error::NotFound(s) => "no such file or directory: "@ + s@,
            Error::NotADirectory(s) => "not a directory: "@ + s@,
            Error::IsADirectory(s) => "is a directory: "@ + s@,
            Error::AlreadyExists(s) => "already exists: "@ + s@,
            Error::NotEmpty(s) => "directory not empty: "@ + s@,
            Error::NoSpace => "no space left on device"@,
            Error::NoInodes => "no inodes left on device"@,
            Error::InvalidName(s) => "invalid name: "@ + s@,
            Error::Unsupported(s) => "unsupported: "@ + s@,
            Error::InvalidPath(s) => "invalid path: "@ + s@,
            Error::Io(s) => s@,
        }
    }

    /// What to tell the user.
    pub fn message(&self) -> (text: String)
        ensures
            text@ == self.text(),
    {
        match self {
            Error::Fs(s) => s.clone(),
            Error::NotFound(s) => prefixed("no such file or directory: ", s),
            Error::NotADirectory(s) => prefixed("not a directory: ", s),
            Error::IsADirectory(s) => prefixed("is a directory: ", s),
            Error::AlreadyExists(s) => prefixed("already exists: ", s),
            Error::NotEmpty(s) => prefixed("directory not empty: ", s),
            Error::NoSpace => "no space left on device".to_owned(),
            Error::NoInodes => "no inodes left on device".to_owned(),
            Error::InvalidName(s) => prefixed("invalid name: ", s),
            Error::Unsupported(s) => prefixed("unsupported: ", s),
            Error::InvalidPath(s) => prefixed("invalid path: ", s),
            Error::Io(s) => s.clone(),
        }
    }
}

/// `label` followed by `rest`.
fn prefixed(label: &str, rest: &String) -> (text: String)
    ensures
        text@ == label@ + rest@,
{
    let mut text = label.to_owned();
    text.append(rest.as_str());
    text
}

} // verus!
