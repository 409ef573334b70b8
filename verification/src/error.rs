//! The errors that the asset layer reports to its callers.
use vstd::prelude::*;

verus! {

/// Why an operation on assets did not go through.
#[derive(Debug, Clone, Copy, PartialEq, Eq, Structural)]
pub enum AssetError {
    /// A logical name resolves to nothing, or the file it resolves to is absent.
    NotFound,
    /// An archive could not be opened, or one of its entries could not be read.
    ArchiveOpenFailure,
    /// An archive was read, but holds no regular file under the requested name.
    ArchiveMemberMissing,
    /// A record has no place in the on-disk cache, or none could be found for it.
    CacheIOFailure,
    /// Following the redirects of a name never comes to an end.
    RedirectCycle,
    /// The setup is unusable: a filter that does not compile, a malformed
    /// document, a redirect that names a file the catalog does not know.
    Configuration,
}

impl AssetError {
    /// The description of each error.
    pub open spec fn description(self) -> Seq<char> {
        match self {
            AssetError::NotFound => "asset not found"@,
            AssetError::ArchiveOpenFailure => "archive could not be read"@,
            AssetError::ArchiveMemberMissing => "archive holds no such member"@,
            AssetError::CacheIOFailure => "on-disk cache unavailable"@,
            AssetError::RedirectCycle => "redirects form a cycle"@,
            AssetError::Configuration => "invalid configuration"@,
        }
    }

    /// A short description for people.
    pub fn message(&self) -> (text: String)
        ensures
            text@ == self.description(),
    {
        let text = match self {
            AssetError::NotFound => "asset not found",
            AssetError::ArchiveOpenFailure => "archive could not be read",
            AssetError::ArchiveMemberMissing => "archive holds no such member",
            AssetError::CacheIOFailure => "on-disk cache unavailable",
            AssetError::RedirectCycle => "redirects form a cycle",
            AssetError::Configuration => "invalid configuration",
        };
        text.to_owned()
    }
}

} // verus!
