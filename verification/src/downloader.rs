//! Assets that live behind a URL.
use crate::text::{chars_of, chars_start_with, starts_with};
use vstd::prelude::*;

verus! {

/// Whether `path` names an asset on the web: it starts with `http://` or
/// `https://`.
pub open spec fn remote(path: Seq<char>) -> bool {
    starts_with(path, "http://"@) || starts_with(path, "https://"@)
}

/// Decides which assets come from the web. The transfer itself is the
/// caller's part.
#[derive(Debug)]
pub struct Downloader {}

impl Default for Downloader {
    fn default() -> Downloader {
        Downloader {  }
    }
}

impl Downloader {
    /// A downloader; it keeps nothing.
    pub fn new() -> Downloader {
        Downloader {  }
    }

    /// Whether `target` names an asset on the web, which is to be fetched
    /// rather than read from the disk.
    pub fn is_remote(&self, target: &str) -> (r: bool)
        ensures
            r == remote(target@),
    {
        let chars = chars_of(target);
        let plain = chars_of("http://");
        let secure = chars_of("https://");
        chars_start_with(&chars, &plain) || chars_start_with(&chars, &secure)
    }
}

} // verus!
