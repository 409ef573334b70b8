//! What the library asks its caller to do on disk.
use vstd::prelude::*;

verus! {

/// A file to be written: `data` becomes the whole content of the file at
/// `path`, which is created where it is missing.
#[derive(Debug)]
pub struct FileWrite {
    pub path: String,
    pub data: Vec<u8>,
}

impl View for FileWrite {
    type V = (Seq<char>, Seq<u8>);

    open spec fn view(&self) -> (Seq<char>, Seq<u8>) {
        (self.path@, self.data@)
    }
}

/// The view of an optional write.
pub open spec fn opt_write(o: Option<FileWrite>) -> Option<(Seq<char>, Seq<u8>)> {
    match o {
        Some(write) => Some(write@),
        None => None,
    }
}

} // verus!
