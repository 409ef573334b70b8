//! Where a path leaves the file system and enters an archive.
use crate::text::{
    basename, chars_end_with, chars_of, ends_with, is_separator, lemma_name_start_unique,
    separates, text_of, texts,
};
use vstd::prelude::*;

verus! {

/// Whether a component called `name` is an archive: it ends with a dot and
/// one of `formats`.
pub open spec fn archive_name(name: Seq<char>, formats: Seq<Seq<char>>) -> bool {
    exists|k: int| 0 <= k < formats.len() && ends_with(name, seq!['.'] + #[trigger] formats[k])
}

/// Whether a component of `path` ends at `e` that is an archive.
pub open spec fn is_boundary(path: Seq<char>, formats: Seq<Seq<char>>, e: int) -> bool {
    &&& 0 <= e <= path.len()
    &&& e == path.len() || is_separator(path[e])
    &&& archive_name(basename(path.subrange(0, e)), formats)
}

/// The end of the first component of `path`, from `e` on, that is an archive.
pub open spec fn boundary_from(path: Seq<char>, formats: Seq<Seq<char>>, e: int) -> Option<int>
    decreases path.len() + 1 - e,
{
    if e > path.len() {
        None
    } else if is_boundary(path, formats, e) {
        Some(e)
    } else {
        boundary_from(path, formats, e + 1)
    }
}

/// Where `path` enters an archive: the archive's path, up to and including
/// the first component that is an archive, and the path inside it.
pub open spec fn archive_split(path: Seq<char>, formats: Seq<Seq<char>>) -> Option<
    (Seq<char>, Seq<char>),
> {
    match boundary_from(path, formats, 0) {
        Some(e) => Some(
            (
                path.subrange(0, e),
                if e < path.len() {
                    path.subrange(e + 1, path.len() as int)
                } else {
                    Seq::empty()
                },
            ),
        ),
        None => None,
    }
}

/// A path that enters an archive.
#[derive(Debug)]
pub struct ArchiveSplit {
    /// The path of the archive.
    pub archive: String,
    /// The path of the member inside the archive.
    pub member: String,
}

impl View for ArchiveSplit {
    type V = (Seq<char>, Seq<char>);

    open spec fn view(&self) -> (Seq<char>, Seq<char>) {
        (self.archive@, self.member@)
    }
}

/// The view of an optional split.
pub open spec fn opt_split(o: Option<ArchiveSplit>) -> Option<(Seq<char>, Seq<char>)> {
    match o {
        Some(split) => Some(split@),
        None => None,
    }
}

/// Whether the component `chars[from..to]` is an archive.
pub fn is_archive_name(chars: &Vec<char>, from: usize, to: usize, formats: &Vec<String>) -> (r:
    bool)
    requires
        from <= to <= chars@.len(),
    ensures
        r == archive_name(chars@.subrange(from as int, to as int), texts(formats@)),
{
    let mut name: Vec<char> = Vec::new();
    let mut i: usize = from;
    while i < to
        invariant
            from <= i <= to <= chars@.len(),
            name@ == chars@.subrange(from as int, i as int),
        decreases to - i,
    {
        name.push(chars[i]);
        proof {
            assert(name@ =~= chars@.subrange(from as int, i + 1));
        }
        i += 1;
    }
    let mut k: usize = 0;
    while k < formats.len()
        invariant
            k <= formats@.len(),
            name@ == chars@.subrange(from as int, to as int),
            forall|j: int|
                0 <= j < k ==> !ends_with(name@, seq!['.'] + #[trigger] texts(formats@)[j]),
        decreases formats.len() - k,
    {
        let mut suffix: Vec<char> = Vec::new();
        suffix.push('.');
        let mut format = chars_of(formats[k].as_str());
        suffix.append(&mut format);
        proof {
            assert(suffix@ =~= seq!['.'] + texts(formats@)[k as int]);
        }
        if chars_end_with(&name, &suffix) {
            return true;
        }
        k += 1;
    }
    false
}

/// Splits `path` where it enters an archive: at the end of its first
/// component that ends with a dot and one of `formats`.
pub fn split_archive_path(path: &str, formats: &Vec<String>) -> (r: Option<ArchiveSplit>)
    ensures
        opt_split(r) == archive_split(path@, texts(formats@)),
{
    let chars = chars_of(path);
    let mut start: usize = 0;
    let mut e: usize = 0;
    loop
        invariant
            start <= e <= chars@.len(),
            chars@ == path@,
            forall|j: int| start <= j < e ==> !is_separator(#[trigger] chars@[j]),
            start > 0 ==> is_separator(chars@[start - 1]),
            boundary_from(path@, texts(formats@), e as int) == boundary_from(
                path@,
                texts(formats@),
                0,
            ),
        decreases chars@.len() - e,
    {
        if e == chars.len() || separates(chars[e]) {
            proof {
                let upto = path@.subrange(0, e as int);
                lemma_name_start_unique(upto, start as int);
                assert(basename(upto) =~= chars@.subrange(start as int, e as int));
            }
            if is_archive_name(&chars, start, e, formats) {
                let archive = text_of(&chars, 0, e);
                let member = if e < chars.len() {
                    text_of(&chars, e + 1, chars.len())
                } else {
                    String::new()
                };
                return Some(ArchiveSplit { archive, member });
            }
            if e == chars.len() {
                proof {
                    assert(boundary_from(path@, texts(formats@), e + 1) is None);
                }
                return None;
            }
            start = e + 1;
        }
        e += 1;
    }
}

} // verus!
