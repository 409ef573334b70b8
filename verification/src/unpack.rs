//! Taking members out of an archive: which entries are wanted, and the
//! records that they give.
use crate::archive::{
    archive_entries, archive_len, entry_data, entry_header, open_archive, zip_contents, EntryHeader,
    EntryModel, HeaderModel,
};
use crate::decompression_manager::{records_of, CachedFile, CachedFileView};
use crate::error::AssetError;
use vstd::prelude::*;

verus! {

/// The views of a list of borrowed strings.
pub open spec fn names_of(v: Seq<&str>) -> Seq<Seq<char>> {
    Seq::new(v.len(), |i: int| v[i]@)
}

/// The view of a selection of members: `None` selects every member.
pub open spec fn selected(selection: Option<Vec<&str>>) -> Option<Seq<Seq<char>>> {
    match selection {
        Some(names) => Some(names_of(names@)),
        None => None,
    }
}

/// How often `name` occurs among `names`.
pub open spec fn occurrences(names: Seq<Seq<char>>, name: Seq<char>) -> nat
    decreases names.len(),
{
    if names.len() == 0 {
        0
    } else {
        occurrences(names.drop_last(), name) + if names.last() == name {
            1nat
        } else {
            0nat
        }
    }
}

/// How many records a member called `name` gives: one where every member is
/// selected, else one for each time the selection names it.
pub open spec fn copies(name: Seq<char>, selection: Option<Seq<Seq<char>>>) -> nat {
    match selection {
        None => 1,
        Some(names) => occurrences(names, name),
    }
}

/// What is wanted of an entry that shows `header` of itself: nothing of a
/// directory or of a file that is not selected, else the file's name and
/// the number of records that it gives. An entry that is not handed out, and
/// a file without a safe path, cannot be taken in.
pub open spec fn needed(header: Option<HeaderModel>, selection: Option<Seq<Seq<char>>>) -> Result<
    Option<(Seq<char>, nat)>,
    AssetError,
> {
    match header {
        None => Err(AssetError::ArchiveOpenFailure),
        Some(header) => if !header.is_file {
            Ok(None)
        } else {
            match header.name {
                None => Err(AssetError::ArchiveOpenFailure),
                Some(name) => if copies(name, selection) == 0 {
                    Ok(None)
                } else {
                    Ok(Some((name, copies(name, selection))))
                },
            }
        },
    }
}

/// Whether the archive cannot be taken in because of this entry: it is not
/// handed out, it is a file without a safe path, or it is selected and its
/// content cannot be read.
pub open spec fn entry_fails(entry: EntryModel, selection: Option<Seq<Seq<char>>>) -> bool {
    match needed(entry.header, selection) {
        Err(_) => true,
        Ok(Some(_)) => entry.data is None,
        Ok(None) => false,
    }
}

/// The records that one entry gives.
pub open spec fn entry_records(entry: EntryModel, selection: Option<Seq<Seq<char>>>) -> Seq<
    CachedFileView,
> {
    match (needed(entry.header, selection), entry.data) {
        (Ok(Some((name, n))), Some(bytes)) => Seq::new(
            n,
            |i: int| CachedFileView { cache: None, origin: name, data: Some(bytes) },
        ),
        _ => Seq::empty(),
    }
}

/// The records that the entries give, in the order of the entries.
pub open spec fn extracted(entries: Seq<EntryModel>, selection: Option<Seq<Seq<char>>>) -> Seq<
    CachedFileView,
>
    decreases entries.len(),
{
    if entries.len() == 0 {
        Seq::empty()
    } else {
        extracted(entries.drop_last(), selection) + entry_records(entries.last(), selection)
    }
}

/// Whether none of `records` has the origin `name`.
pub open spec fn lacks(records: Seq<CachedFileView>, name: Seq<char>) -> bool {
    forall|i: int| 0 <= i < records.len() ==> (#[trigger] records[i]).origin != name
}

/// Whether the selection names a member of which `records` holds nothing:
/// no regular file of the archive goes by that name.
pub open spec fn misses(records: Seq<CachedFileView>, selection: Option<Seq<Seq<char>>>) -> bool {
    selection is Some && exists|k: int|
        0 <= k < selection->Some_0.len() && #[trigger] lacks(records, selection->Some_0[k])
}

/// The records that the archive encoded by `content` gives under
/// `selection`. An archive that cannot be opened, one with an entry that
/// fails, and one that does not hold a selected member give none at all.
pub open spec fn unpacked(content: Seq<u8>, selection: Option<Seq<Seq<char>>>) -> Result<
    Seq<CachedFileView>,
    AssetError,
> {
    match zip_contents(content) {
        None => Err(AssetError::ArchiveOpenFailure),
        Some(entries) => if exists|i: int|
            0 <= i < entries.len() && entry_fails(#[trigger] entries[i], selection) {
            Err(AssetError::ArchiveOpenFailure)
        } else if misses(extracted(entries, selection), selection) {
            Err(AssetError::ArchiveMemberMissing)
        } else {
            Ok(extracted(entries, selection))
        },
    }
}

/// How many records a member called `name` gives under `selection`.
pub fn copies_wanted(name: &str, selection: &Option<Vec<&str>>) -> (n: usize)
    ensures
        n == copies(name@, selected(*selection)),
{
    match selection {
        None => 1,
        Some(names) => {
            let mut n: usize = 0;
            let mut i: usize = 0;
            proof {
                assert(names_of(names@).take(0) =~= Seq::empty());
            }
            while i < names.len()
                invariant
                    i <= names@.len(),
                    n <= i,
                    n == occurrences(names_of(names@).take(i as int), name@),
                decreases names.len() - i,
            {
                proof {
                    let upto = names_of(names@).take(i + 1);
                    assert(upto.drop_last() == names_of(names@).take(i as int));
                    assert(upto.last() == names@[i as int]@);
                }
                if *names[i] == *name {
                    n += 1;
                }
                i += 1;
            }
            proof {
                assert(names_of(names@).take(i as int) == names_of(names@));
            }
            n
        },
    }
}

/// The view of what is wanted of an entry.
pub open spec fn wanted_view(r: Result<Option<(String, usize)>, AssetError>) -> Result<
    Option<(Seq<char>, nat)>,
    AssetError,
> {
    match r {
        Ok(Some((name, n))) => Ok(Some((name@, n as nat))),
        Ok(None) => Ok(None),
        Err(e) => Err(e),
    }
}

/// Decides what is wanted of an entry that shows `header` of itself.
pub fn entry_needs(header: Option<EntryHeader>, selection: &Option<Vec<&str>>) -> (r: Result<
    Option<(String, usize)>,
    AssetError,
>)
    ensures
        wanted_view(r) == needed(
            match header {
                Some(header) => Some(header@),
                None => None,
            },
            selected(*selection),
        ),
{
    match header {
        None => Err(AssetError::ArchiveOpenFailure),
        Some(header) => {
            if !header.is_file {
                return Ok(None);
            }
            match header.name {
                None => Err(AssetError::ArchiveOpenFailure),
                Some(name) => {
                    let n = copies_wanted(name.as_str(), selection);
                    if n == 0 {
                        Ok(None)
                    } else {
                        Ok(Some((name, n)))
                    }
                },
            }
        },
    }
}

/// Adds `n` records of origin `name` and content `data` to `records`.
pub fn push_copies(records: &mut Vec<CachedFile>, name: &str, data: &Vec<u8>, n: usize)
    ensures
        records_of(final(records)@) == records_of(old(records)@) + Seq::new(
            n as nat,
            |i: int| CachedFileView { cache: None, origin: name@, data: Some(data@) },
        ),
{
    let mut i: usize = 0;
    proof {
        assert(records_of(records@) =~= records_of(old(records)@) + Seq::new(
            0,
            |i: int| CachedFileView { cache: None, origin: name@, data: Some(data@) },
        ));
    }
    while i < n
        invariant
            i <= n,
            records_of(records@) == records_of(old(records)@) + Seq::new(
                i as nat,
                |i: int| CachedFileView { cache: None, origin: name@, data: Some(data@) },
            ),
        decreases n - i,
    {
        let ghost before = records_of(records@);
        let copy = data.clone();
        proof {
            assert(copy@ =~= data@);
        }
        let record = CachedFile { cache: None, origin: name.to_owned(), data: Some(copy) };
        records.push(record);
        proof {
            assert(records_of(records@) =~= before.push(record@));
            assert(records_of(records@) =~= records_of(old(records)@) + Seq::new(
                (i + 1) as nat,
                |i: int| CachedFileView { cache: None, origin: name@, data: Some(data@) },
            ));
        }
        i += 1;
    }
}

/// Whether none of `records` has the origin `name`.
pub fn lacks_record(records: &Vec<CachedFile>, name: &str) -> (r: bool)
    ensures
        r == lacks(records_of(records@), name@),
{
    let mut i: usize = 0;
    while i < records.len()
        invariant
            i <= records@.len(),
            forall|j: int| 0 <= j < i ==> (#[trigger] records_of(records@)[j]).origin != name@,
        decreases records.len() - i,
    {
        if *records[i].origin.as_str() == *name {
            assert(records_of(records@)[i as int].origin == name@);
            return false;
        }
        i += 1;
    }
    true
}

/// Whether `selection` names a member of which `records` holds nothing.
pub fn misses_member(records: &Vec<CachedFile>, selection: &Option<Vec<&str>>) -> (r: bool)
    ensures
        r == misses(records_of(records@), selected(*selection)),
{
    match selection {
        None => false,
        Some(names) => {
            let mut k: usize = 0;
            while k < names.len()
                invariant
                    k <= names@.len(),
                    *selection == Some(*names),
                    forall|j: int|
                        0 <= j < k ==> !#[trigger] lacks(records_of(records@), names_of(names@)[j]),
                decreases names.len() - k,
            {
                if lacks_record(records, names[k]) {
                    proof {
                        let wanted = names_of(names@);
                        assert(selected(*selection)->Some_0 == wanted);
                        assert(lacks(records_of(records@), wanted[k as int]));
                    }
                    return true;
                }
                k += 1;
            }
            false
        },
    }
}

/// Opens `content` as an archive and takes the selected members out of it.
pub fn unpack(content: Vec<u8>, selection: &Option<Vec<&str>>) -> (r: Result<
    Vec<CachedFile>,
    AssetError,
>)
    ensures
        match unpacked(content@, selected(*selection)) {
            Ok(records) => r matches Ok(found) && records_of(found@) == records,
            Err(e) => r matches Err(x) && x == e,
        },
{
    let mut archive = match open_archive(content) {
        Ok(archive) => archive,
        Err(_) => {
            return Err(AssetError::ArchiveOpenFailure);
        },
    };
    let ghost entries = archive_entries(archive);
    let ghost wanted = selected(*selection);
    let total = archive_len(&archive);
    let mut records: Vec<CachedFile> = Vec::new();
    let mut i: usize = 0;
    proof {
        assert(entries.take(0) =~= Seq::empty());
        assert(records_of(records@) =~= extracted(entries.take(0), wanted));
    }
    while i < total
        invariant
            i <= total,
            total == entries.len(),
            archive_entries(archive) == entries,
            zip_contents(content@) == Some(entries),
            wanted == selected(*selection),
            records_of(records@) == extracted(entries.take(i as int), wanted),
            forall|j: int| 0 <= j < i ==> !entry_fails(#[trigger] entries[j], wanted),
        decreases total - i,
    {
        proof {
            let upto = entries.take(i + 1);
            assert(upto.drop_last() == entries.take(i as int));
            assert(upto.last() == entries[i as int]);
        }
        let header = entry_header(&mut archive, i);
        match entry_needs(header, selection) {
            Err(e) => {
                assert(entry_fails(entries[i as int], wanted));
                return Err(e);
            },
            Ok(None) => {
                proof {
                    assert(entry_records(entries[i as int], wanted) =~= Seq::empty());
                    assert(records_of(records@) =~= extracted(entries.take(i + 1), wanted));
                }
            },
            Ok(Some((name, n))) => {
                let data = match entry_data(&mut archive, i) {
                    Some(data) => data,
                    None => {
                        assert(entry_fails(entries[i as int], wanted));
                        return Err(AssetError::ArchiveOpenFailure);
                    },
                };
                push_copies(&mut records, name.as_str(), &data, n);
            },
        }
        i += 1;
    }
    proof {
        assert(entries.take(i as int) == entries);
    }
    if misses_member(&records, selection) {
        return Err(AssetError::ArchiveMemberMissing);
    }
    Ok(records)
}

} // verus!
