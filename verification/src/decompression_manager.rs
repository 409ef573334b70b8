//! The archive cache: the members taken out of archives, each held in
//! memory or demoted to a file of the on-disk cache.
use crate::disk::FileWrite;
use crate::error::AssetError;
use crate::process_pass::ProcessPass;
use crate::unpack::{selected, unpack, unpacked};
use crate::text::{
    basename, chars_of, extension, extension_of, find_name_start, first_position,
    lemma_first_position, lemma_first_position_unique, opt_bytes, opt_text, parent, text_of, texts,
};
use vstd::prelude::*;
use vstd::string::StringExecFns;

verus! {

/// How many underscores are tried, at most, in front of the name of a cache
/// file before the search for a free name is given up.
pub const MAX_CACHE_PREFIX: usize = 64;

/// `k` underscores.
pub open spec fn underscores(k: nat) -> Seq<char> {
    Seq::new(k, |i: int| '_')
}

/// The file name tried in attempt `k` for the cache file `path`.
pub open spec fn candidate_name(path: Seq<char>, k: nat) -> Seq<char> {
    underscores(k) + basename(path)
}

/// The path tried in attempt `k` for the cache file `path`: the same
/// directory, the file name behind `k` underscores.
pub open spec fn candidate(path: Seq<char>, k: nat) -> Seq<char> {
    parent(path) + candidate_name(path, k)
}

/// The first attempt from `k` up to `limit` whose file name is not among
/// `taken`.
pub open spec fn free_attempt(path: Seq<char>, taken: Seq<Seq<char>>, k: nat, limit: nat) -> Option<
    nat,
>
    decreases limit + 1 - k,
{
    if k > limit {
        None
    } else if !taken.contains(candidate_name(path, k)) {
        Some(k)
    } else {
        free_attempt(path, taken, k + 1, limit)
    }
}

/// The view of the outcome of a demotion.
pub open spec fn outcome(r: Result<Option<FileWrite>, AssetError>) -> Result<
    Option<(Seq<char>, Seq<u8>)>,
    AssetError,
> {
    match r {
        Ok(Some(write)) => Ok(Some(write@)),
        Ok(None) => Ok(None),
        Err(e) => Err(e),
    }
}

/// One member of an archive.
///
/// Its bytes are in `data` while the member is in memory. Once demoted, they
/// are in the file at `cache` and `data` is empty, until they are read back.
#[derive(Debug)]
pub struct CachedFile {
    pub cache: Option<String>,
    pub origin: String,
    pub data: Option<Vec<u8>>,
}

/// A member of an archive as contracts see it.
pub struct CachedFileView {
    pub cache: Option<Seq<char>>,
    pub origin: Seq<char>,
    pub data: Option<Seq<u8>>,
}

impl View for CachedFile {
    type V = CachedFileView;

    open spec fn view(&self) -> CachedFileView {
        CachedFileView {
            cache: opt_text(self.cache),
            origin: self.origin@,
            data: opt_bytes(self.data),
        }
    }
}

impl Default for CachedFile {
    fn default() -> (file: CachedFile)
        ensures
            file@ == (CachedFileView { cache: None, origin: Seq::empty(), data: None }),
    {
        CachedFile { cache: None, origin: String::new(), data: None }
    }
}

/// What demoting a record makes of it, and what it hands back: an error for
/// a record without a place in the cache, nothing for a record whose bytes
/// are not in memory, else the bytes and the place where they belong.
pub open spec fn demotion(file: CachedFileView) -> (
    CachedFileView,
    Result<Option<(Seq<char>, Seq<u8>)>, AssetError>,
) {
    match file.cache {
        None => (file, Err(AssetError::CacheIOFailure)),
        Some(path) => match file.data {
            None => (file, Ok(None)),
            Some(bytes) => (CachedFileView { data: None, ..file }, Ok(Some((path, bytes)))),
        },
    }
}

/// A record with its place in the on-disk cache: the place it has, or else
/// the first free one among the attempts for `path`.
pub open spec fn placed(file: CachedFileView, path: Seq<char>, taken: Seq<Seq<char>>) -> Result<
    CachedFileView,
    AssetError,
> {
    match file.cache {
        Some(_) => Ok(file),
        None => match free_attempt(path, taken, 0, MAX_CACHE_PREFIX as nat) {
            Some(k) => Ok(CachedFileView { cache: Some(candidate(path, k)), ..file }),
            None => Err(AssetError::CacheIOFailure),
        },
    }
}

/// What promoting a record with `content` makes of it.
pub open spec fn promotion(file: CachedFileView, content: Seq<u8>) -> CachedFileView {
    match file.cache {
        None => file,
        Some(_) => CachedFileView { data: Some(content), ..file },
    }
}

/// Whether `name` is one of `taken`.
pub fn is_taken(taken: &Vec<String>, name: &str) -> (r: bool)
    ensures
        r == texts(taken@).contains(name@),
{
    let mut i: usize = 0;
    while i < taken.len()
        invariant
            i <= taken@.len(),
            forall|j: int| 0 <= j < i ==> #[trigger] texts(taken@)[j] != name@,
        decreases taken.len() - i,
    {
        if *taken[i].as_str() == *name {
            assert(texts(taken@)[i as int] == name@);
            return true;
        }
        i += 1;
    }
    false
}

impl CachedFile {
    /// Gives the record its place in the on-disk cache, unless it has one.
    ///
    /// The place is `cache`, or, where a file of that name is there already,
    /// the same path with as many underscores in front of its file name as
    /// it takes to find a free one. `taken` lists the file names that are in
    /// use in the directory of `cache`. After `MAX_CACHE_PREFIX` underscores
    /// the search is given up.
    pub fn set_cache_if_missing(&mut self, cache: &str, taken: &Vec<String>) -> (r: Result<
        (),
        AssetError,
    >)
        ensures
            match placed(old(self)@, cache@, texts(taken@)) {
                Ok(file) => r is Ok && final(self)@ == file,
                Err(e) => r == Err::<(), AssetError>(e) && final(self)@ == old(self)@,
            },
    {
        if self.cache.is_some() {
            return Ok(());
        }
        let chars = chars_of(cache);
        let start = find_name_start(&chars);
        let directory = text_of(&chars, 0, start);
        let base = text_of(&chars, start, chars.len());
        let mut prefix = String::new();
        let mut k: usize = 0;
        proof {
            assert(prefix@ =~= underscores(0));
        }
        while k <= MAX_CACHE_PREFIX
            invariant
                k <= MAX_CACHE_PREFIX + 1,
                prefix@ == underscores(k as nat),
                base@ == basename(cache@),
                directory@ == parent(cache@),
                *self == *old(self),
                self.cache is None,
                free_attempt(cache@, texts(taken@), k as nat, MAX_CACHE_PREFIX as nat)
                    == free_attempt(cache@, texts(taken@), 0, MAX_CACHE_PREFIX as nat),
            decreases MAX_CACHE_PREFIX + 1 - k,
        {
            let name = prefix.clone().concat(base.as_str());
            if !is_taken(taken, name.as_str()) {
                let path = directory.concat(name.as_str());
                self.cache = Some(path);
                proof {
                    assert(path@ == candidate(cache@, k as nat));
                }
                return Ok(());
            }
            prefix.push('_');
            proof {
                assert(prefix@ =~= underscores((k + 1) as nat));
            }
            k += 1;
        }
        Err(AssetError::CacheIOFailure)
    }

    /// Whether the member's bytes are in memory.
    pub fn is_loaded(&self) -> (r: bool)
        ensures
            r == self@.data is Some,
    {
        self.data.is_some()
    }

    /// Demotes the member: its bytes leave the record and are handed back,
    /// together with the place in the on-disk cache where they belong.
    ///
    /// A record without a place in the cache cannot be demoted. A record
    /// whose bytes are not in memory has nothing to write.
    pub fn cache(&mut self) -> (r: Result<Option<FileWrite>, AssetError>)
        ensures
            outcome(r) == demotion(old(self)@).1,
            final(self)@ == demotion(old(self)@).0,
    {
        match &self.cache {
            None => Err(AssetError::CacheIOFailure),
            Some(path) => {
                let path = path.clone();
                match self.data.take() {
                    None => Ok(None),
                    Some(data) => Ok(Some(FileWrite { path, data })),
                }
            },
        }
    }

    /// Promotes the member: `content`, read back from its file in the
    /// on-disk cache, becomes its bytes in memory.
    pub fn load_cache(&mut self, content: Vec<u8>) -> (r: Result<(), AssetError>)
        ensures
            final(self)@ == promotion(old(self)@, content@),
            match old(self)@.cache {
                None => r == Err::<(), AssetError>(AssetError::CacheIOFailure),
                Some(_) => r is Ok,
            },
    {
        if self.cache.is_none() {
            return Err(AssetError::CacheIOFailure);
        }
        self.data = Some(content);
        Ok(())
    }
}

/// The archive cache.
///
/// `files` holds the records in the order in which they were taken out of
/// their archives. A name stands for the first record of that origin.
#[derive(Debug)]
pub struct DecompressionManager {
    pub cache_location: String,
    pub files: Vec<CachedFile>,
}

/// The archive cache as contracts see it.
pub struct DecompressionManagerView {
    pub cache_location: Seq<char>,
    pub records: Seq<CachedFileView>,
}

/// The views of a list of records.
pub open spec fn records_of(files: Seq<CachedFile>) -> Seq<CachedFileView> {
    Seq::new(files.len(), |i: int| files[i]@)
}

/// The origins of a list of records.
pub open spec fn origins(records: Seq<CachedFileView>) -> Seq<Seq<char>> {
    Seq::new(records.len(), |i: int| records[i].origin)
}

/// `records` with the bytes of every record of origin `name` dropped.
pub open spec fn without_bytes(records: Seq<CachedFileView>, name: Seq<char>) -> Seq<
    CachedFileView,
> {
    Seq::new(
        records.len(),
        |i: int|
            if records[i].origin == name {
                CachedFileView { data: None, ..records[i] }
            } else {
                records[i]
            },
    )
}

/// `records` without those of origin `name`.
pub open spec fn without_origin(records: Seq<CachedFileView>, name: Seq<char>) -> Seq<
    CachedFileView,
>
    decreases records.len(),
{
    if records.len() == 0 {
        Seq::empty()
    } else {
        let rest = without_origin(records.drop_last(), name);
        if records.last().origin == name {
            rest
        } else {
            rest.push(records.last())
        }
    }
}

/// The cache files of the records of origin `name`, in their order.
pub open spec fn cache_files_of(records: Seq<CachedFileView>, name: Seq<char>) -> Seq<Seq<char>>
    decreases records.len(),
{
    if records.len() == 0 {
        Seq::empty()
    } else {
        let rest = cache_files_of(records.drop_last(), name);
        match records.last().cache {
            Some(path) => if records.last().origin == name {
                rest.push(path)
            } else {
                rest
            },
            None => rest,
        }
    }
}

/// The cache files of all records, in their order.
pub open spec fn all_cache_files(records: Seq<CachedFileView>) -> Seq<Seq<char>>
    decreases records.len(),
{
    if records.len() == 0 {
        Seq::empty()
    } else {
        let rest = all_cache_files(records.drop_last());
        match records.last().cache {
            Some(path) => rest.push(path),
            None => rest,
        }
    }
}

/// A record as an accessor leaves it: bytes that are neither in memory nor
/// supplied stay where they are; a demoted record takes the bytes read back
/// for it.
pub open spec fn materialized(file: CachedFileView, reloaded: Option<Seq<u8>>) -> CachedFileView {
    if file.data is None && file.cache is Some && reloaded is Some {
        CachedFileView { data: reloaded, ..file }
    } else {
        file
    }
}

impl DecompressionManagerView {
    /// The position of the record that `name` stands for; the number of
    /// records where there is none.
    pub open spec fn position(self, name: Seq<char>) -> int {
        first_position(origins(self.records), name)
    }

    /// Whether a record stands under `name`.
    pub open spec fn holds(self, name: Seq<char>) -> bool {
        self.position(name) < self.records.len()
    }

    /// The record that `name` stands for.
    pub open spec fn record(self, name: Seq<char>) -> CachedFileView {
        self.records[self.position(name)]
    }

    /// The cache with `file` in the place of the record that `name` stands for.
    pub open spec fn with_record(self, name: Seq<char>, file: CachedFileView) -> Self {
        DecompressionManagerView {
            records: self.records.update(self.position(name), file),
            ..self
        }
    }

    /// The file from which the bytes of `name` have to be read back before
    /// they can be handed out.
    pub open spec fn reload_path(self, name: Seq<char>) -> Option<Seq<char>> {
        if self.holds(name) && self.record(name).data is None {
            self.record(name).cache
        } else {
            None
        }
    }

    /// The cache after an access to `name`, and the bytes that the access
    /// gives.
    pub open spec fn accessed(self, name: Seq<char>, reloaded: Option<Seq<u8>>) -> (
        Self,
        Option<Seq<u8>>,
    ) {
        if self.holds(name) {
            let file = materialized(self.record(name), reloaded);
            (self.with_record(name, file), file.data)
        } else {
            (self, None)
        }
    }

    /// The place in the on-disk cache that `name` is given first.
    pub open spec fn cache_target(self, name: Seq<char>) -> Seq<char> {
        self.cache_location + seq!['/'] + name
    }

    /// The cache after `name` was demoted, and what is to be written.
    pub open spec fn demoted(self, name: Seq<char>, taken: Seq<Seq<char>>) -> (
        Self,
        Result<Option<(Seq<char>, Seq<u8>)>, AssetError>,
    ) {
        if self.holds(name) {
            match placed(self.record(name), self.cache_target(name), taken) {
                Ok(file) => (self.with_record(name, demotion(file).0), demotion(file).1),
                Err(e) => (self, Err(e)),
            }
        } else {
            (self, Ok(None))
        }
    }
}

/// Whether the archive cache reads `archive` itself: its extension is `zip`.
pub open spec fn reads_natively(archive: Seq<char>) -> bool {
    extension(archive) == Some("zip"@)
}

/// A record that takes the place of one of the same origin stands under
/// the same name.
pub proof fn lemma_position_kept(
    cache: DecompressionManagerView,
    name: Seq<char>,
    file: CachedFileView,
)
    requires
        cache.holds(name),
        file.origin == name,
    ensures
        cache.with_record(name, file).position(name) == cache.position(name),
        cache.with_record(name, file).record(name) == file,
{
    let k = cache.position(name);
    let before = origins(cache.records);
    let after = origins(cache.with_record(name, file).records);
    lemma_first_position(before, name);
    assert(after =~= before.update(k, name));
    assert forall|j: int| 0 <= j < k implies #[trigger] after[j] != name by {
        assert(after[j] == before[j]);
    }
    lemma_first_position_unique(after, name, k);
}

/// Demoting a member and promoting it again gives its bytes back.
///
/// Demoting a member whose bytes are in memory hands exactly those bytes
/// out to be written; the member then asks for them to be read back from
/// the place where they were written; and once they are, an access gives the
/// bytes that the member had. Where no place can be found for the member in
/// the on-disk cache, it keeps its bytes.
pub proof fn cache_round_trip(
    cache: DecompressionManagerView,
    name: Seq<char>,
    taken: Seq<Seq<char>>,
)
    requires
        cache.holds(name),
        cache.record(name).data is Some,
    ensures
        match cache.demoted(name, taken).1 {
            Ok(Some((path, written))) => {
                let after = cache.demoted(name, taken).0;
                &&& written == cache.record(name).data->Some_0
                &&& after.reload_path(name) == Some(path)
                &&& after.accessed(name, Some(written)).1 == cache.record(name).data
            },
            Ok(None) => false,
            Err(_) => cache.demoted(name, taken).0 == cache,
        },
{
    lemma_first_position(origins(cache.records), name);
    assert(origins(cache.records)[cache.position(name)] == cache.record(name).origin);
    match placed(cache.record(name), cache.cache_target(name), taken) {
        Ok(file) => {
            lemma_position_kept(cache, name, demotion(file).0);
        },
        Err(_) => {},
    }
}

/// Once the records of an origin are removed, none stands under its name.
pub proof fn removed_records_are_gone(records: Seq<CachedFileView>, name: Seq<char>)
    ensures
        forall|i: int|
            0 <= i < without_origin(records, name).len() ==> (#[trigger] without_origin(
                records,
                name,
            )[i]).origin != name,
    decreases records.len(),
{
    if records.len() > 0 {
        removed_records_are_gone(records.drop_last(), name);
    }
}

/// Replacing a record replaces its view.
proof fn lemma_records_update(files: Seq<CachedFile>, k: int, file: CachedFile)
    requires
        0 <= k < files.len(),
    ensures
        records_of(files.update(k, file)) == records_of(files).update(k, file@),
{
    assert(records_of(files.update(k, file)) =~= records_of(files).update(k, file@));
}

impl View for DecompressionManager {
    type V = DecompressionManagerView;

    open spec fn view(&self) -> DecompressionManagerView {
        DecompressionManagerView {
            cache_location: self.cache_location@,
            records: records_of(self.files@),
        }
    }
}

impl Default for DecompressionManager {
    fn default() -> (manager: DecompressionManager)
        ensures
            manager@ == (DecompressionManagerView {
                cache_location: Seq::empty(),
                records: Seq::empty(),
            }),
    {
        let manager = DecompressionManager { cache_location: String::new(), files: Vec::new() };
        proof {
            assert(manager@.records =~= Seq::empty());
        }
        manager
    }
}

impl DecompressionManager {
    /// Sets the directory of the on-disk cache.
    pub fn set_cache_location(&mut self, cache_location: &str)
        ensures
            final(self)@ == (DecompressionManagerView {
                cache_location: cache_location@,
                ..old(self)@
            }),
    {
        self.cache_location = cache_location.to_owned();
    }

    /// The place in the on-disk cache that `filename` is given first: the
    /// cache's directory, a `/`, and the name.
    pub fn cache_target(&self, filename: &str) -> (target: String)
        ensures
            target@ == self@.cache_target(filename@),
    {
        let mut target = self.cache_location.clone();
        target.push('/');
        target.append(filename);
        proof {
            assert(target@ =~= self@.cache_target(filename@));
        }
        target
    }

    /// The position of the record that `filename` stands for.
    pub fn find(&self, filename: &str) -> (k: usize)
        ensures
            k == self@.position(filename@),
            k <= self.files@.len(),
    {
        let mut i: usize = 0;
        while i < self.files.len() && !(*self.files[i].origin.as_str() == *filename)
            invariant
                i <= self.files@.len(),
                forall|j: int| 0 <= j < i ==> #[trigger] origins(self@.records)[j] != filename@,
            decreases self.files.len() - i,
        {
            i += 1;
        }
        proof {
            lemma_first_position_unique(origins(self@.records), filename@, i as int);
        }
        i
    }

    /// Demotes the record that `filename` stands for: it is given its place
    /// in the on-disk cache, unless it has one, and its bytes are handed back
    /// to be written there. `taken` lists the file names in use in the
    /// directory of that place.
    pub fn cache(&mut self, filename: &str, taken: &Vec<String>) -> (r: Result<
        Option<FileWrite>,
        AssetError,
    >)
        ensures
            final(self)@ == old(self)@.demoted(filename@, texts(taken@)).0,
            outcome(r) == old(self)@.demoted(filename@, texts(taken@)).1,
    {
        let k = self.find(filename);
        if k >= self.files.len() {
            return Ok(None);
        }
        let target = self.cache_target(filename);
        match self.files[k].set_cache_if_missing(target.as_str(), taken) {
            Err(e) => {
                proof {
                    assert(self@.records =~= old(self)@.records);
                }
                Err(e)
            },
            Ok(_) => {
                let r = self.files[k].cache();
                proof {
                    assert(self@.records =~= old(self)@.demoted(
                        filename@,
                        texts(taken@),
                    ).0.records);
                }
                r
            },
        }
    }

    /// The record that `filename` stands for.
    pub fn get(&self, filename: &str) -> (r: Option<&CachedFile>)
        ensures
            match r {
                Some(file) => self@.holds(filename@) && file@ == self@.record(filename@),
                None => !self@.holds(filename@),
            },
    {
        let k = self.find(filename);
        if k < self.files.len() {
            Some(&self.files[k])
        } else {
            None
        }
    }

    /// The record that `filename` stands for, to be changed in place.
    pub fn get_mut(&mut self, filename: &str) -> (r: Option<&mut CachedFile>)
        ensures
            match r {
                Some(file) => old(self)@.holds(filename@) && file@ == old(self)@.record(filename@)
                    && final(self)@ =~~= old(self)@.with_record(filename@, final(file)@),
                None => !old(self)@.holds(filename@) && final(self)@ == old(self)@,
            },
    {
        let k = self.find(filename);
        if k < self.files.len() {
            proof {
                assert forall|file: CachedFile| #[trigger]
                    records_of(self.files@.update(k as int, file)) == records_of(
                        self.files@,
                    ).update(k as int, file@) by {
                    lemma_records_update(self.files@, k as int, file);
                }
            }
            Some(&mut self.files[k])
        } else {
            None
        }
    }

    /// The file from which the bytes of `filename` have to be read back
    /// before an accessor can hand them out: the cache file of a record that
    /// is not in memory.
    pub fn reload_path(&self, filename: &str) -> (r: Option<String>)
        ensures
            opt_text(r) == self@.reload_path(filename@),
    {
        let k = self.find(filename);
        if k < self.files.len() && self.files[k].data.is_none() {
            match &self.files[k].cache {
                Some(path) => Some(path.clone()),
                None => None,
            }
        } else {
            None
        }
    }

    /// A copy of the bytes of `filename`.
    ///
    /// A demoted record is promoted first: `reloaded`, the bytes read back
    /// from its cache file, become its bytes in memory.
    pub fn get_data(&mut self, filename: &str, reloaded: Option<Vec<u8>>) -> (r: Option<Vec<u8>>)
        ensures
            final(self)@ == old(self)@.accessed(filename@, opt_bytes(reloaded)).0,
            opt_bytes(r) == old(self)@.accessed(filename@, opt_bytes(reloaded)).1,
    {
        match self.get_data_ref(filename, reloaded) {
            Some(data) => match data {
                Some(bytes) => Some(bytes.clone()),
                None => None,
            },
            None => None,
        }
    }

    /// The bytes of `filename`, promoted first as by `get_data`. `None`
    /// where no record stands under the name.
    pub fn get_data_ref(&mut self, filename: &str, reloaded: Option<Vec<u8>>) -> (r: Option<
        &Option<Vec<u8>>,
    >)
        ensures
            final(self)@ == old(self)@.accessed(filename@, opt_bytes(reloaded)).0,
            match r {
                Some(data) => old(self)@.holds(filename@) && opt_bytes(*data) == old(
                    self,
                )@.accessed(filename@, opt_bytes(reloaded)).1,
                None => !old(self)@.holds(filename@),
            },
    {
        let k = self.find(filename);
        if k >= self.files.len() {
            return None;
        }
        if self.files[k].data.is_none() && self.files[k].cache.is_some() {
            match reloaded {
                Some(bytes) => {
                    self.files[k].data = Some(bytes);
                },
                None => {},
            }
        }
        proof {
            assert(self@.records =~= old(self)@.accessed(
                filename@,
                opt_bytes(reloaded),
            ).0.records);
        }
        Some(&self.files[k].data)
    }

    /// The bytes of `filename`, to be changed in place; promoted first as by
    /// `get_data`. `None` where no record stands under the name.
    pub fn get_data_mut(&mut self, filename: &str, reloaded: Option<Vec<u8>>) -> (r: Option<
        &mut Option<Vec<u8>>,
    >)
        ensures
            match r {
                Some(data) => old(self)@.holds(filename@) && opt_bytes(*data) == old(
                    self,
                )@.accessed(filename@, opt_bytes(reloaded)).1 && final(self)@ =~~= old(
                    self,
                )@.with_record(
                    filename@,
                    CachedFileView {
                        data: opt_bytes(*final(data)),
                        ..old(self)@.record(filename@)
                    },
                ),
                None => !old(self)@.holds(filename@) && final(self)@ == old(self)@,
            },
    {
        let k = self.find(filename);
        if k >= self.files.len() {
            return None;
        }
        proof {
            assert forall|file: CachedFile| #[trigger]
                records_of(self.files@.update(k as int, file)) == records_of(self.files@).update(
                    k as int,
                    file@,
                ) by {
                lemma_records_update(self.files@, k as int, file);
            }
        }
        let file = &mut self.files[k];
        if file.data.is_none() && file.cache.is_some() {
            match reloaded {
                Some(bytes) => {
                    file.data = Some(bytes);
                },
                None => {},
            }
        }
        Some(&mut file.data)
    }

    /// Drops the bytes of every record of origin `filename`; what is in the
    /// on-disk cache stays there.
    pub fn unload(&mut self, filename: &str)
        ensures
            final(self)@ == (DecompressionManagerView {
                records: without_bytes(old(self)@.records, filename@),
                ..old(self)@
            }),
    {
        let mut i: usize = 0;
        while i < self.files.len()
            invariant
                i <= self.files@.len(),
                self.files@.len() == old(self).files@.len(),
                self@.cache_location == old(self)@.cache_location,
                forall|j: int|
                    0 <= j < i ==> (#[trigger] self.files@[j])@ == without_bytes(
                        old(self)@.records,
                        filename@,
                    )[j],
                forall|j: int|
                    i <= j < self.files@.len() ==> (#[trigger] self.files@[j])@ == old(
                        self,
                    ).files@[j]@,
            decreases self.files.len() - i,
        {
            if *self.files[i].origin.as_str() == *filename {
                let ghost before = self.files@;
                self.files[i].data = None;
                proof {
                    assert(forall|j: int|
                        0 <= j < before.len() && j != i ==> self.files@[j] == before[j]);
                }
            }
            i += 1;
        }
        proof {
            assert(self@.records =~= without_bytes(old(self)@.records, filename@));
        }
    }

    /// Removes every record of origin `filename`, and hands back the cache
    /// files that belonged to them: they are to be deleted.
    pub fn remove(&mut self, filename: &str) -> (orphans: Vec<String>)
        ensures
            final(self)@ == (DecompressionManagerView {
                records: without_origin(old(self)@.records, filename@),
                ..old(self)@
            }),
            texts(orphans@) == cache_files_of(old(self)@.records, filename@),
    {
        let mut kept: Vec<CachedFile> = Vec::new();
        let mut orphans: Vec<String> = Vec::new();
        let mut all: Vec<CachedFile> = Vec::new();
        std::mem::swap(&mut all, &mut self.files);
        let ghost before = old(self)@.records;
        proof {
            assert(records_of(all@) =~= before);
            assert(before.take(0) =~= Seq::empty());
            assert(records_of(kept@) =~= without_origin(before.take(0), filename@));
            assert(texts(orphans@) =~= cache_files_of(before.take(0), filename@));
        }
        let total = all.len();
        let ghost mut done: int = 0;
        for file in it: all
            invariant
                it.seq().len() == before.len(),
                forall|j: int| 0 <= j < before.len() ==> #[trigger] it.seq()[j]@ == before[j],
                records_of(kept@) == without_origin(before.take(it.index() as int), filename@),
                texts(orphans@) == cache_files_of(before.take(it.index() as int), filename@),
                self.cache_location == old(self).cache_location,
        {
            let ghost i = it.index() as int;
            let ghost kept_before = records_of(kept@);
            let ghost orphans_before = texts(orphans@);
            proof {
                let upto = before.take(i + 1);
                assert(upto.drop_last() == before.take(i));
                assert(upto.last() == file@);
            }
            if *file.origin.as_str() == *filename {
                match file.cache {
                    Some(path) => {
                        orphans.push(path);
                        proof {
                            assert(texts(orphans@) =~= orphans_before.push(path@));
                        }
                    },
                    None => {},
                }
            } else {
                kept.push(file);
                proof {
                    assert(records_of(kept@) =~= kept_before.push(file@));
                }
            }
        }
        proof {
            assert(before.take(before.len() as int) == before);
        }
        self.files = kept;
        orphans
    }

    /// Whether the cache reads `archive` itself, from its bytes, rather than
    /// leaving it to the hooks.
    pub fn is_native(archive: &str) -> (r: bool)
        ensures
            r == reads_natively(archive@),
    {
        match extension_of(archive) {
            Some(extension) => *extension.as_str() == *"zip",
            None => false,
        }
    }

    /// Takes members of the archive `archive` into the cache.
    ///
    /// An archive whose extension is `zip` is read here: `content` holds its
    /// bytes, and each regular file that `selection` names (every one, where
    /// there is no selection) becomes a record behind those that are there.
    /// Nothing is added where the archive cannot be taken in, or where it
    /// holds no regular file under a name that `selection` gives: the first
    /// is reported as `ArchiveOpenFailure`, the second as
    /// `ArchiveMemberMissing`.
    ///
    /// Any other archive is left to the hooks: each of them, in order, is
    /// handed the cache, the extension and the archive's path.
    pub fn load_archive(
        &mut self,
        archive: &str,
        content: Vec<u8>,
        selection: Option<Vec<&str>>,
        process_pass_list: &mut Vec<Box<dyn ProcessPass>>,
    ) -> (r: Result<(), AssetError>)
        ensures
            final(process_pass_list)@.len() == old(process_pass_list)@.len(),
            reads_natively(archive@) ==> *final(process_pass_list) == *old(process_pass_list)
                && match unpacked(content@, selected(selection)) {
                Ok(records) => r is Ok && final(self)@ == (DecompressionManagerView {
                    records: old(self)@.records + records,
                    ..old(self)@
                }),
                Err(e) => r == Err::<(), AssetError>(e) && final(self)@ == old(self)@,
            },
            !reads_natively(archive@) ==> r is Ok && (old(process_pass_list)@.len() == 0
                ==> final(self)@ == old(self)@),
    {
        let extension = match extension_of(archive) {
            Some(extension) => extension,
            None => String::new(),
        };
        if DecompressionManager::is_native(archive) {
            let mut records = unpack(content, &selection)?;
            let ghost added = records_of(records@);
            self.files.append(&mut records);
            proof {
                assert(self@.records =~= old(self)@.records + added);
            }
            Ok(())
        } else {
            let mut i: usize = 0;
            while i < process_pass_list.len()
                invariant
                    process_pass_list@.len() == old(process_pass_list)@.len(),
                    old(process_pass_list)@.len() == 0 ==> self@ == old(self)@,
                decreases process_pass_list.len() - i,
            {
                process_pass_list[i].on_archive(self, extension.as_str(), archive);
                i += 1;
            }
            Ok(())
        }
    }

    /// The cache files of all records: what has to be deleted when the
    /// cache itself goes away.
    pub fn cache_files(&self) -> (paths: Vec<String>)
        ensures
            texts(paths@) == all_cache_files(self@.records),
    {
        let mut paths: Vec<String> = Vec::new();
        let mut i: usize = 0;
        proof {
            assert(self@.records.take(0) =~= Seq::empty());
            assert(texts(paths@) =~= all_cache_files(self@.records.take(0)));
        }
        while i < self.files.len()
            invariant
                i <= self.files@.len(),
                texts(paths@) == all_cache_files(self@.records.take(i as int)),
            decreases self.files.len() - i,
        {
            let ghost paths_before = texts(paths@);
            proof {
                let upto = self@.records.take(i + 1);
                assert(upto.drop_last() == self@.records.take(i as int));
                assert(upto.last() == self.files@[i as int]@);
            }
            match &self.files[i].cache {
                Some(path) => {
                    paths.push(path.clone());
                    proof {
                        assert(texts(paths@) =~= paths_before.push(path@));
                    }
                },
                None => {},
            }
            i += 1;
        }
        proof {
            assert(self@.records.take(i as int) == self@.records);
        }
        paths
    }
}

} // verus!
