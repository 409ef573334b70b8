//! What the asset manager keeps, and what its hooks are handed: the
//! catalog, the archive cache and the loaded assets, with the steps of a
//! load.
use crate::archive_path::{archive_split, split_archive_path};
use crate::decompression_manager::{
    cache_files_of, candidate, demotion, free_attempt, lemma_position_kept, origins, placed,
    reads_natively, without_bytes, without_origin, CachedFileView, DecompressionManager,
    DecompressionManagerView, MAX_CACHE_PREFIX,
};
use crate::downloader::Downloader;
use crate::error::AssetError;
use crate::index::{known, Index, IndexView};
use crate::manager::{File, FileView};
use crate::text::{
    basename, contains_separator, file_name, first_position, has_separator,
    lemma_first_position, lemma_first_position_unique, opt_text, texts,
};
use crate::unpack::unpacked;
use vstd::prelude::*;

verus! {

/// What the manager keeps: the catalog, the archive cache, the loaded
/// assets and the extensions at which a path enters an archive. It is what
/// the hooks are handed.
pub struct AssetStore {
    pub index: Index,
    pub cache: DecompressionManager,
    pub files: Vec<File>,
    pub compression_formats: Vec<String>,
    pub downloader: Downloader,
}

/// The store as contracts see it.
pub struct AssetStoreView {
    pub index: IndexView,
    pub cache: DecompressionManagerView,
    pub files: Seq<FileView>,
    pub formats: Seq<Seq<char>>,
}

/// The views of a list of loaded assets.
pub open spec fn files_of(files: Seq<File>) -> Seq<FileView> {
    Seq::new(files.len(), |i: int| files[i]@)
}

/// The paths of a list of loaded assets.
pub open spec fn paths_of(files: Seq<FileView>) -> Seq<Seq<char>> {
    Seq::new(files.len(), |i: int| files[i].path)
}

/// The file names of a list of loaded assets.
pub open spec fn file_names_of(files: Seq<FileView>) -> Seq<Seq<char>> {
    Seq::new(files.len(), |i: int| basename(files[i].path))
}

/// `files` with the bytes of every asset at `path` dropped.
pub open spec fn released(files: Seq<FileView>, path: Seq<char>) -> Seq<FileView> {
    Seq::new(
        files.len(),
        |i: int|
            if files[i].path == path {
                FileView { data: None, ..files[i] }
            } else {
                files[i]
            },
    )
}

/// Whether an asset at `path` came out of an archive.
pub open spec fn from_archive_at(files: Seq<FileView>, path: Seq<char>) -> bool {
    exists|i: int|
        0 <= i < files.len() && (#[trigger] files[i]).path == path && files[i].from_archive
}

/// `files` without the assets at `path`.
pub open spec fn without_path(files: Seq<FileView>, path: Seq<char>) -> Seq<FileView>
    decreases files.len(),
{
    if files.len() == 0 {
        Seq::empty()
    } else {
        let rest = without_path(files.drop_last(), path);
        if files.last().path == path {
            rest
        } else {
            rest.push(files.last())
        }
    }
}

impl View for AssetStore {
    type V = AssetStoreView;

    open spec fn view(&self) -> AssetStoreView {
        AssetStoreView {
            index: self.index@,
            cache: self.cache@,
            files: files_of(self.files@),
            formats: texts(self.compression_formats@),
        }
    }
}

/// What a load has to do next.
#[derive(Debug)]
pub enum LoadStep {
    /// A hook ended the load. Nothing is to be read.
    Stopped,
    /// The asset was fetched from the web and is registered. Nothing is to
    /// be read.
    Registered,
    /// The asset is the file at `path`: its content is to be read and handed
    /// to `finish_load`.
    ReadFile { path: String },
    /// The asset is `member` of the archive at `archive`. Where the archive
    /// cache reads the archive itself, its bytes are to be read and handed to
    /// `finish_load`; else `finish_load` leaves the archive to the hooks.
    ReadArchive { archive: String, member: String },
}

/// A step of a load as contracts see it.
pub enum LoadStepView {
    Stopped,
    Registered,
    ReadFile { path: Seq<char> },
    ReadArchive { archive: Seq<char>, member: Seq<char> },
}

impl LoadStepView {
    /// Whether the step is about an archive that the archive cache does not
    /// read itself, and leaves to the hooks.
    pub open spec fn is_foreign(self) -> bool {
        self matches LoadStepView::ReadArchive { archive, .. } && !reads_natively(archive)
    }
}

impl View for LoadStep {
    type V = LoadStepView;

    open spec fn view(&self) -> LoadStepView {
        match self {
            LoadStep::Stopped => LoadStepView::Stopped,
            LoadStep::Registered => LoadStepView::Registered,
            LoadStep::ReadFile { path } => LoadStepView::ReadFile { path: path@ },
            LoadStep::ReadArchive { archive, member } => LoadStepView::ReadArchive {
                archive: archive@,
                member: member@,
            },
        }
    }
}

/// The view of the outcome of planning a load.
pub open spec fn planned(r: Result<LoadStep, AssetError>) -> Result<LoadStepView, AssetError> {
    match r {
        Ok(step) => Ok(step@),
        Err(e) => Err(e),
    }
}

/// What a load does once the hooks have spoken. `go` is whether they let it
/// go on, `path` the path they left, `failure` the reason why there may be
/// none.
pub open spec fn plan(
    go: bool,
    path: Option<Seq<char>>,
    failure: AssetError,
    formats: Seq<Seq<char>>,
) -> Result<LoadStepView, AssetError> {
    if !go {
        Ok(LoadStepView::Stopped)
    } else {
        match path {
            None => Err(failure),
            Some(path) => match archive_split(path, formats) {
                Some((archive, member)) => Ok(LoadStepView::ReadArchive { archive, member }),
                None => Ok(LoadStepView::ReadFile { path }),
            },
        }
    }
}

/// Decides what a load does once the hooks have spoken: nothing where one
/// of them ended it, else a read of the file, or of the archive, that the
/// path stands for.
pub fn plan_load(go: bool, path: Option<String>, failure: AssetError, formats: &Vec<String>) -> (r:
    Result<LoadStep, AssetError>)
    ensures
        planned(r) == plan(go, opt_text(path), failure, texts(formats@)),
        !go ==> r matches Ok(LoadStep::Stopped),
{
    if !go {
        return Ok(LoadStep::Stopped);
    }
    match path {
        None => Err(failure),
        Some(path) => match split_archive_path(path.as_str(), formats) {
            Some(split) => Ok(
                LoadStep::ReadArchive { archive: split.archive, member: split.member },
            ),
            None => Ok(LoadStep::ReadFile { path }),
        },
    }
}

impl AssetStoreView {
    /// The path that a load of `name` starts from: the name itself where it
    /// is a full path, else what the catalog resolves it to.
    pub open spec fn load_target(self, name: Seq<char>) -> Option<Seq<char>> {
        if has_separator(name) {
            Some(name)
        } else {
            self.index.path_of(name)
        }
    }

    /// Why a load of `name` has no path to start from, where it has none
    /// once the hooks were asked: what kept the catalog from resolving the
    /// name, or else that nothing was found.
    pub open spec fn load_failure(self, name: Seq<char>) -> AssetError {
        if has_separator(name) {
            AssetError::NotFound
        } else {
            match self.index.resolution(name) {
                Err(e) => e,
                Ok(_) => AssetError::NotFound,
            }
        }
    }

    /// The store with the asset fetched from `url` registered.
    pub open spec fn with_download(self, url: Seq<char>, content: Seq<u8>) -> Self {
        AssetStoreView {
            index: IndexView { entries: self.index.entries.push(url), ..self.index },
            files: self.files.push(
                FileView { from_archive: false, path: url, data: Some(content), downloaded: true },
            ),
            ..self
        }
    }

    /// The store after the assets at `path` were unloaded, and the member
    /// that is then to be demoted in the archive cache.
    pub open spec fn unloaded(self, path: Seq<char>, persist: bool) -> (Self, Option<Seq<char>>) {
        let files = released(self.files, path);
        if from_archive_at(self.files, path) {
            if persist {
                (AssetStoreView { files, ..self }, Some(path))
            } else {
                (
                    AssetStoreView {
                        files,
                        cache: DecompressionManagerView {
                            records: without_bytes(self.cache.records, path),
                            ..self.cache
                        },
                        ..self
                    },
                    None,
                )
            }
        } else {
            (AssetStoreView { files, ..self }, None)
        }
    }

    /// The store after the assets at `path` were removed, and the cache
    /// files that are then to be deleted.
    pub open spec fn removed(self, path: Seq<char>) -> (Self, Seq<Seq<char>>) {
        let files = without_path(self.files, path);
        if from_archive_at(self.files, path) {
            (
                AssetStoreView {
                    files,
                    cache: DecompressionManagerView {
                        records: without_origin(self.cache.records, path),
                        ..self.cache
                    },
                    ..self
                },
                cache_files_of(self.cache.records, path),
            )
        } else {
            (AssetStoreView { files, ..self }, Seq::empty())
        }
    }

    /// The position of the loaded asset that `name` stands for: the name is
    /// resolved by the catalog, and the first asset is taken whose path is
    /// what it resolves to, or whose file name is, where that holds no
    /// separator.
    pub open spec fn located(self, name: Seq<char>) -> Option<int> {
        match self.index.path_of(name) {
            None => None,
            Some(path) => {
                let k = if has_separator(path) {
                    first_position(paths_of(self.files), path)
                } else {
                    first_position(file_names_of(self.files), path)
                };
                if k < self.files.len() {
                    Some(k)
                } else {
                    None
                }
            },
        }
    }

    /// The bytes of the loaded asset that `name` stands for.
    pub open spec fn loaded_bytes(self, name: Seq<char>) -> Option<Seq<u8>> {
        match self.located(name) {
            Some(k) => self.files[k].data,
            None => None,
        }
    }

    /// The store after `name` was asked for, and the bytes that this gives:
    /// those of the archive cache, or else those of the loaded asset.
    pub open spec fn got(self, name: Seq<char>, reloaded: Option<Seq<u8>>) -> (
        Self,
        Option<Seq<u8>>,
    ) {
        let (cache, bytes) = self.cache.accessed(name, reloaded);
        (
            AssetStoreView { cache, ..self },
            match bytes {
                Some(bytes) => Some(bytes),
                None => self.loaded_bytes(name),
            },
        )
    }

    /// Whether `name` is the file name of a loaded asset, or known to the
    /// catalog.
    pub open spec fn has(self, name: Seq<char>) -> bool {
        ||| exists|i: int|
            0 <= i < self.files.len() && basename((#[trigger] self.files[i]).path) == name
        ||| known(self.index.entries, name)
    }
}

impl AssetStore {
    /// The position of the first loaded asset whose file name is `filename`.
    pub fn find_by_name(&self, filename: &str) -> (k: usize)
        ensures
            k == first_position(file_names_of(self@.files), filename@),
            k <= self.files@.len(),
    {
        let mut i: usize = 0;
        while i < self.files.len() && !(*file_name(self.files[i].path.as_str()).as_str()
            == *filename)
            invariant
                i <= self.files@.len(),
                forall|j: int| 0 <= j < i ==> #[trigger] file_names_of(self@.files)[j] != filename@,
            decreases self.files.len() - i,
        {
            i += 1;
        }
        proof {
            lemma_first_position_unique(file_names_of(self@.files), filename@, i as int);
        }
        i
    }

    /// The position of the first loaded asset whose path is `path`.
    pub fn find_by_path(&self, path: &str) -> (k: usize)
        ensures
            k == first_position(paths_of(self@.files), path@),
            k <= self.files@.len(),
    {
        let mut i: usize = 0;
        while i < self.files.len() && !(*self.files[i].path.as_str() == *path)
            invariant
                i <= self.files@.len(),
                forall|j: int| 0 <= j < i ==> #[trigger] paths_of(self@.files)[j] != path@,
            decreases self.files.len() - i,
        {
            i += 1;
        }
        proof {
            lemma_first_position_unique(paths_of(self@.files), path@, i as int);
        }
        i
    }

    /// The path that a load of `name` starts from, and why there may be
    /// none.
    pub fn load_target(&self, name: &str) -> (r: (Option<String>, AssetError))
        ensures
            opt_text(r.0) == self@.load_target(name@),
            r.1 == self@.load_failure(name@),
    {
        if contains_separator(name) {
            return (Some(name.to_owned()), AssetError::NotFound);
        }
        match self.index.resolve(name) {
            Ok(path) => (Some(path), AssetError::NotFound),
            Err(e) => (None, e),
        }
    }

    /// The position of the loaded asset that `name` stands for.
    pub fn locate(&self, name: &str) -> (r: Option<usize>)
        ensures
            match r {
                Some(k) => self@.located(name@) == Some(k as int) && k < self.files@.len(),
                None => self@.located(name@) is None,
            },
    {
        match self.index.get_path(name) {
            None => None,
            Some(path) => {
                let k = if contains_separator(path.as_str()) {
                    self.find_by_path(path.as_str())
                } else {
                    self.find_by_name(path.as_str())
                };
                if k < self.files.len() {
                    Some(k)
                } else {
                    None
                }
            },
        }
    }

    /// Registers an asset fetched from `url`: it is loaded, with `content`
    /// as its bytes, and known to the catalog under its URL.
    pub fn register_download(&mut self, url: &str, content: Vec<u8>)
        ensures
            final(self)@ == old(self)@.with_download(url@, content@),
    {
        let file = File {
            from_archive: false,
            path: url.to_owned(),
            data: Some(content),
            downloaded: true,
        };
        self.index.add_file(url.to_owned());
        self.files.push(file);
        proof {
            assert(self@.files =~= old(self)@.files.push(file@));
        }
    }

    /// Unloads the assets at `path`: their bytes are dropped, their records
    /// stay. Where one of them came out of an archive, its member is either
    /// unloaded in the archive cache too or, where `persist` is set, handed
    /// back to be demoted there.
    pub fn unload_files(&mut self, path: &str, persist: bool) -> (r: Option<String>)
        ensures
            final(self)@ == old(self)@.unloaded(path@, persist).0,
            opt_text(r) == old(self)@.unloaded(path@, persist).1,
    {
        let mut any_archive = false;
        let mut i: usize = 0;
        while i < self.files.len()
            invariant
                i <= self.files@.len(),
                self.files@.len() == old(self).files@.len(),
                self.index == old(self).index,
                self.cache == old(self).cache,
                self.compression_formats == old(self).compression_formats,
                forall|j: int|
                    0 <= j < i ==> (#[trigger] self.files@[j])@ == released(
                        old(self)@.files,
                        path@,
                    )[j],
                forall|j: int|
                    i <= j < self.files@.len() ==> (#[trigger] self.files@[j])@ == old(
                        self,
                    ).files@[j]@,
                any_archive == from_archive_at(old(self)@.files.take(i as int), path@),
            decreases self.files.len() - i,
        {
            let ghost upto = old(self)@.files.take(i as int);
            let ghost next = old(self)@.files.take(i + 1);
            if *self.files[i].path.as_str() == *path {
                let ghost before = self.files@;
                self.files[i].data = None;
                proof {
                    assert(forall|j: int|
                        0 <= j < before.len() && j != i ==> self.files@[j] == before[j]);
                }
                if self.files[i].from_archive {
                    proof {
                        assert(next[i as int].path == path@ && next[i as int].from_archive);
                    }
                    any_archive = true;
                }
            }
            proof {
                if from_archive_at(next, path@) {
                    let w = choose|w: int|
                        0 <= w < next.len() && (#[trigger] next[w]).path == path@
                            && next[w].from_archive;
                    if w < i {
                        assert(upto[w] == next[w]);
                    }
                }
                if from_archive_at(upto, path@) {
                    let w = choose|w: int|
                        0 <= w < upto.len() && (#[trigger] upto[w]).path == path@
                            && upto[w].from_archive;
                    assert(next[w] == upto[w]);
                }
            }
            i += 1;
        }
        proof {
            assert(old(self)@.files.take(i as int) == old(self)@.files);
            assert(self@.files =~= released(old(self)@.files, path@));
        }
        if any_archive {
            if persist {
                return Some(path.to_owned());
            }
            self.cache.unload(path);
        }
        None
    }

    /// Removes the assets at `path`. Where one of them came out of an
    /// archive, its records leave the archive cache too, and the cache files
    /// that belonged to them are handed back: they are to be deleted.
    pub fn remove_files(&mut self, path: &str) -> (orphans: Vec<String>)
        ensures
            final(self)@ == old(self)@.removed(path@).0,
            texts(orphans@) == old(self)@.removed(path@).1,
    {
        let mut kept: Vec<File> = Vec::new();
        let mut all: Vec<File> = Vec::new();
        std::mem::swap(&mut all, &mut self.files);
        let ghost before = old(self)@.files;
        let mut any_archive = false;
        proof {
            assert(files_of(all@) =~= before);
            assert(before.take(0) =~= Seq::empty());
            assert(files_of(kept@) =~= without_path(before.take(0), path@));
        }
        for file in it: all
            invariant
                it.seq().len() == before.len(),
                forall|j: int| 0 <= j < before.len() ==> #[trigger] it.seq()[j]@ == before[j],
                files_of(kept@) == without_path(before.take(it.index() as int), path@),
                any_archive == from_archive_at(before.take(it.index() as int), path@),
                self.index == old(self).index,
                self.cache == old(self).cache,
                self.compression_formats == old(self).compression_formats,
        {
            let ghost i = it.index() as int;
            let ghost kept_before = files_of(kept@);
            let ghost upto = before.take(i);
            let ghost next = before.take(i + 1);
            proof {
                assert(next.drop_last() == upto);
                assert(next.last() == file@);
            }
            if *file.path.as_str() == *path {
                if file.from_archive {
                    proof {
                        assert(next[i].path == path@ && next[i].from_archive);
                    }
                    any_archive = true;
                }
            } else {
                kept.push(file);
                proof {
                    assert(files_of(kept@) =~= kept_before.push(file@));
                }
            }
            proof {
                if from_archive_at(next, path@) {
                    let w = choose|w: int|
                        0 <= w < next.len() && (#[trigger] next[w]).path == path@
                            && next[w].from_archive;
                    if w < i {
                        assert(upto[w] == next[w]);
                    }
                }
                if from_archive_at(upto, path@) {
                    let w = choose|w: int|
                        0 <= w < upto.len() && (#[trigger] upto[w]).path == path@
                            && upto[w].from_archive;
                    assert(next[w] == upto[w]);
                }
            }
        }
        proof {
            assert(before.take(before.len() as int) == before);
        }
        self.files = kept;
        if any_archive {
            self.cache.remove(path)
        } else {
            let none: Vec<String> = Vec::new();
            proof {
                assert(texts(none@) =~= Seq::empty());
            }
            none
        }
    }
}

/// The loaded asset that a load leaves behind for a file and its content.
pub open spec fn file_asset(path: Seq<char>, content: Seq<u8>) -> FileView {
    FileView { from_archive: false, path, data: Some(content), downloaded: false }
}

/// The loaded asset that a load leaves behind for a member of an archive:
/// its bytes are with the archive cache.
pub open spec fn member_asset(member: Seq<char>) -> FileView {
    FileView { from_archive: true, path: member, data: None, downloaded: false }
}

impl AssetStoreView {
    /// The store after a load was finished with what was read for it, and
    /// how the load ends. An archive is one that the archive cache reads
    /// itself.
    pub open spec fn finished(self, step: LoadStepView, content: Option<Seq<u8>>) -> (
        Self,
        Result<(), AssetError>,
    ) {
        match step {
            LoadStepView::Stopped => (self, Ok(())),
            LoadStepView::Registered => (self, Ok(())),
            LoadStepView::ReadFile { path } => match content {
                None => (self, Err(AssetError::NotFound)),
                Some(bytes) => (
                    AssetStoreView { files: self.files.push(file_asset(path, bytes)), ..self },
                    Ok(()),
                ),
            },
            LoadStepView::ReadArchive { archive, member } => match content {
                None => (self, Err(AssetError::ArchiveOpenFailure)),
                Some(bytes) => match unpacked(bytes, Some(seq![member])) {
                    Err(e) => (self, Err(e)),
                    Ok(records) => (
                        AssetStoreView {
                            cache: DecompressionManagerView {
                                records: self.cache.records + records,
                                ..self.cache
                            },
                            files: self.files.push(member_asset(member)),
                            ..self
                        },
                        Ok(()),
                    ),
                },
            },
        }
    }

    /// What an accessor by reference points at for `name`: the bytes of the
    /// record that the archive cache holds under the name, or else those of
    /// the loaded asset that the name stands for.
    pub open spec fn pointed(self, name: Seq<char>, reloaded: Option<Seq<u8>>) -> (
        Self,
        Option<Option<Seq<u8>>>,
    ) {
        if self.cache.holds(name) {
            (
                AssetStoreView { cache: self.cache.accessed(name, reloaded).0, ..self },
                Some(self.cache.accessed(name, reloaded).1),
            )
        } else {
            (
                self,
                match self.located(name) {
                    Some(k) => Some(self.files[k].data),
                    None => None,
                },
            )
        }
    }

    /// The store with `bytes` in the place that an accessor points at for
    /// `name`.
    pub open spec fn assigned(self, name: Seq<char>, bytes: Option<Seq<u8>>) -> Self {
        if self.cache.holds(name) {
            AssetStoreView {
                cache: self.cache.with_record(
                    name,
                    CachedFileView { data: bytes, ..self.cache.record(name) },
                ),
                ..self
            }
        } else {
            match self.located(name) {
                Some(k) => AssetStoreView {
                    files: self.files.update(k, FileView { data: bytes, ..self.files[k] }),
                    ..self
                },
                None => self,
            }
        }
    }

    /// What saving `name` writes: the bytes of the first loaded asset of
    /// that file name.
    pub open spec fn saved(self, name: Seq<char>) -> Option<(Seq<char>, Seq<u8>)> {
        let k = first_position(file_names_of(self.files), name);
        if k < self.files.len() {
            self.files[k].saved()
        } else {
            None
        }
    }
}

/// A load that a hook ended touches nothing: its step asks for no read, and
/// finishing it leaves the store as it is, whatever is handed in.
pub proof fn stopped_load_reads_nothing(
    store: AssetStoreView,
    path: Option<Seq<char>>,
    failure: AssetError,
    content: Option<Seq<u8>>,
)
    ensures
        plan(false, path, failure, store.formats) == Ok::<LoadStepView, AssetError>(
            LoadStepView::Stopped,
        ),
        store.finished(LoadStepView::Stopped, content) == (store, Ok::<(), AssetError>(())),
{
}

/// Unloading an asset that came out of an archive, to be kept on disk,
/// leaves it registered without bytes, and demoting its member then moves
/// the member's bytes to its cache file: every loaded asset and every record
/// stays, the record has its place in the on-disk cache and no bytes, and
/// what is handed out to be written there are the bytes it had.
///
/// This holds for a member that is in memory and has no cache file yet, and
/// where a free name is found for it.
pub proof fn unload_then_persist(store: AssetStoreView, name: Seq<char>, taken: Seq<Seq<char>>)
    requires
        from_archive_at(store.files, name),
        store.cache.holds(name),
        store.cache.record(name).data is Some,
        store.cache.record(name).cache is None,
        free_attempt(store.cache.cache_target(name), taken, 0, MAX_CACHE_PREFIX as nat) is Some,
    ensures
        ({
            let unloaded = store.unloaded(name, true);
            let demoted = unloaded.0.cache.demoted(name, taken);
            let place = candidate(
                store.cache.cache_target(name),
                free_attempt(
                    store.cache.cache_target(name),
                    taken,
                    0,
                    MAX_CACHE_PREFIX as nat,
                )->Some_0,
            );
            &&& unloaded.1 == Some(name)
            &&& unloaded.0.files == released(store.files, name)
            &&& unloaded.0.files.len() == store.files.len()
            &&& unloaded.0.cache == store.cache
            &&& demoted.1 == Ok::<Option<(Seq<char>, Seq<u8>)>, AssetError>(
                Some((place, store.cache.record(name).data->Some_0)),
            )
            &&& demoted.0.records.len() == store.cache.records.len()
            &&& demoted.0.record(name) == (CachedFileView {
                cache: Some(place),
                data: None,
                ..store.cache.record(name)
            })
            &&& forall|i: int|
                0 <= i < store.cache.records.len() && i != store.cache.position(name)
                    ==> #[trigger] demoted.0.records[i] == store.cache.records[i]
        }),
{
    let record = store.cache.record(name);
    let target = store.cache.cache_target(name);
    let placed_record = placed(record, target, taken)->Ok_0;
    lemma_first_position(origins(store.cache.records), name);
    assert(origins(store.cache.records)[store.cache.position(name)] == record.origin);
    lemma_position_kept(store.cache, name, demotion(placed_record).0);
}

/// Replacing a loaded asset replaces its view.
pub proof fn lemma_files_update(files: Seq<File>, k: int, file: File)
    requires
        0 <= k < files.len(),
    ensures
        files_of(files.update(k, file)) == files_of(files).update(k, file@),
{
    assert(files_of(files.update(k, file)) =~= files_of(files).update(k, file@));
}

} // verus!
