//! The asset manager: loads, unloads and hands out assets by logical name,
//! and asks its hooks before it does.
use crate::decompression_manager::{DecompressionManager, DecompressionManagerView};
use crate::disk::{opt_write, FileWrite};
use crate::downloader::{remote, Downloader};
use crate::error::AssetError;
use crate::index::{path_verdicts, Index, IndexView};
use crate::pattern::{marked, pattern_valid};
use crate::process_pass::{ask_next, left_to_ask, Asking, ProcessPass};
use crate::store::{
    file_names_of, files_of, lemma_files_update, member_asset, paths_of, plan, plan_load, planned,
    AssetStore, AssetStoreView, LoadStep, LoadStepView,
};
use crate::text::{basename, first_position, lemma_first_position, opt_bytes, opt_text, texts};
use crate::unpack::names_of;
use vstd::prelude::*;

verus! {

/// One loaded asset.
#[derive(Debug)]
pub struct File {
    pub from_archive: bool,
    pub path: String,
    pub data: Option<Vec<u8>>,
    pub downloaded: bool,
}

/// A loaded asset as contracts see it.
pub struct FileView {
    pub from_archive: bool,
    pub path: Seq<char>,
    pub data: Option<Seq<u8>>,
    pub downloaded: bool,
}

impl View for File {
    type V = FileView;

    open spec fn view(&self) -> FileView {
        FileView {
            from_archive: self.from_archive,
            path: self.path@,
            data: opt_bytes(self.data),
            downloaded: self.downloaded,
        }
    }
}

impl Default for File {
    fn default() -> (file: File)
        ensures
            file@ == (FileView {
                from_archive: false,
                path: Seq::empty(),
                data: None,
                downloaded: false,
            }),
    {
        File { from_archive: false, path: String::new(), data: None, downloaded: false }
    }
}

impl FileView {
    /// What saving the asset writes: its bytes to its path, unless it was
    /// downloaded or has no bytes in memory.
    pub open spec fn saved(self) -> Option<(Seq<char>, Seq<u8>)> {
        match self.data {
            Some(bytes) => if self.downloaded {
                None
            } else {
                Some((self.path, bytes))
            },
            None => None,
        }
    }
}

impl File {
    /// Takes in the content of the asset's file. `content` is what was read
    /// at the asset's path, `None` where no file is there.
    pub fn load(&mut self, content: Option<Vec<u8>>) -> (r: Result<(), AssetError>)
        ensures
            match content {
                Some(bytes) => r is Ok && final(self)@ == (FileView {
                    data: Some(bytes@),
                    ..old(self)@
                }),
                None => r == Err::<(), AssetError>(AssetError::NotFound) && final(self)@ == old(
                    self,
                )@,
            },
    {
        match content {
            Some(bytes) => {
                self.data = Some(bytes);
                Ok(())
            },
            None => Err(AssetError::NotFound),
        }
    }

    /// What is to be written so that the asset's file holds its bytes. A
    /// downloaded asset is never written back, and an asset without bytes in
    /// memory leaves its file as it is.
    pub fn save(&self) -> (r: Option<FileWrite>)
        ensures
            opt_write(r) == self@.saved(),
    {
        if self.downloaded {
            return None;
        }
        match &self.data {
            Some(bytes) => {
                let data = bytes.clone();
                proof {
                    assert(data@ =~= bytes@);
                }
                Some(FileWrite { path: self.path.clone(), data })
            },
            None => None,
        }
    }
}

/// The asset manager: the store, and the hooks that are asked before the
/// store is touched.
pub struct AssetsManager {
    pub store: AssetStore,
    pub extension_list: Vec<Box<dyn ProcessPass>>,
}

/// `list` without the hooks that `names`, which holds a name for each of
/// them, calls `name`.
pub open spec fn hooks_kept(
    list: Seq<Box<dyn ProcessPass>>,
    names: Seq<Seq<char>>,
    name: Seq<char>,
) -> Seq<Box<dyn ProcessPass>>
    decreases names.len(),
{
    if names.len() == 0 {
        list
    } else {
        let k = names.len() - 1;
        hooks_kept(
            if names[k] == name {
                list.remove(k)
            } else {
                list
            },
            names.drop_last(),
            name,
        )
    }
}

/// Removes from `list` the hooks that `names`, which holds a name for each
/// of them, calls `name`.
pub fn remove_named(list: &mut Vec<Box<dyn ProcessPass>>, names: &Vec<String>, name: &str)
    requires
        names@.len() == old(list)@.len(),
    ensures
        final(list)@ == hooks_kept(old(list)@, texts(names@), name@),
{
    let mut k: usize = names.len();
    proof {
        assert(texts(names@).take(k as int) == texts(names@));
    }
    while k > 0
        invariant
            k <= names@.len(),
            k <= list@.len(),
            hooks_kept(list@, texts(names@).take(k as int), name@) == hooks_kept(
                old(list)@,
                texts(names@),
                name@,
            ),
        decreases k,
    {
        proof {
            let upto = texts(names@).take(k as int);
            assert(upto.drop_last() == texts(names@).take(k - 1));
            assert(upto[k - 1] == names@[k - 1]@);
        }
        k -= 1;
        if *names[k].as_str() == *name {
            list.remove(k);
        }
    }
}

impl Default for AssetsManager {
    fn default() -> (manager: AssetsManager)
        ensures
            manager.extension_list@.len() == 0,
            manager.store@.files.len() == 0,
            manager.store@.formats == seq!["zip"@],
            manager.store@.index == Index::assemble_spec("./"@, ""@),
            manager.store@.cache == (DecompressionManagerView {
                cache_location: Seq::empty(),
                records: Seq::empty(),
            }),
    {
        AssetsManager::new(Index::assemble("./", ""), DecompressionManager::default())
    }
}

impl AssetsManager {
    /// A manager over `index` and `cache`, with no asset loaded, no hook,
    /// and `zip` as the one extension at which a path enters an archive.
    pub fn new(index: Index, cache: DecompressionManager) -> (manager: AssetsManager)
        ensures
            manager.extension_list@.len() == 0,
            manager.store@ == (AssetStoreView {
                index: index@,
                cache: cache@,
                files: Seq::empty(),
                formats: seq!["zip"@],
            }),
    {
        let mut formats: Vec<String> = Vec::new();
        formats.push("zip".to_owned());
        let manager = AssetsManager {
            store: AssetStore {
                index,
                cache,
                files: Vec::new(),
                compression_formats: formats,
                downloader: Downloader::new(),
            },
            extension_list: Vec::new(),
        };
        proof {
            assert(manager.store@.files =~= Seq::empty());
            assert(manager.store@.formats =~= seq!["zip"@]);
        }
        manager
    }

    /// Keeps the catalog in step with a file that was moved: the entry that
    /// `origin` resolves to leaves it, and `target` enters it unless a file
    /// was at `target` already. Hands back the path that `origin` resolves
    /// to, which is the file that was moved.
    pub fn move_file(&mut self, origin: &str, target: &str, target_exists: bool) -> (r: Result<
        String,
        AssetError,
    >)
        ensures
            final(self).extension_list == old(self).extension_list,
            match old(self).store@.index.resolution(origin@) {
                Ok(from) => r matches Ok(path) && path@ == from && final(self).store@ == (
                AssetStoreView {
                    index: if target_exists {
                        old(self).store@.index.without_file(from)
                    } else {
                        IndexView {
                            entries: old(self).store@.index.without_file(from).entries.push(
                                target@,
                            ),
                            ..old(self).store@.index
                        }
                    },
                    ..old(self).store@
                }),
                Err(e) => r matches Err(x) && x == e && final(self).store@ == old(self).store@,
            },
    {
        let from = self.store.index.resolve(origin)?;
        self.store.index.remove_indexed_file(from.as_str());
        if !target_exists {
            self.store.index.add_file(target.to_owned());
        }
        Ok(from)
    }

    /// Keeps the catalog in step with a file that was deleted: the entry
    /// that `origin` resolves to leaves it. Hands back the path that
    /// `origin` resolves to, which is the file that was deleted.
    pub fn remove_file(&mut self, origin: &str) -> (r: Result<String, AssetError>)
        ensures
            final(self).extension_list == old(self).extension_list,
            match old(self).store@.index.resolution(origin@) {
                Ok(from) => r matches Ok(path) && path@ == from && final(self).store@ == (
                AssetStoreView {
                    index: old(self).store@.index.without_file(from),
                    ..old(self).store@
                }),
                Err(e) => r matches Err(x) && x == e && final(self).store@ == old(self).store@,
            },
    {
        let from = self.store.index.resolve(origin)?;
        self.store.index.remove_indexed_file(from.as_str());
        Ok(from)
    }

    /// Keeps the catalog in step with a file that was copied: `target`
    /// enters it. Hands back the path that `origin` resolves to, which is
    /// the file that was copied.
    pub fn copy_file(&mut self, origin: &str, target: &str) -> (r: Result<String, AssetError>)
        ensures
            final(self).extension_list == old(self).extension_list,
            match old(self).store@.index.resolution(origin@) {
                Ok(from) => r matches Ok(path) && path@ == from && final(self).store@ == (
                AssetStoreView {
                    index: IndexView {
                        entries: old(self).store@.index.entries.push(target@),
                        ..old(self).store@.index
                    },
                    ..old(self).store@
                }),
                Err(e) => r matches Err(x) && x == e && final(self).store@ == old(self).store@,
            },
    {
        let from = self.store.index.resolve(origin)?;
        self.store.index.add_file(target.to_owned());
        Ok(from)
    }

    /// Keeps the catalog in step with a file that was created: `path`
    /// enters it.
    pub fn create_file(&mut self, path: &str)
        ensures
            final(self).extension_list == old(self).extension_list,
            final(self).store@ == (AssetStoreView {
                index: IndexView {
                    entries: old(self).store@.index.entries.push(path@),
                    ..old(self).store@.index
                },
                ..old(self).store@
            }),
    {
        self.store.index.add_file(path.to_owned());
    }

    /// Asks each hook for its name, in order.
    pub fn hook_names(&mut self) -> (names: Vec<String>)
        ensures
            names@.len() == old(self).extension_list@.len(),
            final(self).extension_list@.len() == old(self).extension_list@.len(),
            final(self).store == old(self).store,
    {
        let mut names: Vec<String> = Vec::new();
        let mut i: usize = 0;
        while i < self.extension_list.len()
            invariant
                i <= self.extension_list@.len(),
                names@.len() == i,
                self.extension_list@.len() == old(self).extension_list@.len(),
                self.store == old(self).store,
            decreases self.extension_list.len() - i,
        {
            let name = self.extension_list[i].get_name();
            names.push(name);
            i += 1;
        }
        names
    }

    /// Removes the hooks that call themselves `name`: each hook is asked
    /// for its name, in order, and those that answer `name` leave the list.
    pub fn remove_process_pass(&mut self, name: &str)
        ensures
            final(self).store == old(self).store,
            final(self).extension_list@.len() <= old(self).extension_list@.len(),
    {
        let names = self.hook_names();
        let ghost asked = self.extension_list@;
        remove_named(&mut self.extension_list, &names, name);
        proof {
            lemma_hooks_kept_len(asked, texts(names@), name@);
        }
    }

    /// Asks the hooks, in order, whether a load of `path` goes on. The
    /// first that says no ends the asking.
    pub fn run_load_hooks(&mut self, path: &mut Option<String>) -> (go: bool)
        ensures
            final(self).extension_list@.len() == old(self).extension_list@.len(),
            old(self).extension_list@.len() == 0 ==> go && *final(path) == *old(path)
                && final(self).store == old(self).store,
    {
        let count = self.extension_list.len();
        let mut asking = ask_next(0, count, true);
        loop
            invariant
                count == self.extension_list@.len(),
                self.extension_list@.len() == old(self).extension_list@.len(),
                asking matches Asking::Hook(position) ==> position < count,
                count == 0 ==> asking == Asking::Passed && *path == *old(path) && self.store
                    == old(self).store,
            decreases left_to_ask(asking, count as int),
        {
            match asking {
                Asking::Hook(position) => {
                    let go_on = self.extension_list[position].on_load(&mut self.store, path);
                    asking = ask_next(position + 1, count, go_on);
                },
                Asking::Stopped => {
                    return false;
                },
                Asking::Passed => {
                    return true;
                },
            }
        }
    }

    /// Asks the hooks, in order, whether an unload goes on.
    pub fn run_unload_hooks(&mut self, path: &mut String, persist: &mut bool) -> (go: bool)
        ensures
            final(self).extension_list@.len() == old(self).extension_list@.len(),
            old(self).extension_list@.len() == 0 ==> go && *final(path) == *old(path)
                && *final(persist) == *old(persist) && final(self).store == old(self).store,
    {
        let count = self.extension_list.len();
        let mut asking = ask_next(0, count, true);
        loop
            invariant
                count == self.extension_list@.len(),
                self.extension_list@.len() == old(self).extension_list@.len(),
                asking matches Asking::Hook(position) ==> position < count,
                count == 0 ==> asking == Asking::Passed && *path == *old(path) && *persist == *old(
                    persist,
                ) && self.store == old(self).store,
            decreases left_to_ask(asking, count as int),
        {
            match asking {
                Asking::Hook(position) => {
                    let go_on = self.extension_list[position].on_unload(
                        &mut self.store,
                        path,
                        persist,
                    );
                    asking = ask_next(position + 1, count, go_on);
                },
                Asking::Stopped => {
                    return false;
                },
                Asking::Passed => {
                    return true;
                },
            }
        }
    }

    /// Asks the hooks, in order, whether a removal goes on.
    pub fn run_remove_hooks(&mut self, path: &mut String) -> (go: bool)
        ensures
            final(self).extension_list@.len() == old(self).extension_list@.len(),
            old(self).extension_list@.len() == 0 ==> go && *final(path) == *old(path)
                && final(self).store == old(self).store,
    {
        let count = self.extension_list.len();
        let mut asking = ask_next(0, count, true);
        loop
            invariant
                count == self.extension_list@.len(),
                self.extension_list@.len() == old(self).extension_list@.len(),
                asking matches Asking::Hook(position) ==> position < count,
                count == 0 ==> asking == Asking::Passed && *path == *old(path) && self.store
                    == old(self).store,
            decreases left_to_ask(asking, count as int),
        {
            match asking {
                Asking::Hook(position) => {
                    let go_on = self.extension_list[position].on_remove(&mut self.store, path);
                    asking = ask_next(position + 1, count, go_on);
                },
                Asking::Stopped => {
                    return false;
                },
                Asking::Passed => {
                    return true;
                },
            }
        }
    }

    /// Starts the load of `base_path` and says what is to be read for it.
    ///
    /// A name on the web is registered with the bytes `fetched` for it,
    /// where there are any. Any other name, and a name on the web that could
    /// not be fetched, is resolved by the catalog, unless it is a full path;
    /// the hooks are asked, and may end the load or rewrite the path; what is
    /// left is split where it enters an archive.
    pub fn load(&mut self, base_path: &str, fetched: Option<Vec<u8>>) -> (r: Result<
        LoadStep,
        AssetError,
    >)
        ensures
            final(self).extension_list@.len() == old(self).extension_list@.len(),
            remote(base_path@) && fetched is Some ==> planned(r) == Ok::<LoadStepView, AssetError>(
                LoadStepView::Registered,
            ) && final(self).store@ == old(self).store@.with_download(
                base_path@,
                fetched.unwrap()@,
            ) && final(self).extension_list == old(self).extension_list,
            !(remote(base_path@) && fetched is Some) ==> {
                &&& old(self).extension_list@.len() == 0 ==> final(self).store@ == old(
                    self,
                ).store@ && planned(r) == plan(
                    true,
                    old(self).store@.load_target(base_path@),
                    old(self).store@.load_failure(base_path@),
                    old(self).store@.formats,
                )
                &&& exists|go: bool, path: Option<Seq<char>>| #[trigger]
                    plan(
                        go,
                        path,
                        old(self).store@.load_failure(base_path@),
                        final(self).store@.formats,
                    ) == planned(r)
            },
    {
        if self.store.downloader.is_remote(base_path) {
            match fetched {
                Some(content) => {
                    self.store.register_download(base_path, content);
                    return Ok(LoadStep::Registered);
                },
                None => {},
            }
        }
        let (target, failure) = self.store.load_target(base_path);
        let mut path = target;
        let go = self.run_load_hooks(&mut path);
        let ghost left = opt_text(path);
        let r = plan_load(go, path, failure, &self.store.compression_formats);
        proof {
            assert(plan(go, left, failure, self.store@.formats) == planned(r));
        }
        r
    }

    /// Finishes a load with what was read for its step.
    ///
    /// `content` is what was read at the path of the step: the file's
    /// bytes, or the archive's, and `None` where nothing is there. A file
    /// becomes a loaded asset. A member of an archive is taken into the
    /// archive cache and becomes a loaded asset whose bytes are kept there;
    /// an archive that does not hold the member adds nothing. An archive
    /// that the archive cache does not read itself is left to the hooks,
    /// which are handed the cache alone; the member becomes a loaded asset
    /// whatever they do.
    pub fn finish_load(&mut self, step: LoadStep, content: Option<Vec<u8>>) -> (r: Result<
        (),
        AssetError,
    >)
        ensures
            final(self).extension_list@.len() == old(self).extension_list@.len(),
            !step@.is_foreign() ==> {
                &&& final(self).extension_list == old(self).extension_list
                &&& final(self).store@ == old(self).store@.finished(step@, opt_bytes(content)).0
                &&& r == old(self).store@.finished(step@, opt_bytes(content)).1
            },
            step@.is_foreign() ==> {
                &&& r is Ok
                &&& final(self).store@.files == old(self).store@.files.push(
                    member_asset(step@->member),
                )
                &&& final(self).store@.index == old(self).store@.index
                &&& final(self).store@.formats == old(self).store@.formats
                &&& old(self).extension_list@.len() == 0 ==> final(self).store@.cache == old(
                    self,
                ).store@.cache
            },
    {
        match step {
            LoadStep::Stopped => Ok(()),
            LoadStep::Registered => Ok(()),
            LoadStep::ReadFile { path } => {
                let mut file = File {
                    from_archive: false,
                    path,
                    data: None,
                    downloaded: false,
                };
                file.load(content)?;
                self.store.files.push(file);
                proof {
                    assert(self.store@.files =~= old(self).store@.files.push(file@));
                }
                Ok(())
            },
            LoadStep::ReadArchive { archive, member } => {
                let native = DecompressionManager::is_native(archive.as_str());
                let bytes = match content {
                    Some(bytes) => bytes,
                    None => {
                        if native {
                            return Err(AssetError::ArchiveOpenFailure);
                        }
                        Vec::new()
                    },
                };
                let mut selection: Vec<&str> = Vec::new();
                selection.push(member.as_str());
                proof {
                    assert(names_of(selection@) =~= seq![member@]);
                }
                self.store.cache.load_archive(
                    archive.as_str(),
                    bytes,
                    Some(selection),
                    &mut self.extension_list,
                )?;
                let file = File { from_archive: true, path: member, data: None, downloaded: false };
                self.store.files.push(file);
                proof {
                    assert(self.store@.files =~= old(self).store@.files.push(file@));
                }
                Ok(())
            },
        }
    }

    /// Unloads the assets at `path`, unless a hook ends the unload: their
    /// bytes are dropped, their records stay. Hands back the member that is
    /// then to be demoted in the archive cache: that of an asset that came
    /// out of an archive, where `cache_decompressed` asks for it.
    pub fn unload(&mut self, path: &str, cache_decompressed: bool) -> (r: Option<String>)
        ensures
            final(self).extension_list@.len() == old(self).extension_list@.len(),
            old(self).extension_list@.len() == 0 ==> final(self).store@ == old(
                self,
            ).store@.unloaded(path@, cache_decompressed).0 && opt_text(r) == old(
                self,
            ).store@.unloaded(path@, cache_decompressed).1,
            r is None || exists|store: AssetStoreView, at: Seq<char>| #[trigger]
                store.unloaded(at, true) == (final(self).store@, opt_text(r)),
    {
        let mut at = path.to_owned();
        let mut persist = cache_decompressed;
        if !self.run_unload_hooks(&mut at, &mut persist) {
            return None;
        }
        let ghost store = self.store@;
        let r = self.store.unload_files(at.as_str(), persist);
        proof {
            if r is Some {
                assert(store.unloaded(at@, true) == (self.store@, opt_text(r)));
            }
        }
        r
    }

    /// Removes the assets at `path`, unless a hook ends the removal. Where
    /// one of them came out of an archive, its records leave the archive
    /// cache too. Hands back the cache files that belonged to them: they are
    /// to be deleted.
    pub fn remove(&mut self, path: &str) -> (orphans: Vec<String>)
        ensures
            final(self).extension_list@.len() == old(self).extension_list@.len(),
            old(self).extension_list@.len() == 0 ==> final(self).store@ == old(
                self,
            ).store@.removed(path@).0 && texts(orphans@) == old(self).store@.removed(path@).1,
            orphans@.len() == 0 || exists|store: AssetStoreView, at: Seq<char>| #[trigger]
                store.removed(at) == (final(self).store@, texts(orphans@)),
    {
        let mut at = path.to_owned();
        if !self.run_remove_hooks(&mut at) {
            return Vec::new();
        }
        let ghost store = self.store@;
        let orphans = self.store.remove_files(at.as_str());
        proof {
            assert(store.removed(at@) == (self.store@, texts(orphans@)));
        }
        orphans
    }

    /// The position of the first loaded asset whose file name is `filename`.
    pub fn find_file_index(&self, filename: &str) -> (r: Option<usize>)
        ensures
            match r {
                Some(k) => k < self.store@.files.len() && k == first_position(
                    file_names_of(self.store@.files),
                    filename@,
                ),
                None => first_position(file_names_of(self.store@.files), filename@)
                    == self.store@.files.len(),
            },
    {
        let k = self.store.find_by_name(filename);
        if k < self.store.files.len() {
            Some(k)
        } else {
            None
        }
    }

    /// The position of the first loaded asset whose path is `path`.
    pub fn find_file_index_using_full_path(&self, path: &str) -> (r: Option<usize>)
        ensures
            match r {
                Some(k) => k < self.store@.files.len() && k == first_position(
                    paths_of(self.store@.files),
                    path@,
                ),
                None => first_position(paths_of(self.store@.files), path@)
                    == self.store@.files.len(),
            },
    {
        let k = self.store.find_by_path(path);
        if k < self.store.files.len() {
            Some(k)
        } else {
            None
        }
    }

    /// A copy of the bytes of `path`: those that the archive cache gives for
    /// it, or else those of the loaded asset that it stands for.
    ///
    /// `reloaded` holds what was read back from the cache file of a demoted
    /// member, which the archive cache names with `reload_path`.
    pub fn get(&mut self, path: &str, reloaded: Option<Vec<u8>>) -> (r: Option<Vec<u8>>)
        ensures
            final(self).extension_list == old(self).extension_list,
            final(self).store@ == old(self).store@.got(path@, opt_bytes(reloaded)).0,
            opt_bytes(r) == old(self).store@.got(path@, opt_bytes(reloaded)).1,
    {
        match self.store.cache.get_data(path, reloaded) {
            Some(bytes) => Some(bytes),
            None => match self.store.locate(path) {
                Some(k) => match &self.store.files[k].data {
                    Some(bytes) => {
                        let copy = bytes.clone();
                        proof {
                            assert(copy@ =~= bytes@);
                        }
                        Some(copy)
                    },
                    None => None,
                },
                None => None,
            },
        }
    }

    /// The bytes of `path`: those of the record that the archive cache
    /// holds under it, or else those of the loaded asset that it stands for.
    pub fn get_ref(&mut self, path: &str, reloaded: Option<Vec<u8>>) -> (r: Option<
        &Option<Vec<u8>>,
    >)
        ensures
            final(self).extension_list == old(self).extension_list,
            final(self).store@ == old(self).store@.pointed(path@, opt_bytes(reloaded)).0,
            match r {
                Some(data) => old(self).store@.pointed(path@, opt_bytes(reloaded)).1 == Some(
                    opt_bytes(*data),
                ),
                None => old(self).store@.pointed(path@, opt_bytes(reloaded)).1 is None,
            },
    {
        if self.store.cache.find(path) < self.store.cache.files.len() {
            return self.store.cache.get_data_ref(path, reloaded);
        }
        match self.store.locate(path) {
            Some(k) => Some(&self.store.files[k].data),
            None => None,
        }
    }

    /// The bytes of `path`, to be changed in place: those of the record
    /// that the archive cache holds under it, or else those of the loaded
    /// asset that it stands for.
    pub fn get_mut(&mut self, path: &str, reloaded: Option<Vec<u8>>) -> (r: Option<
        &mut Option<Vec<u8>>,
    >)
        ensures
            final(self).extension_list == old(self).extension_list,
            match r {
                Some(data) => old(self).store@.pointed(path@, opt_bytes(reloaded)).1 == Some(
                    opt_bytes(*data),
                ) && final(self).store@ =~~= old(self).store@.assigned(
                    path@,
                    opt_bytes(*final(data)),
                ),
                None => old(self).store@.pointed(path@, opt_bytes(reloaded)).1 is None
                    && final(self).store@ == old(self).store@,
            },
    {
        if self.store.cache.find(path) < self.store.cache.files.len() {
            return self.store.cache.get_data_mut(path, reloaded);
        }
        match self.store.locate(path) {
            Some(k) => {
                proof {
                    assert forall|file: File| #[trigger]
                        files_of(self.store.files@.update(k as int, file)) == files_of(
                            self.store.files@,
                        ).update(k as int, file@) by {
                        lemma_files_update(self.store.files@, k as int, file);
                    }
                }
                Some(&mut self.store.files[k].data)
            },
            None => None,
        }
    }

    /// Gives `path` new bytes: they take the place of those that `get_mut`
    /// points at. A name that stands for nothing is left alone.
    pub fn set_data(&mut self, path: &str, new_data: Vec<u8>)
        ensures
            final(self).extension_list == old(self).extension_list,
            final(self).store@ == if old(self).store@.pointed(path@, None).1 is Some {
                old(self).store@.assigned(path@, Some(new_data@))
            } else {
                old(self).store@
            },
    {
        match self.get_mut(path, None) {
            Some(data) => {
                *data = Some(new_data);
            },
            None => {},
        }
    }

    /// Whether `filename` is the file name of a loaded asset, or known to
    /// the catalog.
    pub fn have_file(&self, filename: &str) -> (r: bool)
        ensures
            r == self.store@.has(filename@),
    {
        let k = self.store.find_by_name(filename);
        proof {
            lemma_first_position(file_names_of(self.store@.files), filename@);
        }
        if k < self.store.files.len() {
            assert(basename(self.store@.files[k as int].path) == filename@);
            return true;
        }
        assert(forall|i: int|
            0 <= i < self.store@.files.len() ==> #[trigger] file_names_of(self.store@.files)[i]
                != filename@);
        let r = self.store.index.have_file(filename);
        proof {
            if exists|i: int|
                0 <= i < self.store@.files.len() && basename(
                    (#[trigger] self.store@.files[i]).path,
                ) == filename@ {
                let i = choose|i: int|
                    0 <= i < self.store@.files.len() && basename(
                        (#[trigger] self.store@.files[i]).path,
                    ) == filename@;
                assert(file_names_of(self.store@.files)[i] == filename@);
            }
        }
        r
    }

    /// What is to be written so that the file of the first loaded asset
    /// called `filename` holds its bytes.
    pub fn save(&self, filename: &str) -> (r: Option<FileWrite>)
        ensures
            opt_write(r) == self.store@.saved(filename@),
    {
        let k = self.store.find_by_name(filename);
        if k < self.store.files.len() {
            self.store.files[k].save()
        } else {
            None
        }
    }

    /// The entries of the catalog whose path the regular expression `regex`
    /// matches.
    pub fn get_files_matching_regex(&self, regex: &str) -> (r: Result<Vec<String>, AssetError>)
        ensures
            match r {
                Ok(hits) => pattern_valid(regex@) && texts(hits@) == marked(
                    self.store@.index.entries,
                    path_verdicts(regex@, self.store@.index.entries),
                ),
                Err(e) => !pattern_valid(regex@) && e == AssetError::Configuration,
            },
    {
        self.store.index.regex_search(regex)
    }

    /// Adds an extension at which a path enters an archive.
    pub fn add_compression_formats(&mut self, format: &str)
        ensures
            final(self).extension_list == old(self).extension_list,
            final(self).store@ == (AssetStoreView {
                formats: old(self).store@.formats.push(format@),
                ..old(self).store@
            }),
    {
        self.store.compression_formats.push(format.to_owned());
        proof {
            assert(self.store@.formats =~= old(self).store@.formats.push(format@));
        }
    }

    /// Adds a hook behind those that are there.
    pub fn add_extension(&mut self, extension: Box<dyn ProcessPass>)
        ensures
            final(self).store == old(self).store,
            final(self).extension_list@ == old(self).extension_list@.push(extension),
    {
        self.extension_list.push(extension);
    }
}

/// No more hooks are kept than there were.
proof fn lemma_hooks_kept_len(
    list: Seq<Box<dyn ProcessPass>>,
    names: Seq<Seq<char>>,
    name: Seq<char>,
)
    requires
        names.len() <= list.len(),
    ensures
        hooks_kept(list, names, name).len() <= list.len(),
    decreases names.len(),
{
    if names.len() > 0 {
        let k = names.len() - 1;
        let rest = if names[k] == name {
            list.remove(k)
        } else {
            list
        };
        lemma_hooks_kept_len(rest, names.drop_last(), name);
    }
}

} // verus!
