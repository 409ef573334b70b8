//! The extension chain: hooks that observe or take over the steps of the
//! asset manager.
use crate::decompression_manager::DecompressionManager;
use crate::store::AssetStore;
use vstd::prelude::*;

verus! {

/// Where the asking of a chain of hooks stands.
#[derive(Debug, Clone, Copy, PartialEq, Eq, Structural)]
pub enum Asking {
    /// The hook at this position is asked next.
    Hook(usize),
    /// A hook said no: the step ends here, and no hook behind it is asked.
    Stopped,
    /// Every hook let the step go on.
    Passed,
}

/// Where the asking stands once the hooks in front of `position` were asked
/// and the last of them answered `go_on`: a hook that said no ends it; else
/// the hook at `position` is next, or, behind the last of the `count` hooks,
/// the step goes on.
pub open spec fn asking_at(position: int, count: int, go_on: bool) -> Asking {
    if !go_on {
        Asking::Stopped
    } else if position < count {
        Asking::Hook(position as usize)
    } else {
        Asking::Passed
    }
}

/// How many hooks may still be asked from `asking` on.
pub open spec fn left_to_ask(asking: Asking, count: int) -> int {
    match asking {
        Asking::Hook(position) => count - position,
        _ => 0,
    }
}

/// Decides where the asking stands once the hooks in front of `position`
/// were asked and the last of them answered `go_on`. The asking starts with
/// `position` 0 and nothing against going on.
pub fn ask_next(position: usize, count: usize, go_on: bool) -> (asking: Asking)
    ensures
        asking == asking_at(position as int, count as int, go_on),
{
    if !go_on {
        Asking::Stopped
    } else if position < count {
        Asking::Hook(position)
    } else {
        Asking::Passed
    }
}

/// A hook into the asset manager.
///
/// The hooks of a manager are asked in the order in which they were added.
/// `on_load`, `on_unload` and `on_remove` say whether the step goes on: the
/// first hook that returns `false` ends it, and neither the later hooks nor
/// the manager's own handling run. A hook may rewrite what it is handed and
/// change the store as it sees fit.
#[allow(unused_variables)]
pub trait ProcessPass {
    /// The name under which the hook can be removed again. A hook that does
    /// not name itself goes by `DefaultProcessPassName`.
    fn get_name(&mut self) -> (name: String)
        default_ensures
            name@ == "DefaultProcessPassName"@,
    {
        "DefaultProcessPassName".to_owned()
    }

    /// Called when a file is loaded, with the path that its name resolved to.
    /// A hook that does not step in lets the load go on and touches nothing.
    fn on_load(&mut self, store: &mut AssetStore, path: &mut Option<String>) -> (go: bool)
        default_ensures
            go,
            *final(store) == *old(store),
            *final(path) == *old(path),
    {
        true
    }

    /// Called when a file is unloaded, with its path and whether an
    /// archive member is to be kept in the on-disk cache. A hook that does
    /// not step in lets the unload go on and touches nothing.
    fn on_unload(&mut self, store: &mut AssetStore, path: &mut String, persist: &mut bool) -> (go:
        bool)
        default_ensures
            go,
            *final(store) == *old(store),
            *final(path) == *old(path),
            *final(persist) == *old(persist),
    {
        true
    }

    /// Called when a file is removed. A hook that does not step in lets the
    /// removal go on and touches nothing.
    fn on_remove(&mut self, store: &mut AssetStore, path: &mut String) -> (go: bool)
        default_ensures
            go,
            *final(store) == *old(store),
            *final(path) == *old(path),
    {
        true
    }

    /// Called for an archive whose extension the archive cache does not read
    /// itself, so that the hook may fill the cache from it. A hook that does
    /// not step in leaves the cache as it is.
    fn on_archive(&mut self, cache: &mut DecompressionManager, extension: &str, archive: &str)
        default_ensures
            *final(cache) == *old(cache),
    {
    }
}

} // verus!
