//! What an asset needs besides itself, and what of it is missing.
use crate::document::{document_lists, list_texts, read_lists};
use crate::error::AssetError;
use crate::manager::AssetsManager;
use crate::store::AssetStoreView;
use crate::text::texts;
use vstd::prelude::*;

verus! {

/// The assets that one asset needs.
#[derive(Debug)]
pub struct Dependencie {
    /// The asset that has the needs.
    pub source: String,
    /// What it needs.
    pub deps: Vec<String>,
    /// What of that was found missing.
    pub missing_list: Vec<String>,
}

/// The needs of one asset as contracts see them.
pub struct DependencieView {
    pub source: Seq<char>,
    pub deps: Seq<Seq<char>>,
    pub missing: Seq<Seq<char>>,
}

impl View for Dependencie {
    type V = DependencieView;

    open spec fn view(&self) -> DependencieView {
        DependencieView {
            source: self.source@,
            deps: texts(self.deps@),
            missing: texts(self.missing_list@),
        }
    }
}

impl Default for Dependencie {
    fn default() -> (dep: Dependencie)
        ensures
            dep@ == (DependencieView {
                source: Seq::empty(),
                deps: Seq::empty(),
                missing: Seq::empty(),
            }),
    {
        let dep = Dependencie { source: String::new(), deps: Vec::new(), missing_list: Vec::new() };
        proof {
            assert(dep@.deps =~= Seq::empty());
            assert(dep@.missing =~= Seq::empty());
        }
        dep
    }
}

impl Dependencie {
    /// Whether nothing was found missing.
    pub fn is_valid(&self) -> (r: bool)
        ensures
            r == (self@.missing.len() == 0),
    {
        self.missing_list.len() == 0
    }
}

/// The views of a list of dependencies.
pub open spec fn needs_of(deps: Seq<Dependencie>) -> Seq<DependencieView> {
    Seq::new(deps.len(), |i: int| deps[i]@)
}

/// The dependencies that a list of names with their needs stands for.
pub open spec fn fresh(lists: Seq<(Seq<char>, Seq<Seq<char>>)>) -> Seq<DependencieView> {
    Seq::new(
        lists.len(),
        |i: int| DependencieView { source: lists[i].0, deps: lists[i].1, missing: Seq::empty() },
    )
}

/// Those of `names` that the store does not have, in their order.
pub open spec fn lacking(names: Seq<Seq<char>>, store: AssetStoreView) -> Seq<Seq<char>>
    decreases names.len(),
{
    if names.len() == 0 {
        Seq::empty()
    } else {
        let rest = lacking(names.drop_last(), store);
        if store.has(names.last()) {
            rest
        } else {
            rest.push(names.last())
        }
    }
}

/// A dependency after its needs were looked for in the store: what the
/// store does not have is added to what was found missing before.
pub open spec fn checked(dep: DependencieView, store: AssetStoreView) -> DependencieView {
    DependencieView { missing: dep.missing + lacking(dep.deps, store), ..dep }
}

/// The position of the first dependency of `source`; the length where
/// there is none.
pub open spec fn source_position(deps: Seq<DependencieView>, source: Seq<char>) -> int
    decreases deps.len(),
{
    if deps.len() == 0 {
        0
    } else if deps[0].source == source {
        0
    } else {
        1 + source_position(deps.drop_first(), source)
    }
}

/// What was found missing for `source`, over all its dependencies, in
/// their order.
pub open spec fn missing_for(deps: Seq<DependencieView>, source: Seq<char>) -> Seq<Seq<char>>
    decreases deps.len(),
{
    if deps.len() == 0 {
        Seq::empty()
    } else {
        let rest = missing_for(deps.drop_last(), source);
        if deps.last().source == source {
            rest + deps.last().missing
        } else {
            rest
        }
    }
}

/// Keeps the dependencies of assets, and what of them is missing.
#[derive(Debug)]
pub struct DependencieManager {
    pub deps: Vec<Dependencie>,
}

impl View for DependencieManager {
    type V = Seq<DependencieView>;

    open spec fn view(&self) -> Seq<DependencieView> {
        needs_of(self.deps@)
    }
}

impl Default for DependencieManager {
    fn default() -> (manager: DependencieManager)
        ensures
            manager@ == Seq::<DependencieView>::empty(),
    {
        let manager = DependencieManager { deps: Vec::new() };
        proof {
            assert(manager@ =~= Seq::empty());
        }
        manager
    }
}

impl DependencieManager {
    /// A manager that knows of no dependency.
    pub fn new() -> (manager: DependencieManager)
        ensures
            manager@ == Seq::<DependencieView>::empty(),
    {
        let manager = DependencieManager { deps: Vec::new() };
        proof {
            assert(manager@ =~= Seq::empty());
        }
        manager
    }

    /// Takes in a list of assets with their needs, each as a dependency
    /// with nothing missing yet, behind those that are there.
    pub fn add_dependencies(&mut self, lists: Vec<(String, Vec<String>)>)
        ensures
            final(self)@ == old(self)@ + fresh(list_texts(lists@)),
    {
        let ghost all = list_texts(lists@);
        let ghost total = lists@.len();
        proof {
            assert(self@ =~= old(self)@ + fresh(all).take(0));
        }
        for entry in it: lists
            invariant
                it.seq() == lists@,
                all == list_texts(lists@),
                self@ == old(self)@ + fresh(all).take(it.index() as int),
        {
            let ghost before = self@;
            let ghost i = it.index() as int;
            let dep = Dependencie { source: entry.0, deps: entry.1, missing_list: Vec::new() };
            proof {
                assert(dep@.missing =~= Seq::empty());
                assert(dep@ == fresh(all)[i]);
            }
            self.deps.push(dep);
            proof {
                assert(self@ =~= before.push(dep@));
                assert(self@ =~= old(self)@ + fresh(all).take(i + 1));
            }
        }
        proof {
            assert(fresh(all).take(lists@.len() as int) == fresh(all));
        }
    }

    /// Takes in the dependencies of a document: `content` is its text, and
    /// its section `dependencies` maps each asset to the list of what it
    /// needs. A text that is no document, and a need that is no string, are
    /// configuration errors and add nothing.
    pub fn load_file(&mut self, content: &str) -> (r: Result<(), AssetError>)
        ensures
            match document_lists(content@, "dependencies"@) {
                Some(lists) => r is Ok && final(self)@ == old(self)@ + fresh(lists),
                None => r == Err::<(), AssetError>(AssetError::Configuration) && final(self)@
                    == old(self)@,
            },
    {
        match read_lists(content, "dependencies") {
            Some(lists) => {
                self.add_dependencies(lists);
                Ok(())
            },
            None => Err(AssetError::Configuration),
        }
    }

    /// Looks for the needs of every dependency: what the manager does not
    /// have is added to what was found missing.
    pub fn update(&mut self, assets_manager: &AssetsManager)
        ensures
            final(self)@.len() == old(self)@.len(),
            forall|i: int|
                0 <= i < old(self)@.len() ==> #[trigger] final(self)@[i] == checked(
                    old(self)@[i],
                    assets_manager.store@,
                ),
    {
        let mut i: usize = 0;
        while i < self.deps.len()
            invariant
                i <= self.deps@.len(),
                self.deps@.len() == old(self).deps@.len(),
                forall|j: int|
                    0 <= j < i ==> (#[trigger] self.deps@[j])@ == checked(
                        old(self)@[j],
                        assets_manager.store@,
                    ),
                forall|j: int|
                    i <= j < self.deps@.len() ==> (#[trigger] self.deps@[j])@ == old(self)@[j],
            decreases self.deps.len() - i,
        {
            let ghost start = self.deps@[i as int]@;
            let mut k: usize = 0;
            proof {
                assert(start.deps.take(0) =~= Seq::empty());
                assert(start.missing + lacking(start.deps.take(0), assets_manager.store@)
                    =~= start.missing);
            }
            while k < self.deps[i].deps.len()
                invariant
                    i < self.deps@.len(),
                    k <= self.deps@[i as int].deps@.len(),
                    self.deps@.len() == old(self).deps@.len(),
                    self.deps@[i as int]@ == (DependencieView {
                        missing: start.missing + lacking(
                            start.deps.take(k as int),
                            assets_manager.store@,
                        ),
                        ..start
                    }),
                    forall|j: int|
                        0 <= j < i ==> (#[trigger] self.deps@[j])@ == checked(
                            old(self)@[j],
                            assets_manager.store@,
                        ),
                    forall|j: int|
                        i < j < self.deps@.len() ==> (#[trigger] self.deps@[j])@ == old(self)@[j],
                decreases self.deps@[i as int].deps@.len() - k,
            {
                let ghost before = self.deps@;
                proof {
                    let upto = start.deps.take(k + 1);
                    assert(upto.drop_last() == start.deps.take(k as int));
                    assert(upto.last() == self.deps@[i as int].deps@[k as int]@);
                }
                if !assets_manager.have_file(self.deps[i].deps[k].as_str()) {
                    let name = self.deps[i].deps[k].clone();
                    let ghost missing_before = texts(self.deps@[i as int].missing_list@);
                    self.deps[i].missing_list.push(name);
                    proof {
                        assert(forall|j: int|
                            0 <= j < before.len() && j != i ==> self.deps@[j] == before[j]);
                        assert(self.deps@[i as int].missing_list@
                            == before[i as int].missing_list@.push(name));
                        assert(self.deps@[i as int].deps == before[i as int].deps);
                        assert(self.deps@[i as int].source == before[i as int].source);
                        assert(texts(self.deps@[i as int].missing_list@) =~= missing_before.push(
                            name@,
                        ));
                        assert(!assets_manager.store@.has(start.deps.take(k + 1).last()));
                        assert(self.deps@[i as int]@.missing =~= start.missing + lacking(
                            start.deps.take(k + 1),
                            assets_manager.store@,
                        ));
                        assert(self.deps@[i as int]@.deps == start.deps);
                    }
                }
                k += 1;
            }
            proof {
                assert(start.deps.take(k as int) == start.deps);
            }
            i += 1;
        }
        proof {
            assert forall|i: int| 0 <= i < old(self)@.len() implies #[trigger] self@[i] == checked(
                old(self)@[i],
                assets_manager.store@,
            ) by {
                assert(self@[i] == self.deps@[i]@);
            }
        }
    }

    /// Whether nothing was found missing for `filename`: for its first
    /// dependency, where it has one.
    pub fn check_if_valid(&self, filename: &str) -> (r: bool)
        ensures
            r == (source_position(self@, filename@) < self@.len() ==> self@[source_position(
                self@,
                filename@,
            )].missing.len() == 0),
    {
        let mut i: usize = 0;
        proof {
            assert(self@.skip(0) == self@);
        }
        while i < self.deps.len()
            invariant
                i <= self.deps@.len(),
                source_position(self@, filename@) == i + source_position(
                    self@.skip(i as int),
                    filename@,
                ),
            decreases self.deps.len() - i,
        {
            proof {
                let rest = self@.skip(i as int);
                assert(rest[0] == self.deps@[i as int]@);
                assert(rest.drop_first() == self@.skip(i + 1));
            }
            if *self.deps[i].source.as_str() == *filename {
                return self.deps[i].is_valid();
            }
            i += 1;
        }
        proof {
            assert(self@.skip(i as int).len() == 0);
        }
        true
    }

    /// What was found missing for `filename`.
    pub fn get_missing_dependencies(&self, filename: &str) -> (result: Vec<String>)
        ensures
            texts(result@) == missing_for(self@, filename@),
    {
        let mut result: Vec<String> = Vec::new();
        let mut i: usize = 0;
        proof {
            assert(self@.take(0) =~= Seq::empty());
            assert(texts(result@) =~= missing_for(self@.take(0), filename@));
        }
        while i < self.deps.len()
            invariant
                i <= self.deps@.len(),
                texts(result@) == missing_for(self@.take(i as int), filename@),
            decreases self.deps.len() - i,
        {
            proof {
                let upto = self@.take(i + 1);
                assert(upto.drop_last() == self@.take(i as int));
                assert(upto.last() == self.deps@[i as int]@);
            }
            if *self.deps[i].source.as_str() == *filename {
                let ghost before = texts(result@);
                let mut k: usize = 0;
                proof {
                    assert(texts(result@) =~= before + self.deps@[i as int]@.missing.take(0));
                }
                while k < self.deps[i].missing_list.len()
                    invariant
                        i < self.deps@.len(),
                        k <= self.deps@[i as int].missing_list@.len(),
                        texts(result@) == before + self.deps@[i as int]@.missing.take(k as int),
                    decreases self.deps@[i as int].missing_list@.len() - k,
                {
                    let ghost sofar = texts(result@);
                    let name = self.deps[i].missing_list[k].clone();
                    result.push(name);
                    proof {
                        assert(texts(result@) =~= sofar.push(name@));
                        assert(texts(result@) =~= before + self.deps@[i as int]@.missing.take(
                            k + 1,
                        ));
                    }
                    k += 1;
                }
                proof {
                    assert(self.deps@[i as int]@.missing.take(k as int)
                        == self.deps@[i as int]@.missing);
                }
            }
            i += 1;
        }
        proof {
            assert(self@.take(i as int) == self@);
        }
        result
    }
}

} // verus!
