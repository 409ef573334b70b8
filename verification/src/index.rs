//! The catalog: the known concrete paths, and the redirects between them.
use crate::document::{document_pairs, pair_texts, read_pairs};
use crate::error::AssetError;
use crate::pattern::{
    is_valid_pattern, keep_marked, marked, pattern_matches, pattern_valid, regex_match,
};
use crate::rows::{catalog_text, fields_of, join_fields, path_of_row, row_paths};
use crate::table::{csv_rows, field_texts, parse_rows};
use crate::text::{
    basename, contains_separator, extension, extension_of, file_name, first_position,
    has_separator, lemma_basename_is_plain, lemma_first_position, lemma_first_position_unique,
    opt_text, texts,
};
use vstd::prelude::*;
use vstd::string::StringExecFns;

verus! {

/// Whether the catalog entry `entry` answers to `name`: by its full path, or
/// by its file name alone.
pub open spec fn answers_to(entry: Seq<char>, name: Seq<char>) -> bool {
    entry == name || basename(entry) == name
}

/// The entry that answers to `name`: the one added last, where several do,
/// so that a later entry stands in front of an earlier one.
pub open spec fn lookup(entries: Seq<Seq<char>>, name: Seq<char>) -> Option<Seq<char>>
    decreases entries.len(),
{
    if entries.len() == 0 {
        None
    } else if answers_to(entries.last(), name) {
        Some(entries.last())
    } else {
        lookup(entries.drop_last(), name)
    }
}

/// The target of the first redirect whose origin answers to `name`.
pub open spec fn redirect_target(
    redirects: Seq<(Seq<char>, Seq<char>)>,
    name: Seq<char>,
) -> Option<Seq<char>>
    decreases redirects.len(),
{
    if redirects.len() == 0 {
        None
    } else if answers_to(redirects[0].0, name) {
        Some(redirects[0].1)
    } else {
        redirect_target(redirects.drop_first(), name)
    }
}

/// Resolution that follows at most `fuel` redirects before it looks `name`
/// up among the entries.
pub open spec fn resolve_within(
    entries: Seq<Seq<char>>,
    redirects: Seq<(Seq<char>, Seq<char>)>,
    name: Seq<char>,
    fuel: nat,
) -> Result<Seq<char>, AssetError>
    decreases fuel,
{
    match redirect_target(redirects, name) {
        Some(target) => if fuel == 0 {
            Err(AssetError::RedirectCycle)
        } else {
            resolve_within(entries, redirects, target, (fuel - 1) as nat)
        },
        None => match lookup(entries, name) {
            Some(path) => Ok(path),
            None => Err(AssetError::NotFound),
        },
    }
}

/// What a logical name resolves to. A chain of redirects that is longer than
/// the table has used one of its rows twice, and so never ends.
pub open spec fn resolve_spec(
    entries: Seq<Seq<char>>,
    redirects: Seq<(Seq<char>, Seq<char>)>,
    name: Seq<char>,
) -> Result<Seq<char>, AssetError> {
    resolve_within(entries, redirects, name, redirects.len())
}

/// Whether some entry is known under `name`: under its file name where `name`
/// is a bare name, under its full path where `name` holds a separator.
pub open spec fn known(entries: Seq<Seq<char>>, name: Seq<char>) -> bool {
    exists|i: int|
        0 <= i < entries.len() && if has_separator(name) {
            #[trigger] entries[i] == name
        } else {
            basename(entries[i]) == name
        }
}

/// For each path, whether `filter` matches its file name.
pub open spec fn name_verdicts(filter: Seq<char>, paths: Seq<Seq<char>>) -> Seq<bool> {
    Seq::new(paths.len(), |i: int| pattern_matches(filter, basename(paths[i])))
}

/// For each path, whether `filter` matches it.
pub open spec fn path_verdicts(filter: Seq<char>, paths: Seq<Seq<char>>) -> Seq<bool> {
    Seq::new(paths.len(), |i: int| pattern_matches(filter, paths[i]))
}

/// One row of the redirect table.
#[derive(Debug, Clone)]
pub struct Redirect {
    pub origin: String,
    pub target: String,
}

impl View for Redirect {
    type V = (Seq<char>, Seq<char>);

    open spec fn view(&self) -> (Seq<char>, Seq<char>) {
        (self.origin@, self.target@)
    }
}

/// The views of a redirect table.
pub open spec fn rows(v: Seq<Redirect>) -> Seq<(Seq<char>, Seq<char>)> {
    Seq::new(v.len(), |i: int| v[i]@)
}

/// Whether `entry` answers to `name`.
pub fn entry_answers_to(entry: &str, name: &str) -> (r: bool)
    ensures
        r == answers_to(entry@, name@),
{
    if *entry == *name {
        return true;
    }
    let short = file_name(entry);
    *short.as_str() == *name
}

/// The last of `files` that answers to `name`.
pub fn find_entry(files: &Vec<String>, name: &str) -> (r: Option<String>)
    ensures
        opt_text(r) == lookup(texts(files@), name@),
{
    let mut i: usize = files.len();
    proof {
        assert(texts(files@).take(i as int) == texts(files@));
    }
    while i > 0
        invariant
            i <= files@.len(),
            lookup(texts(files@), name@) == lookup(texts(files@).take(i as int), name@),
        decreases i,
    {
        proof {
            let upto = texts(files@).take(i as int);
            assert(upto.last() == files@[i - 1]@);
            assert(upto.drop_last() == texts(files@).take(i - 1));
        }
        i -= 1;
        if entry_answers_to(files[i].as_str(), name) {
            return Some(files[i].clone());
        }
    }
    None
}

/// The target of the first of `redirects` whose origin answers to `name`.
pub fn find_redirect(redirects: &Vec<Redirect>, name: &str) -> (r: Option<String>)
    ensures
        opt_text(r) == redirect_target(rows(redirects@), name@),
{
    let mut i: usize = 0;
    proof {
        assert(rows(redirects@).skip(0) == rows(redirects@));
    }
    while i < redirects.len()
        invariant
            i <= redirects@.len(),
            redirect_target(rows(redirects@), name@) == redirect_target(
                rows(redirects@).skip(i as int),
                name@,
            ),
        decreases redirects.len() - i,
    {
        if entry_answers_to(redirects[i].origin.as_str(), name) {
            proof {
                assert(rows(redirects@).skip(i as int)[0] == redirects@[i as int]@);
            }
            return Some(redirects[i].target.clone());
        }
        proof {
            let rest = rows(redirects@).skip(i as int);
            assert(rest[0] == redirects@[i as int]@);
            assert(rest.drop_first() == rows(redirects@).skip(i + 1));
        }
        i += 1;
    }
    proof {
        assert(rows(redirects@).skip(i as int).len() == 0);
    }
    None
}

/// Resolves `name` against `files` and `redirects`.
pub fn resolve_in(files: &Vec<String>, redirects: &Vec<Redirect>, name: &str) -> (r: Result<
    String,
    AssetError,
>)
    ensures
        match r {
            Ok(path) => resolve_spec(texts(files@), rows(redirects@), name@) == Ok::<
                Seq<char>,
                AssetError,
            >(path@),
            Err(e) => resolve_spec(texts(files@), rows(redirects@), name@) == Err::<
                Seq<char>,
                AssetError,
            >(e),
        },
{
    let mut current: String = name.to_owned();
    let mut fuel: usize = redirects.len();
    loop
        invariant
            fuel <= redirects@.len(),
            resolve_within(texts(files@), rows(redirects@), current@, fuel as nat) == resolve_spec(
                texts(files@),
                rows(redirects@),
                name@,
            ),
        decreases fuel,
    {
        match find_redirect(redirects, current.as_str()) {
            Some(target) => {
                if fuel == 0 {
                    return Err(AssetError::RedirectCycle);
                }
                fuel -= 1;
                current = target;
            },
            None => {
                return match find_entry(files, current.as_str()) {
                    Some(path) => Ok(path),
                    None => Err(AssetError::NotFound),
                };
            },
        }
    }
}

/// The position of the first row whose origin is `origin`; the length where
/// there is none.
pub open spec fn key_position(redirects: Seq<(Seq<char>, Seq<char>)>, origin: Seq<char>) -> int
    decreases redirects.len(),
{
    if redirects.len() == 0 {
        0
    } else if redirects[0].0 == origin {
        0
    } else {
        1 + key_position(redirects.drop_first(), origin)
    }
}

/// `key_position` is the one position of a row of that origin with no such
/// row before it.
proof fn lemma_key_position_unique(
    redirects: Seq<(Seq<char>, Seq<char>)>,
    origin: Seq<char>,
    k: int,
)
    requires
        0 <= k <= redirects.len(),
        k < redirects.len() ==> redirects[k].0 == origin,
        forall|j: int| 0 <= j < k ==> (#[trigger] redirects[j]).0 != origin,
    ensures
        key_position(redirects, origin) == k,
    decreases redirects.len(),
{
    if redirects.len() > 0 && redirects[0].0 != origin {
        let rest = redirects.drop_first();
        assert forall|j: int| 0 <= j < k - 1 implies (#[trigger] rest[j]).0 != origin by {
            assert(rest[j] == redirects[j + 1]);
        }
        lemma_key_position_unique(rest, origin, k - 1);
    }
}

/// `redirects` with `origin` redirected to `target`: a row for `origin` is
/// overwritten, a new origin is added behind the rows that are there.
pub open spec fn with_row(
    redirects: Seq<(Seq<char>, Seq<char>)>,
    origin: Seq<char>,
    target: Seq<char>,
) -> Seq<(Seq<char>, Seq<char>)> {
    if key_position(redirects, origin) < redirects.len() {
        redirects.update(key_position(redirects, origin), (origin, target))
    } else {
        redirects.push((origin, target))
    }
}

/// `redirects` without the row of `origin`, if there is one.
pub open spec fn without_row(redirects: Seq<(Seq<char>, Seq<char>)>, origin: Seq<char>) -> Seq<
    (Seq<char>, Seq<char>),
> {
    if key_position(redirects, origin) < redirects.len() {
        redirects.remove(key_position(redirects, origin))
    } else {
        redirects
    }
}

/// Whether `redirects` is a table: no two of its rows have the same origin.
pub open spec fn distinct_origins(redirects: Seq<(Seq<char>, Seq<char>)>) -> bool {
    forall|i: int, j: int|
        #![trigger redirects[i], redirects[j]]
        0 <= i < j < redirects.len() ==> redirects[i].0 != redirects[j].0
}

/// The table that `redirects` becomes once each of `pairs` is taken in, in
/// order: both names of a pair are resolved first, against `entries` and the
/// rows taken in so far, and what they resolve to is redirected. `None`
/// where a name resolves to nothing.
pub open spec fn redirected_rows(
    entries: Seq<Seq<char>>,
    redirects: Seq<(Seq<char>, Seq<char>)>,
    pairs: Seq<(Seq<char>, Seq<char>)>,
) -> Option<Seq<(Seq<char>, Seq<char>)>>
    decreases pairs.len(),
{
    if pairs.len() == 0 {
        Some(redirects)
    } else {
        match (
            resolve_spec(entries, redirects, pairs[0].0),
            resolve_spec(entries, redirects, pairs[0].1),
        ) {
            (Ok(origin), Ok(target)) => redirected_rows(
                entries,
                with_row(redirects, origin, target),
                pairs.drop_first(),
            ),
            _ => None,
        }
    }
}

/// Redirecting an origin keeps a table a table.
pub proof fn lemma_with_row_distinct(
    redirects: Seq<(Seq<char>, Seq<char>)>,
    origin: Seq<char>,
    target: Seq<char>,
)
    requires
        distinct_origins(redirects),
    ensures
        distinct_origins(with_row(redirects, origin, target)),
{
    let k = key_position(redirects, origin);
    let after = with_row(redirects, origin, target);
    lemma_key_position(redirects, origin);
    assert forall|i: int, j: int| 0 <= i < j < after.len() implies (#[trigger] after[i]).0 != (
    #[trigger] after[j]).0 by {
        if k < redirects.len() {
            assert(after[i].0 == redirects[i].0);
            assert(after[j].0 == redirects[j].0);
        } else {
            if j < redirects.len() {
                assert(after[i] == redirects[i]);
                assert(after[j] == redirects[j]);
            } else {
                assert(after[i] == redirects[i]);
                lemma_key_absent(redirects, origin, i);
            }
        }
    }
}

/// Forgetting a row keeps a table a table.
pub proof fn lemma_without_row_distinct(redirects: Seq<(Seq<char>, Seq<char>)>, origin: Seq<char>)
    requires
        distinct_origins(redirects),
    ensures
        distinct_origins(without_row(redirects, origin)),
{
    let k = key_position(redirects, origin);
    let after = without_row(redirects, origin);
    lemma_key_position(redirects, origin);
    if k < redirects.len() {
        assert forall|i: int, j: int| 0 <= i < j < after.len() implies (#[trigger] after[i]).0
            != (#[trigger] after[j]).0 by {
            let a = if i < k { i } else { i + 1 };
            let b = if j < k { j } else { j + 1 };
            assert(after[i] == redirects[a]);
            assert(after[j] == redirects[b]);
        }
    }
}

/// Taking pairs in as redirects keeps a table a table.
pub proof fn lemma_redirected_rows_distinct(
    entries: Seq<Seq<char>>,
    redirects: Seq<(Seq<char>, Seq<char>)>,
    pairs: Seq<(Seq<char>, Seq<char>)>,
)
    requires
        distinct_origins(redirects),
    ensures
        redirected_rows(entries, redirects, pairs) matches Some(after) ==> distinct_origins(after),
    decreases pairs.len(),
{
    if pairs.len() > 0 {
        match (
            resolve_spec(entries, redirects, pairs[0].0),
            resolve_spec(entries, redirects, pairs[0].1),
        ) {
            (Ok(origin), Ok(target)) => {
                lemma_with_row_distinct(redirects, origin, target);
                lemma_redirected_rows_distinct(
                    entries,
                    with_row(redirects, origin, target),
                    pairs.drop_first(),
                );
            },
            _ => {},
        }
    }
}

/// No row in front of `key_position` has that origin.
proof fn lemma_key_absent(redirects: Seq<(Seq<char>, Seq<char>)>, origin: Seq<char>, i: int)
    requires
        0 <= i < key_position(redirects, origin),
    ensures
        i < redirects.len(),
        redirects[i].0 != origin,
    decreases redirects.len(),
{
    if redirects.len() > 0 && redirects[0].0 != origin && i > 0 {
        let rest = redirects.drop_first();
        lemma_key_absent(rest, origin, i - 1);
        assert(rest[i - 1] == redirects[i]);
    }
}

/// Redirects `origin` to `target` in `redirects`: a row for `origin` is
/// overwritten, a new origin is added behind the rows that are there.
pub fn put_redirect(redirects: &mut Vec<Redirect>, origin: &str, target: &str)
    ensures
        rows(final(redirects)@) == with_row(rows(old(redirects)@), origin@, target@),
{
    let k = position_of_key(redirects, origin);
    let row = Redirect { origin: origin.to_owned(), target: target.to_owned() };
    if k < redirects.len() {
        redirects.set(k, row);
        proof {
            assert(rows(redirects@) =~= rows(old(redirects)@).update(
                k as int,
                (origin@, target@),
            ));
        }
    } else {
        redirects.push(row);
        proof {
            assert(rows(redirects@) =~= rows(old(redirects)@).push((origin@, target@)));
        }
    }
}

/// Takes each of `pairs` into `redirects`, in order, as long as both of its
/// names resolve, and says whether all of them did. Where one did not,
/// `redirects` is left with the rows taken in before it.
pub fn redirect_rows(
    files: &Vec<String>,
    redirects: &mut Vec<Redirect>,
    pairs: &Vec<(String, String)>,
) -> (done: bool)
    ensures
        match redirected_rows(texts(files@), rows(old(redirects)@), pair_texts(pairs@)) {
            Some(after) => done && rows(final(redirects)@) == after,
            None => !done,
        },
{
    let mut i: usize = 0;
    proof {
        assert(pair_texts(pairs@).skip(0) == pair_texts(pairs@));
    }
    while i < pairs.len()
        invariant
            i <= pairs@.len(),
            redirected_rows(texts(files@), rows(redirects@), pair_texts(pairs@).skip(i as int))
                == redirected_rows(texts(files@), rows(old(redirects)@), pair_texts(pairs@)),
        decreases pairs.len() - i,
    {
        proof {
            let rest = pair_texts(pairs@).skip(i as int);
            assert(rest[0] == (pairs@[i as int].0@, pairs@[i as int].1@));
            assert(rest.drop_first() == pair_texts(pairs@).skip(i + 1));
        }
        let origin = resolve_in(files, redirects, pairs[i].0.as_str());
        let target = resolve_in(files, redirects, pairs[i].1.as_str());
        match (origin, target) {
            (Ok(origin), Ok(target)) => {
                put_redirect(redirects, origin.as_str(), target.as_str());
            },
            _ => {
                return false;
            },
        }
        i += 1;
    }
    proof {
        assert(pair_texts(pairs@).skip(i as int).len() == 0);
    }
    true
}

/// The position in `files` of the first entry equal to `path`.
pub fn position_of(files: &Vec<String>, path: &str) -> (k: usize)
    ensures
        k == first_position(texts(files@), path@),
        k <= files@.len(),
{
    let mut i: usize = 0;
    while i < files.len() && !(*files[i].as_str() == *path)
        invariant
            i <= files@.len(),
            forall|j: int| 0 <= j < i ==> #[trigger] texts(files@)[j] != path@,
        decreases files.len() - i,
    {
        i += 1;
    }
    proof {
        lemma_first_position_unique(texts(files@), path@, i as int);
    }
    i
}

/// The position in `redirects` of the first row whose origin is `origin`.
pub fn position_of_key(redirects: &Vec<Redirect>, origin: &str) -> (k: usize)
    ensures
        k == key_position(rows(redirects@), origin@),
        k <= redirects@.len(),
{
    let mut i: usize = 0;
    while i < redirects.len() && !(*redirects[i].origin.as_str() == *origin)
        invariant
            i <= redirects@.len(),
            forall|j: int| 0 <= j < i ==> (#[trigger] rows(redirects@)[j]).0 != origin@,
        decreases redirects.len() - i,
    {
        i += 1;
    }
    proof {
        lemma_key_position_unique(rows(redirects@), origin@, i as int);
    }
    i
}

/// A copy of a redirect table.
pub fn copy_redirects(redirects: &Vec<Redirect>) -> (copy: Vec<Redirect>)
    ensures
        rows(copy@) == rows(redirects@),
{
    let mut copy: Vec<Redirect> = Vec::new();
    let mut i: usize = 0;
    while i < redirects.len()
        invariant
            i <= redirects@.len(),
            copy@.len() == i,
            forall|j: int| 0 <= j < i ==> (#[trigger] copy@[j])@ == redirects@[j]@,
        decreases redirects.len() - i,
    {
        copy.push(
            Redirect { origin: redirects[i].origin.clone(), target: redirects[i].target.clone() },
        );
        i += 1;
    }
    proof {
        assert(rows(copy@) =~= rows(redirects@));
    }
    copy
}

/// The catalog as contracts see it.
pub struct IndexView {
    pub root: Seq<char>,
    pub entries: Seq<Seq<char>>,
    pub filter: Seq<char>,
    pub cursor: nat,
    pub separator: char,
    pub redirects: Seq<(Seq<char>, Seq<char>)>,
}

/// The catalog of known concrete paths.
///
/// `files` keeps the entries in the order in which they were added, and may
/// hold the same path more than once. `redirect_list` maps one path to
/// another; a name is looked up in it before it is looked up in `files`. It
/// is a table (`IndexView::is_table`): no two of its rows have the same
/// origin, as long as it is changed through the catalog's own methods.
#[derive(Debug, Clone)]
pub struct Index {
    pub root: String,
    pub files: Vec<String>,
    pub filter: String,
    pub current_pos: usize,
    pub csv_separator: char,
    pub redirect_list: Vec<Redirect>,
}

impl View for Index {
    type V = IndexView;

    open spec fn view(&self) -> IndexView {
        IndexView {
            root: self.root@,
            entries: texts(self.files@),
            filter: self.filter@,
            cursor: self.current_pos as nat,
            separator: self.csv_separator,
            redirects: rows(self.redirect_list@),
        }
    }
}

impl IndexView {
    /// What `name` resolves to in this catalog.
    pub open spec fn resolution(self, name: Seq<char>) -> Result<Seq<char>, AssetError> {
        resolve_spec(self.entries, self.redirects, name)
    }

    /// The path that `name` resolves to, if it resolves.
    pub open spec fn path_of(self, name: Seq<char>) -> Option<Seq<char>> {
        match self.resolution(name) {
            Ok(path) => Some(path),
            Err(_) => None,
        }
    }
}

impl IndexView {
    /// The catalog with `origin` redirected to `target`: a row for `origin`
    /// is overwritten, a new origin is added behind the rows that are there.
    pub open spec fn with_redirect(self, origin: Seq<char>, target: Seq<char>) -> Self {
        IndexView { redirects: with_row(self.redirects, origin, target), ..self }
    }

    /// The catalog with each of `pairs` taken in as a redirect, in order:
    /// both names of a pair are resolved first, with the redirects taken in
    /// so far, and what they resolve to is redirected. `None` where a name
    /// resolves to nothing.
    pub open spec fn redirected(self, pairs: Seq<(Seq<char>, Seq<char>)>) -> Option<Self> {
        match redirected_rows(self.entries, self.redirects, pairs) {
            Some(redirects) => Some(IndexView { redirects, ..self }),
            None => None,
        }
    }

    /// Whether the redirects are a table: no two rows have the same origin.
    /// A catalog starts out so, and `add_redirect`, `add_redirects` and
    /// `remove_redirect` keep it so.
    pub open spec fn is_table(self) -> bool {
        distinct_origins(self.redirects)
    }

    /// The catalog without the first entry equal to what `name` resolves to.
    pub open spec fn without_file(self, name: Seq<char>) -> Self {
        match self.path_of(name) {
            Some(path) => IndexView {
                entries: self.entries.remove(first_position(self.entries, path)),
                ..self
            },
            None => self,
        }
    }
}

impl Index {
    /// The view of a catalog as it is made: no entries, no redirects, `;`
    /// between the fields of its rows.
    pub open spec fn assemble_spec(root: Seq<char>, filter: Seq<char>) -> IndexView {
        IndexView {
            root,
            entries: Seq::empty(),
            filter,
            cursor: 0,
            separator: ';',
            redirects: Seq::empty(),
        }
    }

    /// A catalog for `root` with no entries, whose filter is taken as it is.
    pub fn assemble(root: &str, filter: &str) -> (index: Index)
        ensures
            index@ == Index::assemble_spec(root@, filter@),
            index@.is_table(),
    {
        let index = Index {
            root: root.to_owned(),
            files: Vec::new(),
            filter: filter.to_owned(),
            current_pos: 0,
            csv_separator: ';',
            redirect_list: Vec::new(),
        };
        proof {
            assert(index@.entries =~= Seq::empty());
            assert(index@.redirects =~= Seq::empty());
        }
        index
    }

    /// Redirects `origin` to `target`: a row for `origin` is overwritten, a new
    /// origin is added behind the rows that are there.
    pub fn add_redirect(&mut self, origin: &str, target: &str)
        ensures
            final(self)@ == old(self)@.with_redirect(origin@, target@),
            old(self)@.is_table() ==> final(self)@.is_table(),
    {
        put_redirect(&mut self.redirect_list, origin, target);
        proof {
            if old(self)@.is_table() {
                lemma_with_row_distinct(old(self)@.redirects, origin@, target@);
            }
        }
    }

    /// Whether each of `pairs` can be taken in as a redirect: both of its
    /// names resolve, with the redirects of the pairs before it taken in.
    pub fn can_redirect(&self, pairs: &Vec<(String, String)>) -> (r: bool)
        ensures
            r == self@.redirected(pair_texts(pairs@)) is Some,
    {
        let mut trial = copy_redirects(&self.redirect_list);
        redirect_rows(&self.files, &mut trial, pairs)
    }

    /// Takes each of `pairs` in as a redirect, in order: both names of a
    /// pair are resolved first, and what they resolve to is redirected.
    ///
    /// Every name has to resolve: a redirect that names a file unknown to
    /// the catalog is an error of the setup, which `can_redirect` finds.
    pub fn add_redirects(&mut self, pairs: &Vec<(String, String)>)
        requires
            old(self)@.redirected(pair_texts(pairs@)) is Some,
        ensures
            final(self)@ == old(self)@.redirected(pair_texts(pairs@))->Some_0,
            old(self)@.is_table() ==> final(self)@.is_table(),
    {
        redirect_rows(&self.files, &mut self.redirect_list, pairs);
        proof {
            if old(self)@.is_table() {
                lemma_redirected_rows_distinct(
                    old(self)@.entries,
                    old(self)@.redirects,
                    pair_texts(pairs@),
                );
            }
        }
    }

    /// Takes `pairs` in as redirects where each of them can be; else the
    /// catalog stays as it was and a configuration error is reported.
    pub fn try_add_redirects(&mut self, pairs: &Vec<(String, String)>) -> (r: Result<
        (),
        AssetError,
    >)
        ensures
            match old(self)@.redirected(pair_texts(pairs@)) {
                Some(view) => r is Ok && final(self)@ == view,
                None => r == Err::<(), AssetError>(AssetError::Configuration) && final(self)@
                    == old(self)@,
            },
            old(self)@.is_table() ==> final(self)@.is_table(),
    {
        if !self.can_redirect(pairs) {
            return Err(AssetError::Configuration);
        }
        self.add_redirects(pairs);
        Ok(())
    }

    /// Takes in the redirects of a document: `content` is its text, and its
    /// section `redirect` maps names to names.
    ///
    /// The text has to be a document whose redirects name strings, and every
    /// name has to resolve: anything else is an error of the setup, which
    /// `try_add_redirect_from_file` finds.
    pub fn add_redirect_from_file(&mut self, content: &str)
        requires
            document_pairs(content@, "redirect"@) is Some,
            old(self)@.redirected(document_pairs(content@, "redirect"@)->Some_0) is Some,
        ensures
            final(self)@ == old(self)@.redirected(
                document_pairs(content@, "redirect"@)->Some_0,
            )->Some_0,
            old(self)@.is_table() ==> final(self)@.is_table(),
    {
        match read_pairs(content, "redirect") {
            Some(pairs) => {
                self.add_redirects(&pairs);
            },
            None => {},
        }
    }

    /// Takes in the redirects of the document `content` where that can be
    /// done. A text that is no document, a target that is no string and a
    /// name that resolves to nothing are configuration errors, and leave the
    /// catalog as it was.
    pub fn try_add_redirect_from_file(&mut self, content: &str) -> (r: Result<(), AssetError>)
        ensures
            match document_pairs(content@, "redirect"@) {
                Some(pairs) => match old(self)@.redirected(pairs) {
                    Some(view) => r is Ok && final(self)@ == view,
                    None => r == Err::<(), AssetError>(AssetError::Configuration) && final(self)@
                        == old(self)@,
                },
                None => r == Err::<(), AssetError>(AssetError::Configuration) && final(self)@
                    == old(self)@,
            },
            old(self)@.is_table() ==> final(self)@.is_table(),
    {
        match read_pairs(content, "redirect") {
            Some(pairs) => {
                if !self.can_redirect(&pairs) {
                    return Err(AssetError::Configuration);
                }
                self.add_redirect_from_file(content);
                Ok(())
            },
            None => Err(AssetError::Configuration),
        }
    }

    /// Forgets the redirect of `origin`, if there is one.
    pub fn remove_redirect(&mut self, origin: &str)
        ensures
            final(self)@ == (IndexView {
                redirects: without_row(old(self)@.redirects, origin@),
                ..old(self)@
            }),
            old(self)@.is_table() ==> final(self)@.is_table(),
    {
        let k = position_of_key(&self.redirect_list, origin);
        if k < self.redirect_list.len() {
            self.redirect_list.remove(k);
            proof {
                assert(self@.redirects =~= old(self)@.redirects.remove(k as int));
            }
        }
        proof {
            if old(self)@.is_table() {
                lemma_without_row_distinct(old(self)@.redirects, origin@);
            }
        }
    }

    /// Sets the character that parts the fields of a row.
    pub fn set_csv_separator(&mut self, new_separator: char)
        ensures
            final(self)@ == (IndexView { separator: new_separator, ..old(self)@ }),
    {
        self.csv_separator = new_separator;
    }

    /// Adds one entry behind those that are there.
    pub fn add_file(&mut self, file: String)
        ensures
            final(self)@ == (IndexView { entries: old(self)@.entries.push(file@), ..old(self)@ }),
    {
        self.files.push(file);
        proof {
            assert(self@.entries =~= old(self)@.entries.push(file@));
        }
    }

    /// Adds `files`, in their order, behind the entries that are there.
    pub fn add_files(&mut self, files: Vec<String>)
        ensures
            final(self)@ == (IndexView {
                entries: old(self)@.entries + texts(files@),
                ..old(self)@
            }),
    {
        let mut incoming = files;
        self.files.append(&mut incoming);
        proof {
            assert(self@.entries =~= old(self)@.entries + texts(files@));
        }
    }

    /// Forgets every entry; the redirects stay.
    pub fn clear(&mut self)
        ensures
            final(self)@ == (IndexView { entries: Seq::empty(), ..old(self)@ }),
    {
        self.files.clear();
        proof {
            assert(self@.entries =~= Seq::empty());
        }
    }

    /// The target of the first redirect whose origin answers to `filename`.
    pub fn get_redirect(&self, filename: &str) -> (r: Option<String>)
        ensures
            opt_text(r) == redirect_target(self@.redirects, filename@),
    {
        find_redirect(&self.redirect_list, filename)
    }

    /// Resolves a logical name to a concrete path: redirects are followed
    /// first, then the entry that answers to the name is taken, the one
    /// added last where several do.
    pub fn resolve(&self, name: &str) -> (r: Result<String, AssetError>)
        ensures
            match r {
                Ok(path) => self@.resolution(name@) == Ok::<Seq<char>, AssetError>(path@),
                Err(e) => self@.resolution(name@) == Err::<Seq<char>, AssetError>(e),
            },
    {
        resolve_in(&self.files, &self.redirect_list, name)
    }

    /// The path that `filename` resolves to; `None` where it resolves to
    /// nothing or its redirects never end.
    pub fn get_path(&self, filename: &str) -> (r: Option<String>)
        ensures
            opt_text(r) == self@.path_of(filename@),
    {
        match self.resolve(filename) {
            Ok(path) => Some(path),
            Err(_) => None,
        }
    }

    /// Whether an entry is known under `filename`.
    pub fn have_file(&self, filename: &str) -> (r: bool)
        ensures
            r == known(self@.entries, filename@),
    {
        let using_full_path = contains_separator(filename);
        let mut i: usize = 0;
        while i < self.files.len()
            invariant
                i <= self.files@.len(),
                using_full_path == has_separator(filename@),
                forall|j: int|
                    0 <= j < i ==> !(if has_separator(filename@) {
                        #[trigger] self@.entries[j] == filename@
                    } else {
                        basename(self@.entries[j]) == filename@
                    }),
            decreases self.files.len() - i,
        {
            if using_full_path {
                if *self.files[i].as_str() == *filename {
                    assert(self@.entries[i as int] == filename@);
                    return true;
                }
            } else {
                let short = file_name(self.files[i].as_str());
                if *short.as_str() == *filename {
                    assert(basename(self@.entries[i as int]) == filename@);
                    return true;
                }
            }
            i += 1;
        }
        false
    }

    /// Resolves `filename` and removes the first entry equal to what it
    /// resolves to. Says whether an entry was removed.
    pub fn remove_indexed_file(&mut self, filename: &str) -> (found: bool)
        ensures
            final(self)@ == old(self)@.without_file(filename@),
            found == old(self)@.path_of(filename@) is Some,
    {
        match self.get_path(filename) {
            Some(path) => {
                let k = position_of(&self.files, path.as_str());
                proof {
                    lemma_resolution_is_entry(self@.entries, self@.redirects, filename@);
                    lemma_first_position(self@.entries, path@);
                    let i = choose|i: int|
                        0 <= i < self@.entries.len() && self@.entries[i] == path@;
                    assert(k <= i);
                }
                self.files.remove(k);
                proof {
                    assert(self@.entries =~= old(self)@.entries.remove(k as int));
                }
                true
            },
            None => false,
        }
    }

    /// A catalog for `root` with no entries, whose discoveries are filtered by
    /// the regular expression `filter`. A filter that does not compile is a
    /// configuration error.
    pub fn new(root: &str, filter: &str) -> (r: Result<Index, AssetError>)
        ensures
            match r {
                Ok(index) => pattern_valid(filter@) && index@ == Index::assemble_spec(
                    root@,
                    filter@,
                ),
                Err(e) => !pattern_valid(filter@) && e == AssetError::Configuration,
            },
    {
        if is_valid_pattern(filter) {
            Ok(Index::assemble(root, filter))
        } else {
            Err(AssetError::Configuration)
        }
    }

    /// Of the files `found` under the root, those whose file name the filter
    /// matches, in their order. Fails where the filter does not compile.
    pub fn search_in_dir(&self, found: &Vec<String>) -> (r: Result<Vec<String>, AssetError>)
        ensures
            match r {
                Ok(accepted) => pattern_valid(self@.filter) && texts(accepted@) == marked(
                    texts(found@),
                    name_verdicts(self@.filter, texts(found@)),
                ),
                Err(e) => !pattern_valid(self@.filter) && e == AssetError::Configuration,
            },
    {
        if !is_valid_pattern(self.filter.as_str()) {
            return Err(AssetError::Configuration);
        }
        let mut marks: Vec<bool> = Vec::new();
        let mut i: usize = 0;
        while i < found.len()
            invariant
                i <= found@.len(),
                pattern_valid(self@.filter),
                marks@.len() == i,
                forall|j: int|
                    0 <= j < i ==> #[trigger] marks@[j] == pattern_matches(
                        self@.filter,
                        basename(found@[j]@),
                    ),
            decreases found.len() - i,
        {
            let name = file_name(found[i].as_str());
            let verdict = match regex_match(self.filter.as_str(), name.as_str()) {
                Some(verdict) => verdict,
                None => false,
            };
            marks.push(verdict);
            i += 1;
        }
        proof {
            assert(marks@ =~= name_verdicts(self@.filter, texts(found@)));
        }
        Ok(keep_marked(found, &marks))
    }

    /// Takes the files `found` under the root into the catalog: those whose
    /// file name the filter matches are added behind the entries that are there.
    pub fn search(&mut self, found: Vec<String>) -> (r: Result<(), AssetError>)
        ensures
            match r {
                Ok(_) => pattern_valid(old(self)@.filter) && final(self)@ == (IndexView {
                    entries: old(self)@.entries + marked(
                        texts(found@),
                        name_verdicts(old(self)@.filter, texts(found@)),
                    ),
                    ..old(self)@
                }),
                Err(e) => !pattern_valid(old(self)@.filter) && e == AssetError::Configuration
                    && final(self)@ == old(self)@,
            },
    {
        match self.search_in_dir(&found) {
            Ok(accepted) => {
                self.add_files(accepted);
                Ok(())
            },
            Err(e) => Err(e),
        }
    }

    /// The entries whose full path the regular expression `filter` matches,
    /// in their order. Fails where `filter` does not compile.
    pub fn regex_search(&self, filter: &str) -> (r: Result<Vec<String>, AssetError>)
        ensures
            match r {
                Ok(hits) => pattern_valid(filter@) && texts(hits@) == marked(
                    self@.entries,
                    path_verdicts(filter@, self@.entries),
                ),
                Err(e) => !pattern_valid(filter@) && e == AssetError::Configuration,
            },
    {
        if !is_valid_pattern(filter) {
            return Err(AssetError::Configuration);
        }
        let mut marks: Vec<bool> = Vec::new();
        let mut i: usize = 0;
        while i < self.files.len()
            invariant
                i <= self.files@.len(),
                pattern_valid(filter@),
                marks@.len() == i,
                forall|j: int|
                    0 <= j < i ==> #[trigger] marks@[j] == pattern_matches(
                        filter@,
                        self.files@[j]@,
                    ),
            decreases self.files.len() - i,
        {
            let verdict = match regex_match(filter, self.files[i].as_str()) {
                Some(verdict) => verdict,
                None => false,
            };
            marks.push(verdict);
            i += 1;
        }
        proof {
            assert(marks@ =~= path_verdicts(filter@, self@.entries));
        }
        Ok(keep_marked(&self.files, &marks))
    }

    /// Adds the path of each row that has fields, in the order of the rows,
    /// behind the entries that are there.
    pub fn add_rows(&mut self, rows: &Vec<Vec<String>>)
        ensures
            final(self)@ == (IndexView {
                entries: old(self)@.entries + row_paths(field_texts(rows@)),
                ..old(self)@
            }),
    {
        let mut i: usize = 0;
        proof {
            assert(field_texts(rows@).take(0) =~= Seq::empty());
            assert(self@.entries =~= old(self)@.entries + row_paths(field_texts(rows@).take(0)));
        }
        while i < rows.len()
            invariant
                i <= rows@.len(),
                self@ == (IndexView {
                    entries: old(self)@.entries + row_paths(field_texts(rows@).take(i as int)),
                    ..old(self)@
                }),
            decreases rows.len() - i,
        {
            let ghost before = self@.entries;
            proof {
                let upto = field_texts(rows@).take(i + 1);
                assert(upto.drop_last() == field_texts(rows@).take(i as int));
                assert(upto.last() == texts(rows@[i as int]@));
            }
            if rows[i].len() > 0 {
                let path = path_of_row(&rows[i]);
                self.add_file(path);
                proof {
                    assert(self@.entries =~= old(self)@.entries + row_paths(
                        field_texts(rows@).take(i + 1),
                    ));
                }
            }
            i += 1;
        }
        proof {
            assert(field_texts(rows@).take(i as int) == field_texts(rows@));
        }
    }

    /// Takes the rows of a delimiter-separated file into the catalog.
    /// `file` is the file's name and `content` its text. A file whose
    /// extension is not `csv` adds nothing.
    pub fn add_from_file(&mut self, file: &str, content: &str)
        ensures
            final(self)@ == (IndexView {
                entries: if extension(file@) == Some("csv"@) {
                    old(self)@.entries + row_paths(csv_rows(content@, old(self)@.separator))
                } else {
                    old(self)@.entries
                },
                ..old(self)@
            }),
    {
        match extension_of(file) {
            Some(ext) => {
                if *ext.as_str() == *"csv" {
                    let rows = parse_rows(content, self.csv_separator);
                    self.add_rows(&rows);
                }
            },
            None => {},
        }
    }

    /// The text of the catalog's persistence file: one line per entry, its
    /// fields the components of the entry's path, parted by the separator.
    pub fn save_as_file(&self) -> (content: String)
        ensures
            content@ == catalog_text(self@.entries, self@.separator),
    {
        let mut content = String::new();
        let mut i: usize = 0;
        proof {
            assert(self@.entries.take(0) =~= Seq::empty());
        }
        while i < self.files.len()
            invariant
                i <= self.files@.len(),
                content@ == catalog_text(self@.entries.take(i as int), self@.separator),
            decreases self.files.len() - i,
        {
            let fields = fields_of(self.files[i].as_str());
            let line = join_fields(&fields, self.csv_separator);
            content.append(line.as_str());
            content.push('\n');
            proof {
                let upto = self@.entries.take(i + 1);
                assert(upto.drop_last() == self@.entries.take(i as int));
                assert(upto.last() == self.files@[i as int]@);
            }
            i += 1;
        }
        proof {
            assert(self@.entries.take(i as int) == self@.entries);
        }
        content
    }

    /// The entry under the cursor, which then moves on by one; `None` once
    /// every entry has been handed out.
    pub fn next(&mut self) -> (r: Option<String>)
        ensures
            old(self)@.cursor < old(self)@.entries.len() ==> opt_text(r) == Some(
                old(self)@.entries[old(self)@.cursor as int],
            ) && final(self)@ == (IndexView { cursor: old(self)@.cursor + 1, ..old(self)@ }),
            old(self)@.cursor >= old(self)@.entries.len() ==> r is None && final(self)@ == old(
                self,
            )@,
    {
        if self.current_pos >= self.files.len() {
            return None;
        }
        let path = self.files[self.current_pos].clone();
        self.current_pos += 1;
        Some(path)
    }
}

/// A registered entry is found again, under its full path and under its
/// file name alike, as long as no redirect answers to the query: the query
/// resolves to an entry that answers to it, and whose file name is that of
/// the registered entry.
pub proof fn registered_entry_resolves(
    entries: Seq<Seq<char>>,
    redirects: Seq<(Seq<char>, Seq<char>)>,
    i: int,
    query: Seq<char>,
)
    requires
        0 <= i < entries.len(),
        query == entries[i] || query == basename(entries[i]),
        redirect_target(redirects, query) is None,
    ensures
        resolve_spec(entries, redirects, query) is Ok,
        answers_to(resolve_spec(entries, redirects, query)->Ok_0, query),
        basename(resolve_spec(entries, redirects, query)->Ok_0) == basename(entries[i]),
{
    lemma_lookup_is_entry(entries, query);
    assert(answers_to(entries[i], query));
    let path = lookup(entries, query)->Some_0;
    lemma_basename_is_plain(entries[i]);
    lemma_basename_is_plain(path);
}

/// Where rows of `redirects` answer to `name`, the first of them does so by
/// having `name` itself as its origin, so that redirecting `name` takes
/// effect.
pub open spec fn answered_exactly(redirects: Seq<(Seq<char>, Seq<char>)>, name: Seq<char>) -> bool {
    forall|j: int|
        0 <= j < key_position(redirects, name) ==> !answers_to((#[trigger] redirects[j]).0, name)
}

/// `key_position` is a position of a row of that origin, or the number of
/// rows, and no row before it has that origin.
proof fn lemma_key_position(redirects: Seq<(Seq<char>, Seq<char>)>, origin: Seq<char>)
    ensures
        0 <= key_position(redirects, origin) <= redirects.len(),
        key_position(redirects, origin) < redirects.len() ==> redirects[key_position(
            redirects,
            origin,
        )].0 == origin,
    decreases redirects.len(),
{
    if redirects.len() > 0 && redirects[0].0 != origin {
        lemma_key_position(redirects.drop_first(), origin);
    }
}

/// The first row that answers to a name gives its target.
proof fn lemma_redirect_target_at(
    redirects: Seq<(Seq<char>, Seq<char>)>,
    name: Seq<char>,
    k: int,
)
    requires
        0 <= k <= redirects.len(),
        forall|j: int| 0 <= j < k ==> !answers_to((#[trigger] redirects[j]).0, name),
        k < redirects.len() ==> answers_to(redirects[k].0, name),
    ensures
        redirect_target(redirects, name) == if k < redirects.len() {
            Some(redirects[k].1)
        } else {
            None
        },
    decreases redirects.len(),
{
    if redirects.len() > 0 && k > 0 {
        let rest = redirects.drop_first();
        assert(!answers_to(redirects[0].0, name));
        assert forall|j: int| 0 <= j < k - 1 implies !answers_to((#[trigger] rest[j]).0, name) by {
            assert(rest[j] == redirects[j + 1]);
        }
        lemma_redirect_target_at(rest, name, k - 1);
    }
}

/// Redirects are followed one after the other: once `origin` is redirected
/// to `a` and `a` to `b`, `origin` resolves to what `b` resolves to, which
/// is the entry that answers to `b`.
///
/// This holds where the two redirects take effect, that is, where no row
/// in front of them answers to `origin` or to `a` by its file name alone,
/// and where `b` is not redirected itself.
pub proof fn redirects_are_followed_in_turn(
    view: IndexView,
    origin: Seq<char>,
    a: Seq<char>,
    b: Seq<char>,
)
    requires
        answered_exactly(view.redirects, origin),
        answered_exactly(view.with_redirect(origin, a).redirects, a),
        redirect_target(view.with_redirect(origin, a).with_redirect(a, b).redirects, b) is None,
    ensures
        ({
            let after = view.with_redirect(origin, a).with_redirect(a, b);
            &&& after.resolution(origin) == after.resolution(b)
            &&& after.resolution(origin) == match lookup(view.entries, b) {
                Some(path) => Ok::<Seq<char>, AssetError>(path),
                None => Err::<Seq<char>, AssetError>(AssetError::NotFound),
            }
        }),
{
    let r0 = view.redirects;
    let r1 = view.with_redirect(origin, a).redirects;
    let r2 = view.with_redirect(origin, a).with_redirect(a, b).redirects;
    let ko = key_position(r0, origin);
    let ka = key_position(r1, a);
    lemma_key_position(r0, origin);
    lemma_key_position(r1, a);
    let n = r2.len();
    assert(r1[ko] == (origin, a));
    assert(r2[ka] == (a, b));
    if ka == ko {
        assert(a == origin);
        assert forall|j: int| 0 <= j < ko implies !answers_to((#[trigger] r2[j]).0, origin) by {
            assert(r2[j] == r0[j]);
        }
        lemma_redirect_target_at(r2, origin, ko);
        assert(resolve_within(view.entries, r2, origin, n) == resolve_within(
            view.entries,
            r2,
            b,
            (n - 1) as nat,
        ));
    } else {
        assert(r2[ko] == (origin, a));
        assert forall|j: int| 0 <= j < ko implies !answers_to((#[trigger] r2[j]).0, origin) by {
            assert(r1[j] == r0[j]);
            if j == ka {
                assert(r2[j].0 == r1[j].0);
            } else {
                assert(r2[j] == r1[j]);
            }
        }
        lemma_redirect_target_at(r2, origin, ko);
        assert forall|j: int| 0 <= j < ka implies !answers_to((#[trigger] r2[j]).0, a) by {
            assert(r2[j] == r1[j]);
        }
        lemma_redirect_target_at(r2, a, ka);
        assert(n >= 2);
        assert(resolve_within(view.entries, r2, a, (n - 1) as nat) == resolve_within(
            view.entries,
            r2,
            b,
            (n - 2) as nat,
        ));
        assert(resolve_within(view.entries, r2, origin, n) == resolve_within(
            view.entries,
            r2,
            a,
            (n - 1) as nat,
        ));
    }
}

/// What a name resolves to is one of the entries.
proof fn lemma_lookup_is_entry(entries: Seq<Seq<char>>, name: Seq<char>)
    ensures
        match lookup(entries, name) {
            Some(path) => answers_to(path, name) && exists|i: int|
                0 <= i < entries.len() && #[trigger] entries[i] == path,
            None => forall|i: int|
                0 <= i < entries.len() ==> !answers_to(#[trigger] entries[i], name),
        },
    decreases entries.len(),
{
    if entries.len() > 0 {
        if answers_to(entries.last(), name) {
            assert(entries[entries.len() - 1] == entries.last());
        } else {
            let rest = entries.drop_last();
            lemma_lookup_is_entry(rest, name);
            match lookup(rest, name) {
                Some(path) => {
                    let i = choose|i: int| 0 <= i < rest.len() && #[trigger] rest[i] == path;
                    assert(entries[i] == path);
                },
                None => {
                    assert forall|i: int| 0 <= i < entries.len() implies !answers_to(
                        #[trigger] entries[i],
                        name,
                    ) by {
                        if i < rest.len() {
                            assert(entries[i] == rest[i]);
                        }
                    }
                },
            }
        }
    }
}

/// Whatever a name resolves to within some number of redirects is one of
/// the entries.
proof fn lemma_resolution_within_is_entry(
    entries: Seq<Seq<char>>,
    redirects: Seq<(Seq<char>, Seq<char>)>,
    name: Seq<char>,
    fuel: nat,
)
    ensures
        resolve_within(entries, redirects, name, fuel) matches Ok(path) ==> exists|i: int|
            0 <= i < entries.len() && #[trigger] entries[i] == path,
    decreases fuel,
{
    match redirect_target(redirects, name) {
        Some(target) => {
            if fuel > 0 {
                lemma_resolution_within_is_entry(entries, redirects, target, (fuel - 1) as nat);
            }
        },
        None => {
            lemma_lookup_is_entry(entries, name);
        },
    }
}

/// Whatever a name resolves to is one of the entries.
proof fn lemma_resolution_is_entry(
    entries: Seq<Seq<char>>,
    redirects: Seq<(Seq<char>, Seq<char>)>,
    name: Seq<char>,
)
    ensures
        resolve_spec(entries, redirects, name) matches Ok(path) ==> exists|i: int|
            0 <= i < entries.len() && #[trigger] entries[i] == path,
{
    lemma_resolution_within_is_entry(entries, redirects, name, redirects.len());
}

} // verus!
