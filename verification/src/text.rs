//! Paths as text: separators, file names, prefixes and suffixes.
//!
//! A path is a sequence of characters. Both `/` and `\` separate its
//! components, on every platform, so that a catalog means the same thing
//! wherever it is read.
use vstd::prelude::*;

verus! {

/// `String::push` appends the character to the end of the string.
pub assume_specification[ String::push ](s: &mut String, c: char)
    ensures
        final(s)@ == old(s)@.push(c),
;

/// `str`'s `==` holds exactly when both slices hold the same characters.
pub assume_specification[ <str as PartialEq>::eq ](a: &str, b: &str) -> (r: bool)
    ensures
        r == (a@ == b@),
;

/// Whether `c` separates two components of a path.
pub open spec fn is_separator(c: char) -> bool {
    c == '/' || c == '\\'
}

/// Whether `s` holds a separator anywhere.
pub open spec fn has_separator(s: Seq<char>) -> bool {
    exists|i: int| 0 <= i < s.len() && is_separator(#[trigger] s[i])
}

/// Where the last component of `s` starts: just behind the last separator,
/// or at 0 when there is none.
pub open spec fn name_start(s: Seq<char>) -> int
    decreases s.len(),
{
    if s.len() == 0 {
        0
    } else if is_separator(s.last()) {
        s.len() as int
    } else {
        name_start(s.drop_last())
    }
}

/// The file name of a path: what follows its last separator.
pub open spec fn basename(s: Seq<char>) -> Seq<char> {
    s.subrange(name_start(s), s.len() as int)
}

/// The directory part of a path: everything up to and including its last
/// separator.
pub open spec fn parent(s: Seq<char>) -> Seq<char> {
    s.subrange(0, name_start(s))
}

/// Whether `s` ends with `suffix`.
pub open spec fn ends_with(s: Seq<char>, suffix: Seq<char>) -> bool {
    suffix.len() <= s.len() && s.subrange(s.len() - suffix.len(), s.len() as int) == suffix
}

/// Whether `s` starts with `prefix`.
pub open spec fn starts_with(s: Seq<char>, prefix: Seq<char>) -> bool {
    prefix.len() <= s.len() && s.subrange(0, prefix.len() as int) == prefix
}

/// Where the last dot of `name` stands; -1 where it holds none.
pub open spec fn dot_position(name: Seq<char>) -> int
    decreases name.len(),
{
    if name.len() == 0 {
        -1
    } else if name.last() == '.' {
        name.len() - 1
    } else {
        dot_position(name.drop_last())
    }
}

/// The extension of a path: what follows the last dot of its file name, where
/// that dot is not the first character of the file name.
pub open spec fn extension(s: Seq<char>) -> Option<Seq<char>> {
    let name = basename(s);
    let dot = dot_position(name);
    if dot <= 0 {
        None
    } else {
        Some(name.subrange(dot + 1, name.len() as int))
    }
}

/// The position of the first entry equal to `path`; the length where there is none.
pub open spec fn first_position(entries: Seq<Seq<char>>, path: Seq<char>) -> int
    decreases entries.len(),
{
    if entries.len() == 0 {
        0
    } else if entries[0] == path {
        0
    } else {
        1 + first_position(entries.drop_first(), path)
    }
}

/// The views of a list of strings.
pub open spec fn texts(v: Seq<String>) -> Seq<Seq<char>> {
    Seq::new(v.len(), |i: int| v[i]@)
}

/// The view of an optional string.
pub open spec fn opt_text(o: Option<String>) -> Option<Seq<char>> {
    match o {
        Some(s) => Some(s@),
        None => None,
    }
}

/// The view of optional bytes.
pub open spec fn opt_bytes(o: Option<Vec<u8>>) -> Option<Seq<u8>> {
    match o {
        Some(b) => Some(b@),
        None => None,
    }
}

/// `name_start` is the one position with no separator behind it and a
/// separator (or the start of the path) just before it.
pub proof fn lemma_name_start(s: Seq<char>)
    ensures
        0 <= name_start(s) <= s.len(),
        forall|j: int| name_start(s) <= j < s.len() ==> !is_separator(#[trigger] s[j]),
        name_start(s) > 0 ==> is_separator(s[name_start(s) - 1]),
    decreases s.len(),
{
    if s.len() > 0 && !is_separator(s.last()) {
        let t = s.drop_last();
        lemma_name_start(t);
        assert forall|j: int| name_start(s) <= j < s.len() implies !is_separator(
            #[trigger] s[j],
        ) by {
            if j < t.len() {
                assert(s[j] == t[j]);
            }
        }
        if name_start(s) > 0 {
            assert(s[name_start(s) - 1] == t[name_start(t) - 1]);
        }
    }
}

/// A position with no separator behind it, and a separator (or the start of
/// the path) just before it, is where the last component starts.
pub proof fn lemma_name_start_unique(s: Seq<char>, k: int)
    requires
        0 <= k <= s.len(),
        forall|j: int| k <= j < s.len() ==> !is_separator(#[trigger] s[j]),
        k > 0 ==> is_separator(s[k - 1]),
    ensures
        name_start(s) == k,
    decreases s.len(),
{
    if s.len() > 0 {
        if is_separator(s.last()) {
            assert(k == s.len());
        } else {
            assert(k < s.len());
            lemma_name_start_unique(s.drop_last(), k);
        }
    }
}

/// A file name holds no separator, and is its own file name.
pub proof fn lemma_basename_is_plain(s: Seq<char>)
    ensures
        !has_separator(basename(s)),
        basename(basename(s)) == basename(s),
{
    lemma_name_start(s);
    let b = basename(s);
    assert forall|j: int| 0 <= j < b.len() implies !is_separator(#[trigger] b[j]) by {
        assert(b[j] == s[name_start(s) + j]);
    }
    lemma_name_start_unique(b, 0);
    assert(b.subrange(0, b.len() as int) == b);
}

/// `first_position` is a position of `path` among the entries, or their
/// number, and `path` stands at no position before it.
pub proof fn lemma_first_position(entries: Seq<Seq<char>>, path: Seq<char>)
    ensures
        0 <= first_position(entries, path) <= entries.len(),
        first_position(entries, path) < entries.len() ==> entries[first_position(entries, path)]
            == path,
        forall|j: int| 0 <= j < first_position(entries, path) ==> #[trigger] entries[j] != path,
    decreases entries.len(),
{
    if entries.len() > 0 && entries[0] != path {
        let rest = entries.drop_first();
        lemma_first_position(rest, path);
        assert forall|j: int| 0 <= j < first_position(entries, path) implies #[trigger] entries[j]
            != path by {
            if j > 0 {
                assert(entries[j] == rest[j - 1]);
            }
        }
    }
}

/// A position of `path` with no `path` before it is its first position.
pub proof fn lemma_first_position_unique(entries: Seq<Seq<char>>, path: Seq<char>, k: int)
    requires
        0 <= k <= entries.len(),
        k < entries.len() ==> entries[k] == path,
        forall|j: int| 0 <= j < k ==> #[trigger] entries[j] != path,
    ensures
        first_position(entries, path) == k,
    decreases entries.len(),
{
    if entries.len() > 0 && entries[0] != path {
        let rest = entries.drop_first();
        assert forall|j: int| 0 <= j < k - 1 implies #[trigger] rest[j] != path by {
            assert(rest[j] == entries[j + 1]);
        }
        lemma_first_position_unique(rest, path, k - 1);
    }
}

/// The characters of `s`, in order.
pub fn chars_of(s: &str) -> (out: Vec<char>)
    ensures
        out@ == s@,
{
    let mut out: Vec<char> = Vec::new();
    for c in it: s.chars()
        invariant
            it.seq() == s@,
            out@ == it.seq().take(it.index() as int),
    {
        out.push(c);
    }
    out
}

/// The string made of `chars[from..to]`.
pub fn text_of(chars: &Vec<char>, from: usize, to: usize) -> (out: String)
    requires
        from <= to <= chars@.len(),
    ensures
        out@ == chars@.subrange(from as int, to as int),
{
    let mut out = String::new();
    let mut i: usize = from;
    while i < to
        invariant
            from <= i <= to <= chars@.len(),
            out@ == chars@.subrange(from as int, i as int),
        decreases to - i,
    {
        out.push(chars[i]);
        proof {
            assert(chars@.subrange(from as int, i as int).push(chars@[i as int])
                == chars@.subrange(from as int, i + 1));
        }
        i += 1;
    }
    out
}

/// Whether `c` separates two components of a path.
pub fn separates(c: char) -> (r: bool)
    ensures
        r == is_separator(c),
{
    c == '/' || c == '\\'
}

/// Whether `s` names a location by a full path rather than by a bare file
/// name.
pub fn contains_separator(s: &str) -> (r: bool)
    ensures
        r == has_separator(s@),
{
    let chars = chars_of(s);
    let mut i: usize = 0;
    while i < chars.len()
        invariant
            i <= chars@.len(),
            chars@ == s@,
            forall|j: int| 0 <= j < i ==> !is_separator(#[trigger] chars@[j]),
        decreases chars.len() - i,
    {
        if separates(chars[i]) {
            return true;
        }
        i += 1;
    }
    false
}

/// Where the file name starts in `chars`.
pub fn find_name_start(chars: &Vec<char>) -> (k: usize)
    ensures
        k == name_start(chars@),
        k <= chars@.len(),
{
    let mut k: usize = chars.len();
    while k > 0 && !separates(chars[k - 1])
        invariant
            k <= chars@.len(),
            forall|j: int| k <= j < chars@.len() ==> !is_separator(#[trigger] chars@[j]),
        decreases k,
    {
        k -= 1;
    }
    proof {
        lemma_name_start_unique(chars@, k as int);
    }
    k
}

/// The file name of `path`.
pub fn file_name(path: &str) -> (name: String)
    ensures
        name@ == basename(path@),
{
    let chars = chars_of(path);
    let k = find_name_start(&chars);
    text_of(&chars, k, chars.len())
}

/// A position of a dot with no dot behind it is the position of the last dot.
proof fn lemma_dot_position_unique(name: Seq<char>, k: int)
    requires
        -1 <= k < name.len(),
        forall|j: int| k < j < name.len() ==> #[trigger] name[j] != '.',
        k >= 0 ==> name[k] == '.',
    ensures
        dot_position(name) == k,
    decreases name.len(),
{
    if name.len() > 0 && name.last() != '.' {
        lemma_dot_position_unique(name.drop_last(), k);
    }
}

/// The extension of `path`.
pub fn extension_of(path: &str) -> (r: Option<String>)
    ensures
        opt_text(r) == extension(path@),
{
    let chars = chars_of(path);
    let start = find_name_start(&chars);
    let mut k: usize = chars.len();
    while k > start && chars[k - 1] != '.'
        invariant
            start <= k <= chars@.len(),
            forall|j: int| k <= j < chars@.len() ==> #[trigger] chars@[j] != '.',
        decreases k,
    {
        k -= 1;
    }
    proof {
        let name = basename(path@);
        assert forall|j: int| k - start - 1 < j < name.len() implies #[trigger] name[j]
            != '.' by {
            assert(name[j] == chars@[start + j]);
        }
        if k > start {
            assert(name[k - start - 1] == chars@[k - 1]);
        }
        lemma_dot_position_unique(name, k - start - 1);
    }
    if k - start <= 1 {
        return None;
    }
    let found = text_of(&chars, k, chars.len());
    proof {
        let name = basename(path@);
        assert(found@ =~= name.subrange(k - start, name.len() as int));
    }
    Some(found)
}

/// The directory part of `path`.
pub fn directory_of(path: &str) -> (directory: String)
    ensures
        directory@ == parent(path@),
{
    let chars = chars_of(path);
    let k = find_name_start(&chars);
    text_of(&chars, 0, k)
}

/// Whether `chars` ends with `suffix`.
pub fn chars_end_with(chars: &Vec<char>, suffix: &Vec<char>) -> (r: bool)
    ensures
        r == ends_with(chars@, suffix@),
{
    if suffix.len() > chars.len() {
        return false;
    }
    let base: usize = chars.len() - suffix.len();
    let mut i: usize = 0;
    while i < suffix.len()
        invariant
            i <= suffix@.len(),
            base + suffix@.len() == chars@.len(),
            chars@.len() <= usize::MAX,
            forall|j: int| 0 <= j < i ==> chars@[base + j] == suffix@[j],
        decreases suffix.len() - i,
    {
        if chars[base + i] != suffix[i] {
            proof {
                let tail = chars@.subrange(chars@.len() - suffix@.len(), chars@.len() as int);
                assert(tail[i as int] == chars@[base + i]);
            }
            return false;
        }
        i += 1;
    }
    proof {
        let tail = chars@.subrange(chars@.len() - suffix@.len(), chars@.len() as int);
        assert(tail =~= suffix@);
    }
    true
}

/// Whether `chars` starts with `prefix`.
pub fn chars_start_with(chars: &Vec<char>, prefix: &Vec<char>) -> (r: bool)
    ensures
        r == starts_with(chars@, prefix@),
{
    if prefix.len() > chars.len() {
        return false;
    }
    let mut i: usize = 0;
    while i < prefix.len()
        invariant
            i <= prefix@.len() <= chars@.len(),
            forall|j: int| 0 <= j < i ==> chars@[j] == prefix@[j],
        decreases prefix.len() - i,
    {
        if chars[i] != prefix[i] {
            proof {
                let head = chars@.subrange(0, prefix@.len() as int);
                assert(head[i as int] == chars@[i as int]);
            }
            return false;
        }
        i += 1;
    }
    proof {
        assert(chars@.subrange(0, prefix@.len() as int) =~= prefix@);
    }
    true
}

} // verus!
