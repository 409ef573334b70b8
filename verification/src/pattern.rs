//! Filters on text, written as regular expressions.
use crate::text::texts;
use vstd::prelude::*;

verus! {

/// Whether `regex::Regex::new` accepts `pattern`.
pub uninterp spec fn pattern_valid(pattern: Seq<char>) -> bool;

/// Whether the expression compiled from `pattern` finds a match somewhere in
/// `text` (`regex::Regex::is_match`).
pub uninterp spec fn pattern_matches(pattern: Seq<char>, text: Seq<char>) -> bool;

/// Compiles `pattern` with `regex::Regex::new` and asks `Regex::is_match`
/// whether it matches anywhere in `text`. `None` stands for a pattern that
/// does not compile. Both answers depend on the two texts alone; that is all
/// the contract claims.
#[verifier::external_body]
pub(crate) fn regex_match(pattern: &str, text: &str) -> (r: Option<bool>)
    ensures
        r is Some <==> pattern_valid(pattern@),
        r is Some ==> r.unwrap() == pattern_matches(pattern@, text@),
{
    match regex::Regex::new(pattern) {
        Ok(expression) => Some(expression.is_match(text)),
        Err(_) => None,
    }
}

/// The members of `paths` whose mark is set, in their order.
pub open spec fn marked(paths: Seq<Seq<char>>, marks: Seq<bool>) -> Seq<Seq<char>>
    decreases paths.len(),
{
    if paths.len() == 0 {
        Seq::empty()
    } else {
        let rest = marked(paths.drop_last(), marks.drop_last());
        if marks.last() {
            rest.push(paths.last())
        } else {
            rest
        }
    }
}

/// Keeps the paths whose mark is set.
pub fn keep_marked(paths: &Vec<String>, marks: &Vec<bool>) -> (kept: Vec<String>)
    requires
        marks@.len() == paths@.len(),
    ensures
        texts(kept@) == marked(texts(paths@), marks@),
{
    let mut kept: Vec<String> = Vec::new();
    let mut i: usize = 0;
    proof {
        assert(texts(kept@) =~= marked(texts(paths@).take(0), marks@.take(0)));
    }
    while i < paths.len()
        invariant
            i <= paths@.len(),
            marks@.len() == paths@.len(),
            texts(kept@) == marked(texts(paths@).take(i as int), marks@.take(i as int)),
        decreases paths.len() - i,
    {
        let ghost before = texts(kept@);
        if marks[i] {
            kept.push(paths[i].clone());
            proof {
                assert(texts(kept@) =~= before.push(paths@[i as int]@));
            }
        }
        proof {
            let p = texts(paths@).take(i + 1);
            let m = marks@.take(i + 1);
            assert(p.drop_last() == texts(paths@).take(i as int));
            assert(m.drop_last() == marks@.take(i as int));
            assert(p.last() == paths@[i as int]@);
            assert(m.last() == marks@[i as int]);
        }
        i += 1;
    }
    proof {
        assert(texts(paths@).take(i as int) == texts(paths@));
        assert(marks@.take(i as int) == marks@);
    }
    kept
}

/// Whether `pattern` is a regular expression that compiles.
pub fn is_valid_pattern(pattern: &str) -> (r: bool)
    ensures
        r == pattern_valid(pattern@),
{
    regex_match(pattern, "").is_some()
}

} // verus!
