//! Structured documents: the redirect and dependency documents, read
//! through the `json` crate.
use crate::text::{chars_of, opt_text};
use vstd::prelude::*;

verus! {

/// `json::JsonValue`: a value of a document. Nothing of its inside is
/// visible here; what it holds is named by `json_entries`, `json_members`
/// and `json_text`.
#[verifier::external_type_specification]
#[verifier::external_body]
pub struct ExJsonValue(json::JsonValue);

/// `json::Error`: why a text is no document.
#[verifier::external_type_specification]
#[verifier::external_body]
pub struct ExJsonError(json::Error);

/// The value that `json::parse` reads out of `text`; `None` where it
/// refuses the text.
pub uninterp spec fn json_parsed(text: Seq<char>) -> Option<json::JsonValue>;

/// The keys and values that an object holds, in the order in which
/// `JsonValue::entries` walks them; empty for any other value.
pub uninterp spec fn json_entries(value: json::JsonValue) -> Seq<(Seq<char>, json::JsonValue)>;

/// The members that an array holds, in the order in which
/// `JsonValue::members` walks them; empty for any other value.
pub uninterp spec fn json_members(value: json::JsonValue) -> Seq<json::JsonValue>;

/// The text of a string value (`JsonValue::as_str`); `None` for any other
/// value.
pub uninterp spec fn json_text(value: json::JsonValue) -> Option<Seq<char>>;

/// How many digits in a row a text may hold to be handed to the parser,
/// which counts the digits of a fraction in sixteen bits.
pub const MAX_DIGIT_RUN: usize = 32767;

/// Whether `c` is one of the digits `0` to `9`.
pub open spec fn is_digit(c: char) -> bool {
    '0' <= c && c <= '9'
}

/// How many digits stand in a row at the end of `s`.
pub open spec fn digit_run(s: Seq<char>) -> nat
    decreases s.len(),
{
    if s.len() == 0 || !is_digit(s.last()) {
        0
    } else {
        digit_run(s.drop_last()) + 1
    }
}

/// Whether `s` holds no more than `MAX_DIGIT_RUN` digits in a row anywhere.
pub open spec fn digits_fit(s: Seq<char>) -> bool {
    forall|k: int| 0 <= k <= s.len() ==> digit_run(#[trigger] s.subrange(0, k)) <= MAX_DIGIT_RUN
}

/// Parses `text` with `json::parse`. Whether it is accepted, and the value
/// it then stands for, depends on the text alone. A text with more digits in
/// a row than `MAX_DIGIT_RUN` is left out: on the fraction of such a number
/// the parser's count of digits overflows.
#[verifier::external_body]
pub(crate) fn parse_document(text: &str) -> (r: Result<json::JsonValue, json::Error>)
    requires
        digits_fit(text@),
    ensures
        match r {
            Ok(value) => json_parsed(text@) == Some(value),
            Err(_) => json_parsed(text@) is None,
        },
{
    json::parse(text)
}

/// Hands out what `JsonValue::entries` walks: each key with a copy of its
/// value, in order.
#[verifier::external_body]
pub(crate) fn entries_of(value: &json::JsonValue) -> (r: Vec<(String, json::JsonValue)>)
    ensures
        r@.len() == json_entries(*value).len(),
        forall|i: int|
            0 <= i < r@.len() ==> (#[trigger] r@[i]).0@ == json_entries(*value)[i].0 && r@[i].1
                == json_entries(*value)[i].1,
{
    value.entries().map(|(key, entry)| (key.to_string(), entry.clone())).collect()
}

/// Hands out what `JsonValue::members` walks: a copy of each member, in
/// order.
#[verifier::external_body]
pub(crate) fn members_of(value: &json::JsonValue) -> (r: Vec<json::JsonValue>)
    ensures
        r@ == json_members(*value),
{
    value.members().map(|member| member.clone()).collect()
}

/// `JsonValue::as_str`: the text of a string value.
#[verifier::external_body]
pub(crate) fn text_in(value: &json::JsonValue) -> (r: Option<String>)
    ensures
        opt_text(r) == json_text(*value),
{
    value.as_str().map(|text| text.to_string())
}

/// The document that `text` stands for: what the parser reads out of it,
/// where it holds no more than `MAX_DIGIT_RUN` digits in a row. Any other
/// text is refused.
pub open spec fn document_of(text: Seq<char>) -> Option<json::JsonValue> {
    if digits_fit(text) {
        json_parsed(text)
    } else {
        None
    }
}

/// Whether `text` holds no more than `MAX_DIGIT_RUN` digits in a row.
pub fn has_short_digit_runs(text: &str) -> (r: bool)
    ensures
        r == digits_fit(text@),
{
    let chars = chars_of(text);
    let mut run: usize = 0;
    let mut i: usize = 0;
    proof {
        assert(chars@.subrange(0, 0).len() == 0);
    }
    while i < chars.len()
        invariant
            i <= chars@.len(),
            chars@ == text@,
            run == digit_run(chars@.subrange(0, i as int)),
            run <= MAX_DIGIT_RUN,
            forall|k: int|
                0 <= k <= i ==> digit_run(#[trigger] chars@.subrange(0, k)) <= MAX_DIGIT_RUN,
        decreases chars.len() - i,
    {
        proof {
            let upto = chars@.subrange(0, i + 1);
            assert(upto.drop_last() == chars@.subrange(0, i as int));
            assert(upto.last() == chars@[i as int]);
        }
        if '0' <= chars[i] && chars[i] <= '9' {
            if run == MAX_DIGIT_RUN {
                return false;
            }
            run += 1;
        } else {
            run = 0;
        }
        i += 1;
    }
    true
}

/// Reads the document that `text` stands for.
pub(crate) fn read_document(text: &str) -> (r: Option<json::JsonValue>)
    ensures
        r == document_of(text@),
{
    if !has_short_digit_runs(text) {
        return None;
    }
    match parse_document(text) {
        Ok(document) => Some(document),
        Err(_) => None,
    }
}

/// The value under the first key of `entries` that is `key`.
pub open spec fn section(entries: Seq<(Seq<char>, json::JsonValue)>, key: Seq<char>) -> Option<
    json::JsonValue,
>
    decreases entries.len(),
{
    if entries.len() == 0 {
        None
    } else if entries[0].0 == key {
        Some(entries[0].1)
    } else {
        section(entries.drop_first(), key)
    }
}

/// The texts of `members`, where each of them is a string.
pub open spec fn member_texts(members: Seq<json::JsonValue>) -> Option<Seq<Seq<char>>>
    decreases members.len(),
{
    if members.len() == 0 {
        Some(Seq::empty())
    } else {
        match (member_texts(members.drop_last()), json_text(members.last())) {
            (Some(rest), Some(text)) => Some(rest.push(text)),
            _ => None,
        }
    }
}

/// The value under the first key of `value` that is `key`.
pub(crate) fn find_section(value: &json::JsonValue, key: &str) -> (r: Option<json::JsonValue>)
    ensures
        r == section(json_entries(*value), key@),
{
    let mut entries = entries_of(value);
    let ghost all = json_entries(*value);
    let mut i: usize = 0;
    let total = entries.len();
    proof {
        assert(all.skip(0) == all);
    }
    while i < total
        invariant
            i <= total,
            total == all.len(),
            all == json_entries(*value),
            entries@.len() == total,
            forall|j: int|
                i <= j < total ==> (#[trigger] entries@[j]).0@ == all[j].0 && entries@[j].1
                    == all[j].1,
            section(all.skip(i as int), key@) == section(all, key@),
        decreases total - i,
    {
        proof {
            let rest = all.skip(i as int);
            assert(rest[0] == all[i as int]);
            assert(rest.drop_first() == all.skip(i + 1));
        }
        if *entries[i].0.as_str() == *key {
            assert(entries@[i as int].1 == all[i as int].1);
            let found = entries.swap_remove(i);
            return Some(found.1);
        }
        i += 1;
    }
    proof {
        assert(all.skip(i as int).len() == 0);
    }
    None
}

/// The texts of the members of `value`, where each of them is a string.
pub(crate) fn texts_of_members(value: &json::JsonValue) -> (r: Option<Vec<String>>)
    ensures
        match member_texts(json_members(*value)) {
            Some(found) => r matches Some(list) && crate::text::texts(list@) == found,
            None => r is None,
        },
{
    let members = members_of(value);
    let mut list: Vec<String> = Vec::new();
    let mut i: usize = 0;
    proof {
        assert(members@.take(0) =~= Seq::empty());
        assert(crate::text::texts(list@) =~= Seq::empty());
    }
    while i < members.len()
        invariant
            i <= members@.len(),
            members@ == json_members(*value),
            member_texts(members@.take(i as int)) == Some(crate::text::texts(list@)),
        decreases members.len() - i,
    {
        let ghost before = crate::text::texts(list@);
        proof {
            let upto = members@.take(i + 1);
            assert(upto.drop_last() == members@.take(i as int));
            assert(upto.last() == members@[i as int]);
        }
        match text_in(&members[i]) {
            Some(text) => {
                list.push(text);
                proof {
                    assert(crate::text::texts(list@) =~= before.push(text@));
                }
            },
            None => {
                proof {
                    lemma_member_texts_stay_none(members@, i + 1);
                    assert(members@.take(members@.len() as int) == members@);
                }
                return None;
            },
        }
        i += 1;
    }
    proof {
        assert(members@.take(i as int) == members@);
    }
    Some(list)
}

/// Once a member is not a string, no longer list of members has texts.
proof fn lemma_member_texts_stay_none(members: Seq<json::JsonValue>, k: int)
    requires
        0 <= k <= members.len(),
        member_texts(members.take(k)) is None,
    ensures
        member_texts(members.take(members.len() as int)) is None,
    decreases members.len() - k,
{
    if k < members.len() {
        let upto = members.take(k + 1);
        assert(upto.drop_last() == members.take(k));
        lemma_member_texts_stay_none(members, k + 1);
    }
}

/// The keys of `entries` with the texts of their values, where each value
/// is a string.
pub open spec fn entry_texts(entries: Seq<(Seq<char>, json::JsonValue)>) -> Option<
    Seq<(Seq<char>, Seq<char>)>,
>
    decreases entries.len(),
{
    if entries.len() == 0 {
        Some(Seq::empty())
    } else {
        match (entry_texts(entries.drop_last()), json_text(entries.last().1)) {
            (Some(rest), Some(text)) => Some(rest.push((entries.last().0, text))),
            _ => None,
        }
    }
}

/// The keys of `entries` with the texts of the members of their values,
/// where each member is a string.
pub open spec fn entry_lists(entries: Seq<(Seq<char>, json::JsonValue)>) -> Option<
    Seq<(Seq<char>, Seq<Seq<char>>)>,
>
    decreases entries.len(),
{
    if entries.len() == 0 {
        Some(Seq::empty())
    } else {
        match (entry_lists(entries.drop_last()), member_texts(json_members(entries.last().1))) {
            (Some(rest), Some(list)) => Some(rest.push((entries.last().0, list))),
            _ => None,
        }
    }
}

/// The pairs of names that the section `key` of the document `text` maps
/// to one another. A document without that section holds none; a text that
/// is no document, a text with too many digits in a row, and a section with
/// a value that is no string are refused.
pub open spec fn document_pairs(text: Seq<char>, key: Seq<char>) -> Option<
    Seq<(Seq<char>, Seq<char>)>,
> {
    match document_of(text) {
        None => None,
        Some(document) => match section(json_entries(document), key) {
            None => Some(Seq::empty()),
            Some(part) => entry_texts(json_entries(part)),
        },
    }
}

/// The names that the section `key` of the document `text` maps to lists
/// of names.
pub open spec fn document_lists(text: Seq<char>, key: Seq<char>) -> Option<
    Seq<(Seq<char>, Seq<Seq<char>>)>,
> {
    match document_of(text) {
        None => None,
        Some(document) => match section(json_entries(document), key) {
            None => Some(Seq::empty()),
            Some(part) => entry_lists(json_entries(part)),
        },
    }
}

/// The views of a list of pairs of names.
pub open spec fn pair_texts(pairs: Seq<(String, String)>) -> Seq<(Seq<char>, Seq<char>)> {
    Seq::new(pairs.len(), |i: int| (pairs[i].0@, pairs[i].1@))
}

/// The views of a list of names with their lists.
pub open spec fn list_texts(lists: Seq<(String, Vec<String>)>) -> Seq<(Seq<char>, Seq<Seq<char>>)> {
    Seq::new(lists.len(), |i: int| (lists[i].0@, crate::text::texts(lists[i].1@)))
}

/// Once a value is not a string, no longer list of entries has texts.
proof fn lemma_entry_texts_stay_none(entries: Seq<(Seq<char>, json::JsonValue)>, k: int)
    requires
        0 <= k <= entries.len(),
        entry_texts(entries.take(k)) is None,
    ensures
        entry_texts(entries) is None,
    decreases entries.len() - k,
{
    if k < entries.len() {
        let upto = entries.take(k + 1);
        assert(upto.drop_last() == entries.take(k));
        lemma_entry_texts_stay_none(entries, k + 1);
    } else {
        assert(entries.take(k) == entries);
    }
}

/// Once a value holds a member that is not a string, no longer list of
/// entries has lists.
proof fn lemma_entry_lists_stay_none(entries: Seq<(Seq<char>, json::JsonValue)>, k: int)
    requires
        0 <= k <= entries.len(),
        entry_lists(entries.take(k)) is None,
    ensures
        entry_lists(entries) is None,
    decreases entries.len() - k,
{
    if k < entries.len() {
        let upto = entries.take(k + 1);
        assert(upto.drop_last() == entries.take(k));
        lemma_entry_lists_stay_none(entries, k + 1);
    } else {
        assert(entries.take(k) == entries);
    }
}

/// Reads the pairs of names that the section `key` of the document `text`
/// maps to one another.
pub fn read_pairs(text: &str, key: &str) -> (r: Option<Vec<(String, String)>>)
    ensures
        match document_pairs(text@, key@) {
            Some(found) => r matches Some(pairs) && pair_texts(pairs@) == found,
            None => r is None,
        },
{
    let document = match read_document(text) {
        Some(document) => document,
        None => {
            return None;
        },
    };
    let mut pairs: Vec<(String, String)> = Vec::new();
    proof {
        assert(pair_texts(pairs@) =~= Seq::empty());
    }
    let part = match find_section(&document, key) {
        Some(part) => part,
        None => {
            return Some(pairs);
        },
    };
    let entries = entries_of(&part);
    let ghost all = json_entries(part);
    let mut i: usize = 0;
    proof {
        assert(all.take(0) =~= Seq::empty());
    }
    while i < entries.len()
        invariant
            i <= entries@.len(),
            entries@.len() == all.len(),
            document_pairs(text@, key@) == entry_texts(all),
            forall|j: int|
                0 <= j < all.len() ==> (#[trigger] entries@[j]).0@ == all[j].0 && entries@[j].1
                    == all[j].1,
            entry_texts(all.take(i as int)) == Some(pair_texts(pairs@)),
        decreases entries.len() - i,
    {
        let ghost before = pair_texts(pairs@);
        proof {
            let upto = all.take(i + 1);
            assert(upto.drop_last() == all.take(i as int));
            assert(upto.last() == all[i as int]);
            assert(entries@[i as int].1 == all[i as int].1);
        }
        match text_in(&entries[i].1) {
            Some(text) => {
                pairs.push((entries[i].0.clone(), text));
                proof {
                    assert(pair_texts(pairs@) =~= before.push((all[i as int].0, text@)));
                }
            },
            None => {
                proof {
                    lemma_entry_texts_stay_none(all, i + 1);
                }
                return None;
            },
        }
        i += 1;
    }
    proof {
        assert(all.take(i as int) == all);
    }
    Some(pairs)
}

/// Reads the names that the section `key` of the document `text` maps to
/// lists of names.
pub fn read_lists(text: &str, key: &str) -> (r: Option<Vec<(String, Vec<String>)>>)
    ensures
        match document_lists(text@, key@) {
            Some(found) => r matches Some(lists) && list_texts(lists@) == found,
            None => r is None,
        },
{
    let document = match read_document(text) {
        Some(document) => document,
        None => {
            return None;
        },
    };
    let mut lists: Vec<(String, Vec<String>)> = Vec::new();
    proof {
        assert(list_texts(lists@) =~= Seq::empty());
    }
    let part = match find_section(&document, key) {
        Some(part) => part,
        None => {
            return Some(lists);
        },
    };
    let entries = entries_of(&part);
    let ghost all = json_entries(part);
    let mut i: usize = 0;
    proof {
        assert(all.take(0) =~= Seq::empty());
    }
    while i < entries.len()
        invariant
            i <= entries@.len(),
            entries@.len() == all.len(),
            document_lists(text@, key@) == entry_lists(all),
            forall|j: int|
                0 <= j < all.len() ==> (#[trigger] entries@[j]).0@ == all[j].0 && entries@[j].1
                    == all[j].1,
            entry_lists(all.take(i as int)) == Some(list_texts(lists@)),
        decreases entries.len() - i,
    {
        let ghost before = list_texts(lists@);
        proof {
            let upto = all.take(i + 1);
            assert(upto.drop_last() == all.take(i as int));
            assert(upto.last() == all[i as int]);
            assert(entries@[i as int].1 == all[i as int].1);
        }
        match texts_of_members(&entries[i].1) {
            Some(list) => {
                let ghost found = crate::text::texts(list@);
                lists.push((entries[i].0.clone(), list));
                proof {
                    assert(list_texts(lists@) =~= before.push((all[i as int].0, found)));
                }
            },
            None => {
                proof {
                    lemma_entry_lists_stay_none(all, i + 1);
                }
                return None;
            },
        }
        i += 1;
    }
    proof {
        assert(all.take(i as int) == all);
    }
    Some(lists)
}

} // verus!
