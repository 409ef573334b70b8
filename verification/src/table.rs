//! Delimiter-separated text, as the catalog's persistence file holds it.
use crate::text::texts;
use vstd::prelude::*;

verus! {

/// Where the last piece of `s` starts when `mark` parts it: just behind the
/// last `mark`, or at 0 when there is none.
pub open spec fn piece_start(s: Seq<char>, mark: char) -> int
    decreases s.len(),
{
    if s.len() == 0 {
        0
    } else if s.last() == mark {
        s.len() as int
    } else {
        piece_start(s.drop_last(), mark)
    }
}

/// The pieces into which `mark` parts `s`, in order, without the empty ones.
pub open spec fn pieces(s: Seq<char>, mark: char) -> Seq<Seq<char>>
    decreases s.len(),
    via pieces_decreases
{
    if s.len() == 0 {
        Seq::empty()
    } else {
        let k = piece_start(s, mark);
        let head = if k > 0 {
            pieces(s.subrange(0, k - 1), mark)
        } else {
            Seq::empty()
        };
        let last = s.subrange(k, s.len() as int);
        if last.len() > 0 {
            head.push(last)
        } else {
            head
        }
    }
}

#[via_fn]
proof fn pieces_decreases(s: Seq<char>, mark: char) {
    lemma_piece_start(s, mark);
}

/// The last piece starts inside the text, holds no `mark`, and has a `mark`
/// (or the start of the text) just before it.
pub proof fn lemma_piece_start(s: Seq<char>, mark: char)
    ensures
        0 <= piece_start(s, mark) <= s.len(),
        forall|j: int| piece_start(s, mark) <= j < s.len() ==> #[trigger] s[j] != mark,
        piece_start(s, mark) > 0 ==> s[piece_start(s, mark) - 1] == mark,
    decreases s.len(),
{
    if s.len() > 0 && s.last() != mark {
        let t = s.drop_last();
        lemma_piece_start(t, mark);
        assert forall|j: int| piece_start(s, mark) <= j < s.len() implies #[trigger] s[j]
            != mark by {
            if j < t.len() {
                assert(s[j] == t[j]);
            }
        }
        if piece_start(s, mark) > 0 {
            assert(s[piece_start(s, mark) - 1] == t[piece_start(t, mark) - 1]);
        }
    }
}

/// A position with no `mark` behind it, and a `mark` (or the start of the
/// text) just before it, is where the last piece starts.
pub proof fn lemma_piece_start_unique(s: Seq<char>, mark: char, k: int)
    requires
        0 <= k <= s.len(),
        forall|j: int| k <= j < s.len() ==> #[trigger] s[j] != mark,
        k > 0 ==> s[k - 1] == mark,
    ensures
        piece_start(s, mark) == k,
    decreases s.len(),
{
    if s.len() > 0 {
        if s.last() == mark {
            assert(k == s.len());
        } else {
            assert(k < s.len());
            lemma_piece_start_unique(s.drop_last(), mark, k);
        }
    }
}

/// The rows of the table that `content` spells when `separator` parts the
/// fields: its lines, without the empty ones, and of each line its fields,
/// without the empty ones.
pub open spec fn csv_rows(content: Seq<char>, separator: char) -> Seq<Seq<Seq<char>>> {
    let lines = pieces(content, '\n');
    Seq::new(lines.len(), |i: int| pieces(lines[i], separator))
}

/// The views of the fields of each row.
pub open spec fn field_texts(rows: Seq<Vec<String>>) -> Seq<Seq<Seq<char>>> {
    Seq::new(rows.len(), |i: int| texts(rows[i]@))
}

/// Parses `content` with a `pro_csv::CSV` whose separator is `separator`
/// (`CSV::default`, `CSV::set_sperator_char`, `CSV::load`) and hands out its
/// rows (`CSV::get_all`): `load` parts the text at every line feed and each
/// line at every separator, and keeps the pieces that are not empty.
#[verifier::external_body]
pub(crate) fn parse_rows(content: &str, separator: char) -> (rows: Vec<Vec<String>>)
    ensures
        field_texts(rows@) == csv_rows(content@, separator),
{
    let mut csv = pro_csv::CSV::default();
    csv.set_sperator_char(separator);
    csv.load(content);
    csv.get_all()
}

} // verus!
