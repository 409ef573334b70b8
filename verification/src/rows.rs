//! Paths as rows of fields: how the catalog's persistence file spells its
//! entries.
use crate::table::{csv_rows, lemma_piece_start_unique, pieces};
use crate::text::{
    chars_of, is_separator, lemma_name_start, lemma_name_start_unique, name_start, separates,
    text_of, texts,
};
use vstd::prelude::*;
use vstd::string::StringExecFns;

verus! {

/// `s` without the carriage return that a line of a file with two-character
/// line ends leaves behind its last field.
pub open spec fn without_return(s: Seq<char>) -> Seq<char> {
    if s.len() > 0 && s.last() == '\r' {
        s.drop_last()
    } else {
        s
    }
}

/// The path that one row of fields stands for: its fields joined by `/`.
pub open spec fn row_path(row: Seq<Seq<char>>) -> Seq<char>
    decreases row.len(),
{
    if row.len() == 0 {
        Seq::empty()
    } else if row.len() == 1 {
        without_return(row[0])
    } else {
        row[0] + seq!['/'] + row_path(row.drop_first())
    }
}

/// The paths that rows of fields stand for; a row without fields stands for none.
pub open spec fn row_paths(rows: Seq<Seq<Seq<char>>>) -> Seq<Seq<char>>
    decreases rows.len(),
{
    if rows.len() == 0 {
        Seq::empty()
    } else {
        let rest = row_paths(rows.drop_last());
        if rows.last().len() == 0 {
            rest
        } else {
            rest.push(row_path(rows.last()))
        }
    }
}

/// The path that `row` stands for.
pub fn path_of_row(row: &Vec<String>) -> (path: String)
    ensures
        path@ == row_path(texts(row@)),
{
    let mut path = String::new();
    let n = row.len();
    if n == 0 {
        return path;
    }
    let mut i: usize = 0;
    proof {
        assert(texts(row@).skip(0) == texts(row@));
    }
    while i < n - 1
        invariant
            i <= n - 1,
            n == row@.len(),
            path@ + row_path(texts(row@).skip(i as int)) == row_path(texts(row@)),
        decreases n - i,
    {
        let ghost before = path@;
        path.append(row[i].as_str());
        path.push('/');
        proof {
            let rest = texts(row@).skip(i as int);
            assert(rest.len() >= 2);
            assert(rest[0] == row@[i as int]@);
            assert(rest.drop_first() == texts(row@).skip(i + 1));
            assert(path@ == before + rest[0] + seq!['/']);
            assert(path@ + row_path(rest.drop_first()) =~= before + (rest[0] + seq!['/']
                + row_path(rest.drop_first())));
        }
        i += 1;
    }
    let chars = chars_of(row[n - 1].as_str());
    let end: usize = if chars.len() > 0 && chars[chars.len() - 1] == '\r' {
        chars.len() - 1
    } else {
        chars.len()
    };
    let last = text_of(&chars, 0, end);
    path.append(last.as_str());
    proof {
        let rest = texts(row@).skip(i as int);
        assert(rest.len() == 1);
        assert(rest[0] == row@[n - 1]@);
        assert(last@ =~= without_return(rest[0]));
    }
    path
}

/// Whether a component of a path becomes a field of its row: an empty
/// component and the current directory do not.
pub open spec fn keeps_field(component: Seq<char>) -> bool {
    component.len() > 0 && component != seq!['.']
}

/// The components of `s` that become fields: those of its directory part,
/// then its file name.
pub open spec fn split_fields(s: Seq<char>) -> Seq<Seq<char>>
    decreases s.len(),
    via split_fields_decreases
{
    if s.len() == 0 {
        Seq::empty()
    } else {
        let k = name_start(s);
        let head = if k > 0 {
            split_fields(s.subrange(0, k - 1))
        } else {
            Seq::empty()
        };
        let last = s.subrange(k, s.len() as int);
        if keeps_field(last) {
            head.push(last)
        } else {
            head
        }
    }
}

#[via_fn]
proof fn split_fields_decreases(s: Seq<char>) {
    lemma_name_start(s);
}

/// The fields of the row that stands for `path`: a `/` for the root where the
/// path starts with a separator, then its components.
pub open spec fn path_fields(path: Seq<char>) -> Seq<Seq<char>> {
    if path.len() > 0 && is_separator(path[0]) {
        seq![seq!['/']] + split_fields(path)
    } else {
        split_fields(path)
    }
}

/// `fields` with `separator` between each two of them.
pub open spec fn joined(fields: Seq<Seq<char>>, separator: char) -> Seq<char>
    decreases fields.len(),
{
    if fields.len() == 0 {
        Seq::empty()
    } else if fields.len() == 1 {
        fields[0]
    } else {
        joined(fields.drop_last(), separator) + seq![separator] + fields.last()
    }
}

/// The text of the persistence file: one line per entry, in their order.
pub open spec fn catalog_text(entries: Seq<Seq<char>>, separator: char) -> Seq<char>
    decreases entries.len(),
{
    if entries.len() == 0 {
        Seq::empty()
    } else {
        catalog_text(entries.drop_last(), separator) + joined(
            path_fields(entries.last()),
            separator,
        ) + seq!['\n']
    }
}

/// The fields of the row that stands for `path`.
pub fn fields_of(path: &str) -> (fields: Vec<String>)
    ensures
        texts(fields@) == path_fields(path@),
{
    let chars = chars_of(path);
    let mut fields: Vec<String> = Vec::new();
    let ghost root: Seq<Seq<char>> = if chars@.len() > 0 && is_separator(chars@[0]) {
        seq![seq!['/']]
    } else {
        Seq::empty()
    };
    if chars.len() > 0 && separates(chars[0]) {
        fields.push("/".to_owned());
        proof {
            reveal_strlit("/");
            assert("/"@ =~= seq!['/']);
            assert(texts(fields@) =~= root);
        }
    } else {
        proof {
            assert(texts(fields@) =~= root);
        }
    }
    let mut start: usize = 0;
    let mut i: usize = 0;
    while i < chars.len()
        invariant
            start <= i <= chars@.len(),
            chars@ == path@,
            forall|j: int| start <= j < i ==> !is_separator(#[trigger] chars@[j]),
            start > 0 ==> is_separator(chars@[start - 1]),
            texts(fields@) == root + if start > 0 {
                split_fields(chars@.subrange(0, start - 1))
            } else {
                Seq::empty()
            },
        decreases chars.len() - i,
    {
        if separates(chars[i]) {
            let ghost before = texts(fields@);
            let ghost upto = chars@.subrange(0, i as int);
            proof {
                if i > 0 {
                    lemma_name_start_unique(upto, start as int);
                    if start > 0 {
                        assert(upto.subrange(0, start - 1) == chars@.subrange(0, start - 1));
                    }
                }
            }
            if i > start {
                let piece = text_of(&chars, start, i);
                proof {
                    assert(piece@ == upto.subrange(start as int, i as int));
                }
                if !(i - start == 1 && chars[start] == '.') {
                    proof {
                        assert(piece@.len() == i - start);
                        if piece@ == seq!['.'] {
                            assert(piece@[0] == chars@[start as int]);
                        }
                        assert(keeps_field(piece@));
                    }
                    fields.push(piece);
                    proof {
                        assert(texts(fields@) =~= before.push(piece@));
                    }
                } else {
                    proof {
                        assert(piece@ =~= seq!['.']);
                    }
                }
            } else {
                proof {
                    assert(upto.subrange(start as int, i as int).len() == 0);
                }
            }
            proof {
                assert(chars@.subrange(0, i + 1 - 1) == upto);
                assert(texts(fields@) =~= root + split_fields(upto));
            }
            start = i + 1;
        }
        i += 1;
    }
    let ghost before = texts(fields@);
    proof {
        if chars@.len() > 0 {
            lemma_name_start_unique(chars@, start as int);
        }
    }
    if i > start {
        let piece = text_of(&chars, start, i);
        if !(i - start == 1 && chars[start] == '.') {
            proof {
                assert(piece@.len() == i - start);
                if piece@ == seq!['.'] {
                    assert(piece@[0] == chars@[start as int]);
                }
                assert(keeps_field(piece@));
            }
            fields.push(piece);
            proof {
                assert(texts(fields@) =~= before.push(piece@));
            }
        } else {
            proof {
                assert(piece@ =~= seq!['.']);
            }
        }
    } else {
        proof {
            assert(chars@.subrange(start as int, i as int).len() == 0);
        }
    }
    proof {
        assert(texts(fields@) =~= path_fields(path@));
    }
    fields
}

/// `fields` with `separator` between each two of them.
pub fn join_fields(fields: &Vec<String>, separator: char) -> (line: String)
    ensures
        line@ == joined(texts(fields@), separator),
{
    let mut line = String::new();
    let mut i: usize = 0;
    proof {
        assert(texts(fields@).take(0) =~= Seq::empty());
    }
    while i < fields.len()
        invariant
            i <= fields@.len(),
            line@ == joined(texts(fields@).take(i as int), separator),
        decreases fields.len() - i,
    {
        if i > 0 {
            line.push(separator);
        }
        line.append(fields[i].as_str());
        proof {
            let upto = texts(fields@).take(i + 1);
            assert(upto.drop_last() == texts(fields@).take(i as int));
            assert(upto.last() == fields@[i as int]@);
            if i == 0 {
                assert(upto.len() == 1);
                assert(line@ =~= upto[0]);
            }
        }
        i += 1;
    }
    proof {
        assert(texts(fields@).take(i as int) == texts(fields@));
    }
    line
}

/// Whether `field` can stand in a table whose fields `mark` parts: it is
/// not empty and holds no `mark`.
pub open spec fn is_plain(field: Seq<char>, mark: char) -> bool {
    field.len() > 0 && forall|j: int| 0 <= j < field.len() ==> #[trigger] field[j] != mark
}

/// The lines that spell `rows`: of each row its fields with `separator`
/// between them.
pub open spec fn table_lines(rows: Seq<Seq<Seq<char>>>, separator: char) -> Seq<Seq<char>> {
    Seq::new(rows.len(), |i: int| joined(rows[i], separator))
}

/// The text that spells `rows`: their lines with a line feed between each
/// two of them.
pub open spec fn table_text(rows: Seq<Seq<Seq<char>>>, separator: char) -> Seq<char> {
    joined(table_lines(rows, separator), '\n')
}

/// Whether `rows` can be spelled as a table: every row has a field, every
/// field is plain, and no last field ends in a carriage return.
pub open spec fn is_table_of(rows: Seq<Seq<Seq<char>>>, separator: char) -> bool {
    forall|i: int|
        0 <= i < rows.len() ==> {
            &&& (#[trigger] rows[i]).len() > 0
            &&& rows[i].last().last() != '\r'
            &&& forall|j: int|
                0 <= j < rows[i].len() ==> is_plain(#[trigger] rows[i][j], separator) && is_plain(
                    rows[i][j],
                    '\n',
                )
        }
}

/// Plain fields joined by their mark are parted into the same fields again.
proof fn lemma_pieces_of_joined(fields: Seq<Seq<char>>, mark: char)
    requires
        forall|i: int| 0 <= i < fields.len() ==> is_plain(#[trigger] fields[i], mark),
    ensures
        pieces(joined(fields, mark), mark) == fields,
    decreases fields.len(),
{
    let s = joined(fields, mark);
    if fields.len() == 0 {
        assert(pieces(s, mark) =~= fields);
    } else if fields.len() == 1 {
        assert(is_plain(fields[0], mark));
        lemma_piece_start_unique(s, mark, 0);
        assert(s.subrange(0, s.len() as int) == s);
        assert(pieces(s, mark) =~= fields);
    } else {
        let front = fields.drop_last();
        let head = joined(front, mark);
        let last = fields.last();
        assert(is_plain(last, mark));
        assert forall|i: int| 0 <= i < front.len() implies is_plain(#[trigger] front[i], mark) by {
            assert(front[i] == fields[i]);
        }
        lemma_pieces_of_joined(front, mark);
        let k = head.len() + 1;
        assert(s == head + seq![mark] + last);
        assert forall|j: int| k <= j < s.len() implies #[trigger] s[j] != mark by {
            assert(s[j] == last[j - k]);
        }
        assert(s[k - 1] == mark);
        lemma_piece_start_unique(s, mark, k as int);
        assert(s.subrange(0, k - 1) == head);
        assert(s.subrange(k as int, s.len() as int) == last);
        assert(front.push(last) == fields);
    }
}

/// Fields that hold no `mark`, joined by another character, hold no `mark`.
proof fn lemma_joined_is_plain(fields: Seq<Seq<char>>, separator: char, mark: char)
    requires
        fields.len() > 0,
        separator != mark,
        forall|i: int| 0 <= i < fields.len() ==> is_plain(#[trigger] fields[i], mark),
    ensures
        is_plain(joined(fields, separator), mark),
    decreases fields.len(),
{
    let s = joined(fields, separator);
    if fields.len() == 1 {
        assert(is_plain(fields[0], mark));
    } else {
        let front = fields.drop_last();
        let head = joined(front, separator);
        let last = fields.last();
        assert(is_plain(last, mark));
        assert forall|i: int| 0 <= i < front.len() implies is_plain(#[trigger] front[i], mark) by {
            assert(front[i] == fields[i]);
        }
        lemma_joined_is_plain(front, separator, mark);
        assert(s == head + seq![separator] + last);
        assert forall|j: int| 0 <= j < s.len() implies #[trigger] s[j] != mark by {
            if j < head.len() {
                assert(s[j] == head[j]);
            } else if j == head.len() {
                assert(s[j] == separator);
            } else {
                assert(s[j] == last[j - head.len() - 1]);
            }
        }
    }
}

/// Joining from the front gives what joining from the back gives.
proof fn lemma_joined_front(fields: Seq<Seq<char>>, separator: char)
    requires
        fields.len() >= 2,
    ensures
        joined(fields, separator) == fields[0] + seq![separator] + joined(
            fields.drop_first(),
            separator,
        ),
    decreases fields.len(),
{
    let front = fields.drop_last();
    let rest = fields.drop_first();
    if fields.len() == 2 {
        assert(front.len() == 1 && rest.len() == 1);
        assert(front[0] == fields[0]);
        assert(rest[0] == fields[1]);
        assert(joined(front, separator) == front[0]);
        assert(joined(rest, separator) == rest[0]);
    } else {
        lemma_joined_front(front, separator);
        assert(front[0] == fields[0]);
        assert(rest.drop_last() == front.drop_first());
        assert(rest.last() == fields.last());
        assert(joined(fields, separator) =~= fields[0] + seq![separator] + joined(
            rest,
            separator,
        ));
    }
}

/// The path of a row whose last field ends in no carriage return is its
/// fields with `/` between them.
proof fn lemma_row_path_is_joined(row: Seq<Seq<char>>)
    requires
        row.len() > 0,
        row.last().len() > 0,
        row.last().last() != '\r',
    ensures
        row_path(row) == joined(row, '/'),
    decreases row.len(),
{
    if row.len() > 1 {
        let rest = row.drop_first();
        assert(rest.last() == row.last());
        lemma_row_path_is_joined(rest);
        lemma_joined_front(row, '/');
    }
}

/// A table reads back as it was written: the text that spells rows of plain
/// fields is parted into those rows again, and each of them stands for the
/// path made of its fields with `/` between them, in the order of the rows.
///
/// This holds for rows that a table can spell: every row has a field, no
/// field is empty or holds the separator or a line feed, the separator is
/// no line feed, and no last field ends in a carriage return, which is taken
/// for the end of a line and dropped.
pub proof fn table_reads_back(rows: Seq<Seq<Seq<char>>>, separator: char)
    requires
        separator != '\n',
        is_table_of(rows, separator),
    ensures
        csv_rows(table_text(rows, separator), separator) == rows,
        row_paths(rows) == Seq::new(rows.len(), |i: int| joined(rows[i], '/')),
{
    let lines = table_lines(rows, separator);
    assert forall|i: int| 0 <= i < lines.len() implies is_plain(#[trigger] lines[i], '\n') by {
        assert(rows[i].len() > 0);
        assert forall|j: int| 0 <= j < rows[i].len() implies is_plain(
            #[trigger] rows[i][j],
            '\n',
        ) by {}
        lemma_joined_is_plain(rows[i], separator, '\n');
    }
    lemma_pieces_of_joined(lines, '\n');
    let read = csv_rows(table_text(rows, separator), separator);
    assert(read.len() == rows.len());
    assert forall|i: int| 0 <= i < rows.len() implies #[trigger] read[i] == rows[i] by {
        assert(rows[i].len() > 0);
        assert forall|j: int| 0 <= j < rows[i].len() implies is_plain(
            #[trigger] rows[i][j],
            separator,
        ) by {}
        lemma_pieces_of_joined(rows[i], separator);
        assert(pieces(lines[i], separator) == rows[i]);
    }
    assert(read =~= rows);
    lemma_row_paths_of_table(rows, separator);
}

/// The paths of rows that a table can spell, one for each row.
proof fn lemma_row_paths_of_table(rows: Seq<Seq<Seq<char>>>, separator: char)
    requires
        is_table_of(rows, separator),
    ensures
        row_paths(rows) == Seq::new(rows.len(), |i: int| joined(rows[i], '/')),
    decreases rows.len(),
{
    if rows.len() > 0 {
        let front = rows.drop_last();
        assert forall|i: int| 0 <= i < front.len() implies {
            &&& (#[trigger] front[i]).len() > 0
            &&& front[i].last().last() != '\r'
            &&& forall|j: int|
                0 <= j < front[i].len() ==> is_plain(#[trigger] front[i][j], separator)
                    && is_plain(front[i][j], '\n')
        } by {
            assert(front[i] == rows[i]);
        }
        lemma_row_paths_of_table(front, separator);
        let last = rows.last();
        assert(last == rows[rows.len() - 1]);
        assert(last.len() > 0);
        assert(is_plain(last[last.len() - 1], separator));
        lemma_row_path_is_joined(last);
        assert(row_paths(rows) =~= Seq::new(rows.len(), |i: int| joined(rows[i], '/')));
    } else {
        assert(row_paths(rows) =~= Seq::new(rows.len(), |i: int| joined(rows[i], '/')));
    }
}

} // verus!
