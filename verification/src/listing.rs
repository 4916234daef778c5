use crate::error::SnipError;
use crate::ids::{split_uuid, uuid_text, uuid_to_string};
use crate::naming::glued;
use crate::text::{chars_of, push_all, same_text, split_on, string_of, text_views};
use vstd::prelude::*;
use vstd::string::*;
use vstd::utf8::*;

verus! {

/// What a listing shows.
#[derive(Debug)]
pub enum ListHeadingKind {
    Document,
    Attachment,
}

/// The side on which the name of a column stands within its width.
#[derive(Debug)]
pub enum ListHeadingAlignment {
    Left,
    Right,
}

/// One column of a heading: its name, its width in bytes and the side on
/// which the name stands.
#[derive(Debug)]
pub struct ListHeadingPosition {
    pub name: String,
    pub width: usize,
    pub align: ListHeadingAlignment,
}

/// The heading of a listing.
#[derive(Debug)]
pub struct ListHeading {
    pub kind: ListHeadingKind,
    pub columns: Vec<ListHeadingPosition>,
}

/// A run of spaces.
pub open spec fn spaces(n: int) -> Seq<char> {
    Seq::new(
        if n > 0 {
            n as nat
        } else {
            0
        },
        |i: int| ' ',
    )
}

/// The text of one column of a heading: the name, filled with spaces to the
/// column's width in bytes on the side that its alignment leaves free, and
/// one space more behind it.
pub open spec fn column_text(column: ListHeadingPosition) -> Seq<char> {
    let fill = spaces(column.width - encode_utf8(column.name@).len());
    match column.align {
        ListHeadingAlignment::Left => column.name@ + fill + seq![' '],
        ListHeadingAlignment::Right => fill + column.name@ + seq![' '],
    }
}

/// The texts of the columns of a heading.
pub open spec fn column_texts(columns: Seq<ListHeadingPosition>) -> Seq<Seq<char>> {
    Seq::new(columns.len(), |i: int| column_text(columns[i]))
}

/// Appends a run of spaces.
pub fn push_spaces(out: &mut Vec<char>, n: usize)
    ensures
        final(out)@ == old(out)@ + spaces(n as int),
{
    let mut i: usize = 0;
    assert(old(out)@ + spaces(0) =~= old(out)@);
    while i < n
        invariant
            i <= n,
            out@ == old(out)@ + spaces(i as int),
        decreases n - i,
    {
        out.push(' ');
        i += 1;
        assert(old(out)@ + spaces(i as int) =~= (old(out)@ + spaces(i as int - 1)).push(' '));
    }
}

impl ListHeading {
    /// Adds a column behind the others.
    pub fn add(&mut self, name: &str, width: usize, align: ListHeadingAlignment)
        ensures
            final(self).kind == old(self).kind,
            final(self).columns@.len() == old(self).columns@.len() + 1,
            final(self).columns@.drop_last() == old(self).columns@,
            final(self).columns@.last().name@ == name@,
            final(self).columns@.last().width == width,
            final(self).columns@.last().align == align,
    {
        let position = ListHeadingPosition { name: name.to_owned(), width, align };
        self.columns.push(position);
        assert(self.columns@.drop_last() =~= old(self).columns@);
    }

    /// Builds the line that names the columns of a listing.
    pub fn build(&self) -> (out: String)
        ensures
            out@ == glued(column_texts(self.columns@)),
    {
        let ghost texts = column_texts(self.columns@);
        let mut out: Vec<char> = Vec::new();
        let mut i: usize = 0;
        assert(texts.take(0) =~= Seq::<Seq<char>>::empty());
        while i < self.columns.len()
            invariant
                i <= self.columns.len(),
                texts == column_texts(self.columns@),
                out@ == glued(texts.take(i as int)),
            decreases self.columns.len() - i,
        {
            let ghost before = out@;
            assert(texts.take(i as int + 1).drop_last() =~= texts.take(i as int));
            assert(texts.take(i as int + 1).last() == column_text(self.columns@[i as int]));
            let column = &self.columns[i];
            let name = chars_of(column.name.as_str());
            let length = column.name.as_str().as_bytes().len();
            let fill: usize = if column.width >= length {
                column.width - length
            } else {
                0
            };
            assert(spaces(fill as int) =~= spaces(column.width - length));
            match column.align {
                ListHeadingAlignment::Left => {
                    push_all(&mut out, &name);
                    push_spaces(&mut out, fill);
                },
                ListHeadingAlignment::Right => {
                    push_spaces(&mut out, fill);
                    push_all(&mut out, &name);
                },
            }
            out.push(' ');
            assert(out@ =~= before + column_text(self.columns@[i as int]));
            i += 1;
        }
        assert(texts.take(i as int) =~= texts);
        string_of(&out)
    }
}

/// The text filled with spaces in front, to a width in characters.
pub open spec fn pad_left(text: Seq<char>, width: int) -> Seq<char> {
    spaces(width - text.len()) + text
}

/// The text filled with spaces behind, to a width in characters.
pub open spec fn pad_right(text: Seq<char>, width: int) -> Seq<char> {
    text + spaces(width - text.len())
}

/// Appends a text filled with spaces in front, to a width in characters.
pub fn push_padded_left(out: &mut String, text: &Vec<char>, width: usize)
    ensures
        final(out)@ == old(out)@ + pad_left(text@, width as int),
{
    let mut padded: Vec<char> = Vec::new();
    let fill: usize = if width > text.len() {
        width - text.len()
    } else {
        0
    };
    push_spaces(&mut padded, fill);
    push_all(&mut padded, text);
    assert(padded@ =~= pad_left(text@, width as int));
    let piece = string_of(&padded);
    out.append(piece.as_str());
}

/// Appends a text filled with spaces behind, to a width in characters.
pub fn push_padded_right(out: &mut String, text: &Vec<char>, width: usize)
    ensures
        final(out)@ == old(out)@ + pad_right(text@, width as int),
{
    let mut padded: Vec<char> = Vec::new();
    let fill: usize = if width > text.len() {
        width - text.len()
    } else {
        0
    };
    push_all(&mut padded, text);
    push_spaces(&mut padded, fill);
    assert(padded@ =~= pad_right(text@, width as int));
    let piece = string_of(&padded);
    out.append(piece.as_str());
}

/// What a listing shows of one document or attachment.
#[derive(Debug)]
pub struct ListEntry {
    /// The identifier of the item.
    pub uuid: u128,
    /// For an attachment, the identifier of its document.
    pub document: Option<u128>,
    /// The item's time as text.
    pub time: String,
    /// The item's size as text.
    pub size: String,
    pub name: String,
}

/// The first group of a UUID's hyphenated form.
pub open spec fn short_uuid(uuid: u128) -> Seq<char> {
    split_on(uuid_text(uuid), '-')[0]
}

/// The text of the cell that a column shows for an entry: the identifier,
/// in short where the column is no wider than eight; the document's
/// identifier in short; the time; the size in nine columns; the name. None
/// for a column of another name, and for the document of an entry that has
/// none.
pub open spec fn cell_text(column: ListHeadingPosition, entry: ListEntry) -> Option<Seq<char>> {
    if column.name@ == "uuid"@ {
        if column.width <= 8 {
            Some(short_uuid(entry.uuid))
        } else {
            Some(uuid_text(entry.uuid))
        }
    } else if column.name@ == "document"@ {
        match entry.document {
            Some(document) => Some(short_uuid(document)),
            None => None,
        }
    } else if column.name@ == "time"@ {
        Some(entry.time@)
    } else if column.name@ == "size"@ {
        Some(pad_left(entry.size@, 9))
    } else if column.name@ == "name"@ {
        Some(entry.name@)
    } else {
        None
    }
}

/// The cells of some columns; none where one of them has none.
pub open spec fn cell_texts(columns: Seq<ListHeadingPosition>, entry: ListEntry) -> Option<
    Seq<Seq<char>>,
>
    decreases columns.len(),
{
    if columns.len() == 0 {
        Some(Seq::<Seq<char>>::empty())
    } else {
        match (cell_texts(columns.drop_last(), entry), cell_text(columns.last(), entry)) {
            (Some(front), Some(cell)) => Some(front.push(cell)),
            _ => None,
        }
    }
}

/// A split text has a first piece.
pub proof fn lemma_split_has_a_piece(s: Seq<char>, sep: char)
    ensures
        split_on(s, sep).len() >= 1,
    decreases s.len(),
{
    if s.len() > 0 {
        lemma_split_has_a_piece(s.drop_last(), sep);
    }
}

/// The first group of a UUID's hyphenated form.
pub fn short_uuid_of(uuid: u128) -> (out: String)
    ensures
        out@ == short_uuid(uuid),
{
    proof {
        lemma_split_has_a_piece(uuid_text(uuid), '-');
    }
    let groups = split_uuid(&uuid);
    assert(text_views(groups@)[0] == groups@[0]@);
    groups[0].clone()
}

/// The text of the cell that a column shows for an entry.
pub fn cell_of(column: &ListHeadingPosition, entry: &ListEntry) -> (out: Option<String>)
    ensures
        match cell_text(*column, *entry) {
            Some(text) => out matches Some(cell) && cell@ == text,
            None => out is None,
        },
{
    if same_text(column.name.as_str(), "uuid") {
        if column.width <= 8 {
            Some(short_uuid_of(entry.uuid))
        } else {
            Some(uuid_to_string(entry.uuid))
        }
    } else if same_text(column.name.as_str(), "document") {
        match entry.document {
            Some(document) => Some(short_uuid_of(document)),
            None => None,
        }
    } else if same_text(column.name.as_str(), "time") {
        Some(entry.time.clone())
    } else if same_text(column.name.as_str(), "size") {
        let mut cell = String::new();
        let size = chars_of(entry.size.as_str());
        push_padded_left(&mut cell, &size, 9);
        assert(cell@ =~= pad_left(entry.size@, 9));
        Some(cell)
    } else if same_text(column.name.as_str(), "name") {
        Some(entry.name.clone())
    } else {
        None
    }
}

impl ListHeading {
    /// The cells of one line of the listing, a cell for every column. Fails
    /// where a column has a name that the listing does not know.
    pub fn cells(&self, entry: &ListEntry) -> (out: Result<Vec<String>, SnipError>)
        ensures
            match cell_texts(self.columns@, *entry) {
                Some(texts) => out matches Ok(cells) && text_views(cells@) == texts,
                None => out matches Err(e) && e is General && e.detail()
                    == "invalid column name supplied"@,
            },
    {
        let mut cells: Vec<String> = Vec::new();
        let mut i: usize = 0;
        assert(self.columns@.take(0) =~= Seq::<ListHeadingPosition>::empty());
        assert(text_views(cells@) =~= Seq::<Seq<char>>::empty());
        while i < self.columns.len()
            invariant
                i <= self.columns.len(),
                cell_texts(self.columns@.take(i as int), *entry) == Some(text_views(cells@)),
            decreases self.columns.len() - i,
        {
            let ghost before = text_views(cells@);
            assert(self.columns@.take(i as int + 1).drop_last() =~= self.columns@.take(i as int));
            assert(self.columns@.take(i as int + 1).last() == self.columns@[i as int]);
            match cell_of(&self.columns[i], entry) {
                Some(cell) => {
                    cells.push(cell);
                    assert(text_views(cells@) =~= before.push(cell@));
                },
                None => {
                    proof {
                        lemma_cells_front(self.columns@, *entry, i as int + 1);
                    }
                    return Err(SnipError::General("invalid column name supplied".to_owned()));
                },
            }
            i += 1;
        }
        assert(self.columns@.take(i as int) =~= self.columns@);
        Ok(cells)
    }
}

/// Where all columns have cells, so have the first `k` of them.
proof fn lemma_cells_front(columns: Seq<ListHeadingPosition>, entry: ListEntry, k: int)
    requires
        0 <= k <= columns.len(),
    ensures
        cell_texts(columns, entry) is Some ==> cell_texts(columns.take(k), entry) is Some,
    decreases columns.len() - k,
{
    if k == columns.len() {
        assert(columns.take(k) =~= columns);
    } else {
        assert(columns.drop_last().take(k) =~= columns.take(k));
        lemma_cells_front(columns.drop_last(), entry, k);
    }
}

} // verus!
