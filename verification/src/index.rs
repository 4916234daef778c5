use crate::analysis::{stems_of, SnipWord, WordIndex};
use crate::error::SnipError;
use crate::positions::{positions_text, positions_to_text};
use vstd::prelude::*;
use vstd::string::*;

verus! {

/// One row of the search index: a document holds a term at some positions.
#[derive(Debug)]
pub struct IndexRow {
    /// The stemmed term.
    pub term: String,
    /// The identifier of the document.
    pub uuid: u128,
    /// How often the term occurs in the document.
    pub count: u64,
    /// The ordinals of the occurrences in their stored form.
    pub positions: String,
}

/// A row as a mathematical value.
pub struct RowView {
    pub term: Seq<char>,
    pub uuid: u128,
    pub count: u64,
    pub positions: Seq<char>,
}

impl View for IndexRow {
    type V = RowView;

    open spec fn view(&self) -> RowView {
        RowView { term: self.term@, uuid: self.uuid, count: self.count, positions: self.positions@ }
    }
}

/// The search index: the rows of every indexed document, in the order in
/// which they were written.
#[derive(Debug)]
pub struct SearchIndex {
    pub rows: Vec<IndexRow>,
}

impl View for SearchIndex {
    type V = Seq<RowView>;

    open spec fn view(&self) -> Seq<RowView> {
        Seq::new(self.rows@.len(), |i: int| self.rows@[i]@)
    }
}

/// The distinct terms among some stems, each where it occurs first.
pub open spec fn distinct_terms(stems: Seq<Seq<char>>) -> Seq<Seq<char>>
    decreases stems.len(),
{
    if stems.len() == 0 {
        Seq::<Seq<char>>::empty()
    } else {
        let front = distinct_terms(stems.drop_last());
        if front.contains(stems.last()) {
            front
        } else {
            front.push(stems.last())
        }
    }
}

/// The ordinals at which a term stands among some stems, ascending.
pub open spec fn positions_of(stems: Seq<Seq<char>>, term: Seq<char>) -> Seq<u64>
    decreases stems.len(),
{
    if stems.len() == 0 {
        Seq::<u64>::empty()
    } else {
        let front = positions_of(stems.drop_last(), term);
        if stems.last() == term {
            front.push((stems.len() - 1) as u64)
        } else {
            front
        }
    }
}

/// The entry of a term is the one that the stems give it: its positions are
/// the ordinals of its occurrences, and its count is their number.
pub open spec fn is_entry_of(entry: WordIndex, stems: Seq<Seq<char>>, term: Seq<char>) -> bool {
    &&& entry.term@ == term
    &&& entry.positions@ == positions_of(stems, term)
    &&& entry.count == entry.positions@.len()
}

/// The entries are those of the stems: one for every distinct term, in the
/// order in which the terms occur first.
pub open spec fn are_entries_of(entries: Seq<WordIndex>, stems: Seq<Seq<char>>) -> bool {
    &&& entries.len() == distinct_terms(stems).len()
    &&& forall|i: int|
        0 <= i < entries.len() ==> is_entry_of(
            #[trigger] entries[i],
            stems,
            distinct_terms(stems)[i],
        )
}

/// The row that is written for a term of a document.
pub open spec fn row_of(uuid: u128, stems: Seq<Seq<char>>, term: Seq<char>) -> RowView {
    RowView {
        term,
        uuid,
        count: positions_of(stems, term).len() as u64,
        positions: positions_text(positions_of(stems, term)),
    }
}

/// The rows that are written for a document with the given stems.
pub open spec fn rows_of(uuid: u128, stems: Seq<Seq<char>>) -> Seq<RowView> {
    Seq::new(
        distinct_terms(stems).len(),
        |i: int| row_of(uuid, stems, distinct_terms(stems)[i]),
    )
}

/// The rows without those of one document.
pub open spec fn without_document(rows: Seq<RowView>, uuid: u128) -> Seq<RowView>
    decreases rows.len(),
{
    if rows.len() == 0 {
        Seq::<RowView>::empty()
    } else {
        let front = without_document(rows.drop_last(), uuid);
        if rows.last().uuid == uuid {
            front
        } else {
            front.push(rows.last())
        }
    }
}

/// The index after a document was indexed: its former rows are gone, and
/// the rows of its stems stand at the end.
pub open spec fn reindexed(rows: Seq<RowView>, uuid: u128, stems: Seq<Seq<char>>) -> Seq<RowView> {
    without_document(rows, uuid) + rows_of(uuid, stems)
}

/// A term that is not among the distinct terms occurs nowhere.
pub proof fn lemma_absent_term(stems: Seq<Seq<char>>, term: Seq<char>)
    requires
        !distinct_terms(stems).contains(term),
    ensures
        positions_of(stems, term) == Seq::<u64>::empty(),
    decreases stems.len(),
{
    if stems.len() > 0 {
        let front = distinct_terms(stems.drop_last());
        if stems.last() == term {
            if front.contains(term) {
            } else {
                assert(front.push(term).last() == term);
            }
            assert(false);
        } else {
            if front.contains(term) {
                let k = choose|k: int| 0 <= k < front.len() && front[k] == term;
                if !front.contains(stems.last()) {
                    assert(front.push(stems.last())[k] == term);
                }
                assert(false);
            }
            lemma_absent_term(stems.drop_last(), term);
        }
    }
}

/// A term stands among the distinct terms exactly where it stands among the
/// stems.
pub proof fn lemma_distinct_terms_cover(stems: Seq<Seq<char>>, term: Seq<char>)
    ensures
        distinct_terms(stems).contains(term) <==> stems.contains(term),
    decreases stems.len(),
{
    if stems.len() > 0 {
        let front = stems.drop_last();
        let terms = distinct_terms(front);
        lemma_distinct_terms_cover(front, term);
        if stems.contains(term) {
            let k = choose|k: int| 0 <= k < stems.len() && stems[k] == term;
            if k < front.len() {
                assert(front[k] == term);
                let at = choose|at: int| 0 <= at < terms.len() && terms[at] == term;
                assert(distinct_terms(stems)[at] == term);
            } else {
                if terms.contains(term) {
                } else {
                    assert(distinct_terms(stems).last() == term);
                }
            }
        }
        if distinct_terms(stems).contains(term) {
            let at = choose|at: int|
                0 <= at < distinct_terms(stems).len() && distinct_terms(stems)[at] == term;
            if at < terms.len() {
                assert(terms[at] == term);
                let k = choose|k: int| 0 <= k < front.len() && front[k] == term;
                assert(stems[k] == term);
            } else {
                assert(stems[stems.len() - 1] == term);
            }
        }
    }
}

/// The positions of a term are fewer than the stems.
pub proof fn lemma_positions_bounded(stems: Seq<Seq<char>>, term: Seq<char>)
    ensures
        positions_of(stems, term).len() <= stems.len(),
    decreases stems.len(),
{
    if stems.len() > 0 {
        lemma_positions_bounded(stems.drop_last(), term);
    }
}

/// Groups the ordinals of the words by stem: one entry for every distinct
/// stem, in the order in which the stems occur first, each with the
/// ascending ordinals of its words and their number.
pub fn index_entries(words: &Vec<SnipWord>) -> (entries: Vec<WordIndex>)
    ensures
        are_entries_of(entries@, stems_of(words@)),
{
    let ghost stems = stems_of(words@);
    let mut entries: Vec<WordIndex> = Vec::new();
    let mut p: usize = 0;
    assert(stems.take(0) =~= Seq::<Seq<char>>::empty());
    while p < words.len()
        invariant
            p <= words.len(),
            stems == stems_of(words@),
            are_entries_of(entries@, stems.take(p as int)),
        decreases words.len() - p,
    {
        let ghost seen = stems.take(p as int);
        let ghost more = stems.take(p as int + 1);
        let ghost stem = words@[p as int].stem@;
        let ghost terms = distinct_terms(seen);
        assert(more.drop_last() =~= seen);
        assert(more.last() == stem);
        let ghost before = entries@;
        // look for the entry of this stem
        let mut j: usize = 0;
        let mut found: bool = false;
        while j < entries.len()
            invariant_except_break
                !found,
                forall|k: int| 0 <= k < j ==> terms[k] != stem,
            invariant
                j <= entries.len(),
                p < words.len(),
                entries@ == before,
                stem == words@[p as int].stem@,
                are_entries_of(before, seen),
                terms == distinct_terms(seen),
            ensures
                j <= entries.len(),
                found ==> j < entries.len() && terms[j as int] == stem,
                !found ==> j == entries.len() && forall|k: int| 0 <= k < j ==> terms[k] != stem,
            decreases entries.len() - j,
        {
            if entries[j].term == words[p].stem {
                found = true;
                break ;
            }
            j += 1;
        }
        proof {
            assert forall|i: int| 0 <= i < before.len() implies positions_of(
                more,
                terms[i],
            ) == if terms[i] == stem {
                before[i].positions@.push(p as u64)
            } else {
                before[i].positions@
            } by {
                assert(is_entry_of(before[i], seen, terms[i]));
            }
            lemma_positions_bounded(seen, stem);
        }
        if found {
            let entry = &mut entries[j];
            entry.positions.push(p as u64);
            entry.count = entry.count + 1;
            proof {
                assert(terms.contains(stem));
                assert(distinct_terms(more) == terms);
                assert forall|i: int| 0 <= i < entries@.len() implies is_entry_of(
                    #[trigger] entries@[i],
                    more,
                    distinct_terms(more)[i],
                ) by {
                    assert(is_entry_of(before[i], seen, terms[i]));
                    if i != j {
                        assert(entries@[i] == before[i]);
                        assert(terms[i] != stem) by {
                            lemma_terms_differ(seen, i, j as int);
                        }
                    }
                }
            }
        } else {
            let mut positions: Vec<u64> = Vec::new();
            positions.push(p as u64);
            let entry = WordIndex { count: 1, positions, term: words[p].stem.clone() };
            entries.push(entry);
            proof {
                assert(!terms.contains(stem));
                assert(distinct_terms(more) == terms.push(stem));
                lemma_absent_term(seen, stem);
                assert(positions_of(more, stem) =~= seq![p as u64]);
                assert forall|i: int| 0 <= i < entries@.len() implies is_entry_of(
                    #[trigger] entries@[i],
                    more,
                    distinct_terms(more)[i],
                ) by {
                    if i < before.len() {
                        assert(entries@[i] == before[i]);
                        assert(is_entry_of(before[i], seen, terms[i]));
                    }
                }
            }
        }
        p += 1;
    }
    assert(stems.take(p as int) =~= stems);
    entries
}

/// No term stands twice among the distinct terms.
pub proof fn lemma_terms_differ(stems: Seq<Seq<char>>, i: int, j: int)
    requires
        0 <= i < distinct_terms(stems).len(),
        0 <= j < distinct_terms(stems).len(),
        i != j,
    ensures
        distinct_terms(stems)[i] != distinct_terms(stems)[j],
    decreases stems.len(),
{
    if stems.len() > 0 {
        let front = distinct_terms(stems.drop_last());
        if front.contains(stems.last()) {
            lemma_terms_differ(stems.drop_last(), i, j);
        } else {
            if i < front.len() && j < front.len() {
                lemma_terms_differ(stems.drop_last(), i, j);
            } else if i < front.len() {
                assert(front[i] != stems.last());
            } else if j < front.len() {
                assert(front[j] != stems.last());
            }
        }
    }
}

/// The row that an entry is written as.
pub open spec fn entry_row(uuid: u128, entry: WordIndex) -> RowView {
    RowView {
        term: entry.term@,
        uuid,
        count: entry.count,
        positions: positions_text(entry.positions@),
    }
}

/// The rows that a list of entries is written as.
pub open spec fn entry_rows(uuid: u128, entries: Seq<WordIndex>) -> Seq<RowView> {
    Seq::new(entries.len(), |i: int| entry_row(uuid, entries[i]))
}

impl SearchIndex {
    /// An index without rows.
    pub fn new() -> (index: SearchIndex)
        ensures
            index@ == Seq::<RowView>::empty(),
    {
        let index = SearchIndex { rows: Vec::new() };
        assert(index@ =~= Seq::<RowView>::empty());
        index
    }

    /// Removes the rows of one document; the others keep their order.
    pub fn drop_word_indices(&mut self, uuid: u128)
        ensures
            final(self)@ == without_document(old(self)@, uuid),
    {
        let mut kept: Vec<IndexRow> = Vec::new();
        let ghost all = self@;
        let mut i: usize = 0;
        assert(all.take(0) =~= Seq::<RowView>::empty());
        while i < self.rows.len()
            invariant
                i <= self.rows.len(),
                *self == *old(self),
                all == self@,
                Seq::new(kept@.len(), |k: int| kept@[k]@) == without_document(
                    all.take(i as int),
                    uuid,
                ),
            decreases self.rows.len() - i,
        {
            let ghost front = Seq::new(kept@.len(), |k: int| kept@[k]@);
            assert(all.take(i as int + 1).drop_last() =~= all.take(i as int));
            assert(all.take(i as int + 1).last() == self.rows@[i as int]@);
            if self.rows[i].uuid != uuid {
                let row = IndexRow {
                    term: self.rows[i].term.clone(),
                    uuid: self.rows[i].uuid,
                    count: self.rows[i].count,
                    positions: self.rows[i].positions.clone(),
                };
                kept.push(row);
                assert(Seq::new(kept@.len(), |k: int| kept@[k]@) =~= front.push(
                    self.rows@[i as int]@,
                ));
            }
            i += 1;
        }
        assert(all.take(i as int) =~= all);
        self.rows = kept;
        assert(self@ =~= without_document(all, uuid));
    }

    /// Writes the row of one entry of a document behind the other rows.
    pub fn write_word_index(&mut self, uuid: u128, word: &WordIndex)
        ensures
            final(self)@ == old(self)@.push(entry_row(uuid, *word)),
    {
        let row = IndexRow {
            term: word.term.clone(),
            uuid,
            count: word.count,
            positions: positions_to_text(&word.positions),
        };
        self.rows.push(row);
        assert(self@ =~= old(self)@.push(entry_row(uuid, *word)));
    }

    /// Writes the rows of a document's entries behind the other rows, in the
    /// order of the entries.
    pub fn write_entries(&mut self, uuid: u128, entries: &Vec<WordIndex>)
        ensures
            final(self)@ == old(self)@ + entry_rows(uuid, entries@),
    {
        let mut i: usize = 0;
        assert(old(self)@ + entry_rows(uuid, entries@).take(0) =~= old(self)@);
        while i < entries.len()
            invariant
                i <= entries.len(),
                self@ == old(self)@ + entry_rows(uuid, entries@).take(i as int),
            decreases entries.len() - i,
        {
            self.write_word_index(uuid, &entries[i]);
            i += 1;
            assert(old(self)@ + entry_rows(uuid, entries@).take(i as int) =~= (old(self)@
                + entry_rows(uuid, entries@).take(i as int - 1)).push(
                entry_row(uuid, entries@[i as int - 1]),
            ));
        }
        assert(entry_rows(uuid, entries@).take(i as int) =~= entry_rows(uuid, entries@));
    }
}

/// Removes every row of the index and says how many there were.
pub fn clear_index(index: &mut SearchIndex) -> (removed: usize)
    ensures
        final(index)@ == Seq::<RowView>::empty(),
        removed == old(index).rows@.len(),
{
    let removed = index.rows.len();
    index.rows = Vec::new();
    assert(index@ =~= Seq::<RowView>::empty());
    removed
}

/// Judges what a store reports of a write that was meant for one row: any
/// other number of rows is a failure.
pub fn expect_single_row(affected: usize) -> (done: Result<(), SnipError>)
    ensures
        done is Ok <==> affected == 1,
        done matches Err(e) ==> e is General && e.detail() == "no rows were updated"@,
{
    if affected == 1 {
        Ok(())
    } else {
        Err(SnipError::General("no rows were updated".to_owned()))
    }
}

/// The rows of the entries of some stems are the rows of the stems.
pub proof fn lemma_entry_rows(uuid: u128, entries: Seq<WordIndex>, stems: Seq<Seq<char>>)
    requires
        are_entries_of(entries, stems),
    ensures
        entry_rows(uuid, entries) == rows_of(uuid, stems),
{
    assert forall|i: int| 0 <= i < entries.len() implies entry_row(uuid, entries[i]) == row_of(
        uuid,
        stems,
        distinct_terms(stems)[i],
    ) by {
        assert(is_entry_of(entries[i], stems, distinct_terms(stems)[i]));
    }
    assert(entry_rows(uuid, entries) =~= rows_of(uuid, stems));
}

} // verus!
