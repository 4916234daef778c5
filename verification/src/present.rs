use crate::error::SnipError;
use crate::index::{RowView, SearchIndex};
use crate::search::{malformed_row, matches_view, parse_ordinals, read_ordinals, MatchView};
use crate::text::text_views;
use vstd::prelude::*;
use vstd::string::*;

verus! {

/// The positions of one term in one document.
#[derive(Debug)]
pub struct SearchTermPositions {
    /// The term with the ordinals at which the document holds it.
    pub matches: Vec<(String, Vec<usize>)>,
}

/// One row of the index as a search found it.
#[derive(Debug)]
pub struct SearchResultTerm {
    pub uuid: u128,
    pub term: String,
    pub positions: Vec<usize>,
}

/// What the index holds for some terms, document by document. No document
/// stands twice in `items`.
#[derive(Debug)]
pub struct SearchResult {
    /// Each document with the positions of the terms found in it, one entry
    /// for every row.
    pub items: Vec<(u128, Vec<SearchTermPositions>)>,
}

/// A found row as a mathematical value.
pub struct FoundTerm {
    pub uuid: u128,
    pub term: Seq<char>,
    pub positions: Seq<usize>,
}

impl View for SearchResultTerm {
    type V = FoundTerm;

    open spec fn view(&self) -> FoundTerm {
        FoundTerm { uuid: self.uuid, term: self.term@, positions: self.positions@ }
    }
}

/// The views of a list of found rows.
pub open spec fn found_view(found: Seq<SearchResultTerm>) -> Seq<FoundTerm> {
    Seq::new(found.len(), |i: int| found[i]@)
}

/// The rows of a term, in the order of the index. `None` where a row of
/// the term is malformed.
pub open spec fn rows_with_term(rows: Seq<RowView>, term: Seq<char>) -> Option<Seq<FoundTerm>>
    decreases rows.len(),
{
    if rows.len() == 0 {
        Some(Seq::<FoundTerm>::empty())
    } else {
        match rows_with_term(rows.drop_last(), term) {
            Some(front) => if rows.last().term == term {
                match parse_ordinals(rows.last().positions) {
                    Some(positions) => Some(
                        front.push(FoundTerm { uuid: rows.last().uuid, term, positions }),
                    ),
                    None => None,
                }
            } else {
                Some(front)
            },
            None => None,
        }
    }
}

/// The rows of some terms: those of the first term, then those of the
/// second, and so on. `None` where a row of one of the terms is malformed.
pub open spec fn rows_with_terms(rows: Seq<RowView>, terms: Seq<Seq<char>>) -> Option<
    Seq<FoundTerm>,
>
    decreases terms.len(),
{
    if terms.len() == 0 {
        Some(Seq::<FoundTerm>::empty())
    } else {
        match (rows_with_terms(rows, terms.drop_last()), rows_with_term(rows, terms.last())) {
            (Some(front), Some(more)) => Some(front + more),
            _ => None,
        }
    }
}

/// A document with its matches, as a mathematical value.
pub type GroupView = (u128, Seq<MatchView>);

/// The index of the group of a document, where it has one.
pub open spec fn group_at(groups: Seq<GroupView>, uuid: u128) -> Option<int>
    decreases groups.len(),
{
    if groups.len() == 0 {
        None
    } else {
        match group_at(groups.drop_last(), uuid) {
            Some(at) => Some(at),
            None => if groups.last().0 == uuid {
                Some(groups.len() - 1)
            } else {
                None
            },
        }
    }
}

/// The found rows by document: the documents in the order in which they
/// occur first, each with the terms and positions of its rows in their
/// order.
pub open spec fn grouped(found: Seq<FoundTerm>) -> Seq<GroupView>
    decreases found.len(),
{
    if found.len() == 0 {
        Seq::<GroupView>::empty()
    } else {
        let groups = grouped(found.drop_last());
        let entry = (found.last().term, found.last().positions);
        match group_at(groups, found.last().uuid) {
            Some(at) => groups.update(at, (groups[at].0, groups[at].1.push(entry))),
            None => groups.push((found.last().uuid, seq![entry])),
        }
    }
}

/// The matches of the entries of one document, each of which holds one.
pub open spec fn entries_view(entries: Seq<SearchTermPositions>) -> Seq<Seq<MatchView>> {
    Seq::new(entries.len(), |i: int| matches_view(entries[i].matches@))
}

/// Every match as an entry of its own.
pub open spec fn singly(matches: Seq<MatchView>) -> Seq<Seq<MatchView>> {
    Seq::new(matches.len(), |i: int| seq![matches[i]])
}

/// The result holds the groups: a document for each, with an entry for
/// each of its matches.
pub open spec fn holds_groups(items: Seq<(u128, Vec<SearchTermPositions>)>, groups: Seq<GroupView>)
    -> bool {
    &&& items.len() == groups.len()
    &&& forall|k: int|
        0 <= k < items.len() ==> (#[trigger] items[k]).0 == groups[k].0 && entries_view(
            items[k].1@,
        ) == singly(groups[k].1)
}

/// Where the rows of a term are well-formed, so are those among the first
/// `k` rows.
proof fn lemma_rows_front(rows: Seq<RowView>, term: Seq<char>, k: int)
    requires
        0 <= k <= rows.len(),
    ensures
        rows_with_term(rows, term) is Some ==> rows_with_term(rows.take(k), term) is Some,
    decreases rows.len() - k,
{
    if k == rows.len() {
        assert(rows.take(k) =~= rows);
    } else {
        assert(rows.drop_last().take(k) =~= rows.take(k));
        lemma_rows_front(rows.drop_last(), term, k);
    }
}

/// Where the rows of all terms are well-formed, so are those of the first
/// `k` terms.
proof fn lemma_terms_front(rows: Seq<RowView>, terms: Seq<Seq<char>>, k: int)
    requires
        0 <= k <= terms.len(),
    ensures
        rows_with_terms(rows, terms) is Some ==> rows_with_terms(rows, terms.take(k)) is Some,
    decreases terms.len() - k,
{
    if k == terms.len() {
        assert(terms.take(k) =~= terms);
    } else {
        assert(terms.drop_last().take(k) =~= terms.take(k));
        lemma_terms_front(rows, terms.drop_last(), k);
    }
}

/// Appends the rows of a term to what was found. Fails where a row of the
/// term is malformed.
fn find_term(index: &SearchIndex, term: &String, found: &mut Vec<SearchResultTerm>) -> (done:
    Result<(), SnipError>)
    ensures
        match rows_with_term(index@, term@) {
            Some(more) => done is Ok && found_view(final(found)@) == found_view(old(found)@)
                + more,
            None => done matches Err(e) && e is General && e.detail() == malformed_row(),
        },
{
    let ghost rows = index@;
    let ghost start = found_view(found@);
    let mut i: usize = 0;
    assert(rows.take(0) =~= Seq::<RowView>::empty());
    assert(start + Seq::<FoundTerm>::empty() =~= start);
    while i < index.rows.len()
        invariant
            i <= index.rows.len(),
            rows == index@,
            rows_with_term(rows.take(i as int), term@) is Some,
            found_view(found@) == start + rows_with_term(rows.take(i as int), term@)->0,
        decreases index.rows.len() - i,
    {
        let ghost before = found_view(found@);
        assert(rows.take(i as int + 1).drop_last() =~= rows.take(i as int));
        assert(rows.take(i as int + 1).last() == index.rows@[i as int]@);
        if index.rows[i].term == *term {
            match read_ordinals(index.rows[i].positions.as_str()) {
                Some(positions) => {
                    let entry = SearchResultTerm {
                        uuid: index.rows[i].uuid,
                        term: term.clone(),
                        positions,
                    };
                    found.push(entry);
                    assert(found_view(found@) =~= before.push(entry@));
                    assert(found_view(found@) =~= start + rows_with_term(
                        rows.take(i as int + 1),
                        term@,
                    )->0);
                },
                None => {
                    proof {
                        lemma_rows_front(rows, term@, i as int + 1);
                    }
                    return Err(
                        SnipError::General("a stored position is not a number".to_owned()),
                    );
                },
            }
        }
        i += 1;
    }
    assert(rows.take(i as int) =~= rows);
    Ok(())
}

/// The rows of the index for each of the terms in turn. Fails where a row
/// of one of the terms is malformed.
pub fn find_terms(index: &SearchIndex, terms: &Vec<String>) -> (out: Result<
    Vec<SearchResultTerm>,
    SnipError,
>)
    ensures
        match rows_with_terms(index@, text_views(terms@)) {
            Some(found) => out matches Ok(v) && found_view(v@) == found,
            None => out matches Err(e) && e is General && e.detail() == malformed_row(),
        },
{
    let ghost all = text_views(terms@);
    let mut found: Vec<SearchResultTerm> = Vec::new();
    let mut i: usize = 0;
    assert(all.take(0) =~= Seq::<Seq<char>>::empty());
    assert(found_view(found@) =~= Seq::<FoundTerm>::empty());
    while i < terms.len()
        invariant
            i <= terms.len(),
            all == text_views(terms@),
            rows_with_terms(index@, all.take(i as int)) == Some(found_view(found@)),
        decreases terms.len() - i,
    {
        assert(all.take(i as int + 1).drop_last() =~= all.take(i as int));
        assert(all.take(i as int + 1).last() == terms@[i as int]@);
        match find_term(index, &terms[i], &mut found) {
            Ok(()) => {},
            Err(e) => {
                proof {
                    lemma_terms_front(index@, all, i as int + 1);
                }
                return Err(e);
            },
        }
        i += 1;
    }
    assert(all.take(i as int) =~= all);
    Ok(found)
}

/// The index of the group of a document, where it has one.
fn find_group(items: &Vec<(u128, Vec<SearchTermPositions>)>, uuid: u128, Ghost(groups): Ghost<
    Seq<GroupView>,
>) -> (at: Option<usize>)
    requires
        holds_groups(items@, groups),
    ensures
        at is Some <==> group_at(groups, uuid) is Some,
        at matches Some(k) ==> group_at(groups, uuid) == Some(k as int) && k < items@.len(),
{
    let mut i: usize = 0;
    assert(groups.take(0) =~= Seq::<GroupView>::empty());
    while i < items.len()
        invariant
            i <= items.len(),
            holds_groups(items@, groups),
            group_at(groups.take(i as int), uuid) is None,
        decreases items.len() - i,
    {
        assert(groups.take(i as int + 1).drop_last() =~= groups.take(i as int));
        assert(groups.take(i as int + 1).last() == groups[i as int]);
        if items[i].0 == uuid {
            proof {
                lemma_group_first(groups, uuid, i as int + 1);
            }
            return Some(i);
        }
        i += 1;
    }
    assert(groups.take(i as int) =~= groups);
    None
}

/// Once a document has a group among the first `k`, that is its group.
proof fn lemma_group_first(groups: Seq<GroupView>, uuid: u128, k: int)
    requires
        0 <= k <= groups.len(),
        group_at(groups.take(k), uuid) is Some,
    ensures
        group_at(groups, uuid) == group_at(groups.take(k), uuid),
    decreases groups.len() - k,
{
    if k == groups.len() {
        assert(groups.take(k) =~= groups);
    } else {
        assert(groups.drop_last().take(k) =~= groups.take(k));
        lemma_group_first(groups.drop_last(), uuid, k);
    }
}

/// Groups what was found by document.
pub fn group_found(found: &Vec<SearchResultTerm>) -> (result: SearchResult)
    ensures
        holds_groups(result.items@, grouped(found_view(found@))),
{
    let ghost all = found_view(found@);
    let mut items: Vec<(u128, Vec<SearchTermPositions>)> = Vec::new();
    let mut i: usize = 0;
    assert(all.take(0) =~= Seq::<FoundTerm>::empty());
    while i < found.len()
        invariant
            i <= found.len(),
            all == found_view(found@),
            holds_groups(items@, grouped(all.take(i as int))),
        decreases found.len() - i,
    {
        let ghost groups = grouped(all.take(i as int));
        let ghost before = items@;
        assert(all.take(i as int + 1).drop_last() =~= all.take(i as int));
        assert(all.take(i as int + 1).last() == found@[i as int]@);
        let mut matches: Vec<(String, Vec<usize>)> = Vec::new();
        matches.push((found[i].term.clone(), found[i].positions.clone()));
        let entry = SearchTermPositions { matches };
        let ghost pair = (found@[i as int].term@, found@[i as int].positions@);
        assert(matches_view(entry.matches@) =~= seq![pair]);
        match find_group(&items, found[i].uuid, Ghost(groups)) {
            Some(at) => {
                assert(group_at(groups, found@[i as int].uuid) == Some(at as int));
                let ghost old_entries = items@[at as int].1@;
                let group = &mut items[at];
                group.1.push(entry);
                proof {
                    let next = groups.update(
                        at as int,
                        (groups[at as int].0, groups[at as int].1.push(pair)),
                    );
                    let last = all.take(i as int + 1).last();
                    assert(last.uuid == found@[i as int].uuid);
                    assert((last.term, last.positions) == pair);
                    assert(group_at(groups, last.uuid) == Some(at as int));
                    assert(grouped(all.take(i as int + 1)) =~= next);
                    assert forall|k: int| 0 <= k < items@.len() implies (#[trigger] items@[k]).0
                        == next[k].0 && entries_view(items@[k].1@) == singly(next[k].1) by {
                        if k == at {
                            assert(before[k].0 == groups[k].0);
                            assert(entries_view(old_entries) == singly(groups[k].1));
                            assert(entries_view(items@[k].1@) =~= entries_view(old_entries).push(
                                seq![pair],
                            ));
                            assert(singly(next[k].1) =~= singly(groups[k].1).push(seq![pair]));
                        } else {
                            assert(items@[k] == before[k]);
                            assert(before[k].0 == groups[k].0);
                        }
                    }
                }
            },
            None => {
                let mut entries: Vec<SearchTermPositions> = Vec::new();
                entries.push(entry);
                items.push((found[i].uuid, entries));
                proof {
                    let next = groups.push((found@[i as int].uuid, seq![pair]));
                    let last = all.take(i as int + 1).last();
                    assert(last.uuid == found@[i as int].uuid);
                    assert((last.term, last.positions) == pair);
                    assert(group_at(groups, last.uuid) is None);
                    assert(grouped(all.take(i as int + 1)) =~= next);
                    assert forall|k: int| 0 <= k < items@.len() implies (#[trigger] items@[k]).0
                        == next[k].0 && entries_view(items@[k].1@) == singly(next[k].1) by {
                        if k < before.len() {
                            assert(items@[k] == before[k]);
                            assert(before[k].0 == groups[k].0);
                        } else {
                            assert(entries_view(items@[k].1@) =~= seq![seq![pair]]);
                            assert(singly(next[k].1) =~= seq![seq![pair]]);
                        }
                    }
                }
            },
        }
        i += 1;
    }
    assert(all.take(i as int) =~= all);
    SearchResult { items }
}

/// Reports, for each document that holds one of the terms, the positions of
/// the terms that it holds: the rows of the first term, then those of the
/// second, and so on, grouped by document. Fails where a row of one of the
/// terms is malformed.
pub fn search_all_present(index: &SearchIndex, terms: Vec<String>) -> (out: Result<
    SearchResult,
    SnipError,
>)
    ensures
        match rows_with_terms(index@, text_views(terms@)) {
            Some(found) => out matches Ok(result) && holds_groups(result.items@, grouped(found)),
            None => out matches Err(e) && e is General && e.detail() == malformed_row(),
        },
{
    match find_terms(index, &terms) {
        Ok(found) => Ok(group_found(&found)),
        Err(e) => Err(e),
    }
}

} // verus!
