use crate::analysis::WordIndex;
use crate::error::SnipError;
use crate::index::{distinct_terms, lemma_distinct_terms_cover, RowView, SearchIndex};
use crate::positions::{parse_positions, positions_from_text};
use crate::text::text_views;
use vstd::prelude::*;
use vstd::string::*;

verus! {

/// How a query is matched against the documents.
#[derive(Debug)]
pub enum SearchMethod {
    /// Against the index of stemmed terms.
    IndexStem,
    /// Against an index of the words as written.
    IndexWord,
    /// Against the text itself.
    Literal,
}

/// A query: terms that a document must hold, terms that it may not hold, and
/// optionally the documents to which the search is confined.
#[derive(Debug)]
pub struct SearchQuery {
    /// Every one of these terms must be present in a document.
    pub terms_include: Vec<String>,
    /// None of these terms may be present in a document.
    pub terms_exclude: Vec<String>,
    /// Reserved: these terms take no part in matching.
    pub terms_optional: Vec<String>,
    pub method: SearchMethod,
    /// Where not empty: exactly these documents are reported, whatever
    /// they hold.
    pub uuids: Vec<u128>,
    /// Where present: no more documents than this are reported.
    pub limit: Option<usize>,
}

/// One matching document, with the positions of every term asked for. No
/// term stands twice in `matches`.
#[derive(Debug)]
pub struct SearchQueryItem {
    pub uuid: u128,
    /// Each term with the ordinals at which the document holds it.
    pub matches: Vec<(String, Vec<usize>)>,
}

/// The matching documents in the order in which they were found.
#[derive(Debug)]
pub struct SearchQueryResult {
    pub items: Vec<SearchQueryItem>,
}

/// A term with its positions, as a mathematical value.
pub type MatchView = (Seq<char>, Seq<usize>);

/// A matching document as a mathematical value.
pub struct ItemView {
    pub uuid: u128,
    pub matches: Seq<MatchView>,
}

/// The views of a list of matches.
pub open spec fn matches_view(matches: Seq<(String, Vec<usize>)>) -> Seq<MatchView> {
    Seq::new(matches.len(), |i: int| (matches[i].0@, matches[i].1@))
}

impl View for SearchQueryItem {
    type V = ItemView;

    open spec fn view(&self) -> ItemView {
        ItemView { uuid: self.uuid, matches: matches_view(self.matches@) }
    }
}

impl View for SearchQueryResult {
    type V = Seq<ItemView>;

    open spec fn view(&self) -> Seq<ItemView> {
        Seq::new(self.items@.len(), |i: int| self.items@[i]@)
    }
}

/// The views of a list of lists of identifiers.
pub open spec fn lists_view(lists: Seq<Vec<u128>>) -> Seq<Seq<u128>> {
    Seq::new(lists.len(), |i: int| lists[i]@)
}

/// The documents that hold a term, in the order of their rows.
pub open spec fn docs_with_term(rows: Seq<RowView>, term: Seq<char>) -> Seq<u128>
    decreases rows.len(),
{
    if rows.len() == 0 {
        Seq::<u128>::empty()
    } else {
        let front = docs_with_term(rows.drop_last(), term);
        if rows.last().term == term {
            front.push(rows.last().uuid)
        } else {
            front
        }
    }
}

/// For every term, the documents that hold it.
pub open spec fn hits_of(rows: Seq<RowView>, terms: Seq<Seq<char>>) -> Seq<Seq<u128>> {
    Seq::new(terms.len(), |i: int| docs_with_term(rows, terms[i]))
}

/// The document stands in every list.
pub open spec fn in_every(hits: Seq<Seq<u128>>, uuid: u128) -> bool {
    forall|i: int| 0 <= i < hits.len() ==> (#[trigger] hits[i]).contains(uuid)
}

/// The document stands in one of the lists.
pub open spec fn in_some(hits: Seq<Seq<u128>>, uuid: u128) -> bool {
    exists|i: int| 0 <= i < hits.len() && (#[trigger] hits[i]).contains(uuid)
}

/// Those of the documents that stand in every include list and in no exclude
/// list, in their order.
pub open spec fn survivors(
    docs: Seq<u128>,
    include_hits: Seq<Seq<u128>>,
    exclude_hits: Seq<Seq<u128>>,
) -> Seq<u128>
    decreases docs.len(),
{
    if docs.len() == 0 {
        Seq::<u128>::empty()
    } else {
        let front = survivors(docs.drop_last(), include_hits, exclude_hits);
        if in_every(include_hits, docs.last()) && !in_some(exclude_hits, docs.last()) {
            front.push(docs.last())
        } else {
            front
        }
    }
}

/// The candidates that the hit lists of the include and exclude terms leave:
/// the documents of the first include list that stand in every include list
/// and in no exclude list. Without an include term there is no candidate.
pub open spec fn selected(include_hits: Seq<Seq<u128>>, exclude_hits: Seq<Seq<u128>>) -> Seq<
    u128,
> {
    if include_hits.len() == 0 {
        Seq::<u128>::empty()
    } else {
        survivors(include_hits[0], include_hits, exclude_hits)
    }
}

/// The candidates of a query: the documents that it names, or else those
/// that the index selects for its terms.
pub open spec fn candidates(
    rows: Seq<RowView>,
    required: Seq<Seq<char>>,
    excluded: Seq<Seq<char>>,
    uuids: Seq<u128>,
) -> Seq<u128> {
    if uuids.len() > 0 {
        uuids
    } else {
        selected(hits_of(rows, required), hits_of(rows, excluded))
    }
}

/// The first documents, as many as the limit admits.
pub open spec fn limited(docs: Seq<u128>, limit: Option<usize>) -> Seq<u128> {
    match limit {
        Some(n) => if n < docs.len() {
            docs.take(n as int)
        } else {
            docs
        },
        None => docs,
    }
}

/// The row of a term in a document: the first one that holds both.
pub open spec fn stored_row(rows: Seq<RowView>, uuid: u128, term: Seq<char>) -> Option<RowView>
    decreases rows.len(),
{
    if rows.len() == 0 {
        None
    } else {
        match stored_row(rows.drop_last(), uuid, term) {
            Some(found) => Some(found),
            None => if rows.last().uuid == uuid && rows.last().term == term {
                Some(rows.last())
            } else {
                None
            },
        }
    }
}

/// The stored positions of a term in a document: those of its row.
pub open spec fn stored_positions(rows: Seq<RowView>, uuid: u128, term: Seq<char>) -> Option<
    Seq<char>,
> {
    match stored_row(rows, uuid, term) {
        Some(row) => Some(row.positions),
        None => None,
    }
}

/// The stored count of a term in a document: that of its row.
pub open spec fn stored_count(rows: Seq<RowView>, uuid: u128, term: Seq<char>) -> Option<u64> {
    match stored_row(rows, uuid, term) {
        Some(row) => Some(row.count),
        None => None,
    }
}

/// What is said of a row whose positions are malformed.
pub open spec fn malformed_row() -> Seq<char> {
    "a stored position is not a number"@
}

/// The positions as machine-sized ordinals; none where one does not fit.
pub open spec fn as_ordinals(positions: Seq<u64>) -> Option<Seq<usize>>
    decreases positions.len(),
{
    if positions.len() == 0 {
        Some(Seq::<usize>::empty())
    } else {
        match as_ordinals(positions.drop_last()) {
            Some(front) => if positions.last() <= usize::MAX {
                Some(front.push(positions.last() as usize))
            } else {
                None
            },
            None => None,
        }
    }
}

/// The ordinals that a stored text denotes; none where it is malformed.
pub open spec fn parse_ordinals(text: Seq<char>) -> Option<Seq<usize>> {
    match parse_positions(text) {
        Some(positions) => as_ordinals(positions),
        None => None,
    }
}

/// The ordinals at which a document holds a term: none for a term that it
/// does not hold. The outer `None` stands for a row that is malformed.
pub open spec fn term_positions(rows: Seq<RowView>, uuid: u128, term: Seq<char>) -> Option<
    Seq<usize>,
> {
    match stored_positions(rows, uuid, term) {
        Some(text) => parse_ordinals(text),
        None => Some(Seq::<usize>::empty()),
    }
}

/// The matches of a document for some terms: each term once, where it
/// stands first, with its positions. `None` where a row is malformed.
pub open spec fn item_matches(rows: Seq<RowView>, uuid: u128, terms: Seq<Seq<char>>) -> Option<
    Seq<MatchView>,
>
    decreases terms.len(),
{
    if terms.len() == 0 {
        Some(Seq::<MatchView>::empty())
    } else {
        match (
            item_matches(rows, uuid, terms.drop_last()),
            term_positions(rows, uuid, terms.last()),
        ) {
            (Some(front), Some(positions)) => if terms.drop_last().contains(terms.last()) {
                Some(front)
            } else {
                Some(front.push((terms.last(), positions)))
            },
            _ => None,
        }
    }
}

/// The items of some documents for some terms. `None` where a row is
/// malformed.
pub open spec fn items_of(rows: Seq<RowView>, docs: Seq<u128>, terms: Seq<Seq<char>>) -> Option<
    Seq<ItemView>,
>
    decreases docs.len(),
{
    if docs.len() == 0 {
        Some(Seq::<ItemView>::empty())
    } else {
        match (items_of(rows, docs.drop_last(), terms), item_matches(rows, docs.last(), terms)) {
            (Some(front), Some(matches)) => Some(
                front.push(ItemView { uuid: docs.last(), matches }),
            ),
            _ => None,
        }
    }
}

/// What a search reports: for the candidates within the limit, the
/// positions of the include terms. `None` where a row is malformed.
pub open spec fn search_outcome(
    rows: Seq<RowView>,
    required: Seq<Seq<char>>,
    excluded: Seq<Seq<char>>,
    uuids: Seq<u128>,
    limit: Option<usize>,
) -> Option<Seq<ItemView>> {
    items_of(rows, limited(candidates(rows, required, excluded, uuids), limit), required)
}

/// Whether an identifier stands in a list.
pub fn contains_id(list: &Vec<u128>, uuid: u128) -> (found: bool)
    ensures
        found == list@.contains(uuid),
{
    let mut i: usize = 0;
    while i < list.len()
        invariant
            i <= list.len(),
            forall|k: int| 0 <= k < i ==> list@[k] != uuid,
        decreases list.len() - i,
    {
        if list[i] == uuid {
            return true;
        }
        i += 1;
    }
    false
}

/// Whether an identifier stands in every list.
pub fn in_every_list(lists: &Vec<Vec<u128>>, uuid: u128) -> (found: bool)
    ensures
        found == in_every(lists_view(lists@), uuid),
{
    let mut i: usize = 0;
    while i < lists.len()
        invariant
            i <= lists.len(),
            forall|k: int| 0 <= k < i ==> (#[trigger] lists_view(lists@)[k]).contains(uuid),
        decreases lists.len() - i,
    {
        if !contains_id(&lists[i], uuid) {
            assert(!lists_view(lists@)[i as int].contains(uuid));
            return false;
        }
        i += 1;
    }
    true
}

/// Whether an identifier stands in one of the lists.
pub fn in_some_list(lists: &Vec<Vec<u128>>, uuid: u128) -> (found: bool)
    ensures
        found == in_some(lists_view(lists@), uuid),
{
    let mut i: usize = 0;
    while i < lists.len()
        invariant
            i <= lists.len(),
            forall|k: int| 0 <= k < i ==> !(#[trigger] lists_view(lists@)[k]).contains(uuid),
        decreases lists.len() - i,
    {
        if contains_id(&lists[i], uuid) {
            assert(lists_view(lists@)[i as int].contains(uuid));
            return true;
        }
        i += 1;
    }
    false
}

/// Selects the candidates from what the index holds for the terms of a
/// query: `include_hits` and `exclude_hits` give, for every include and
/// exclude term in turn, the documents that hold it.
pub fn select_candidates(include_hits: &Vec<Vec<u128>>, exclude_hits: &Vec<Vec<u128>>) -> (out:
    Vec<u128>)
    ensures
        out@ == selected(lists_view(include_hits@), lists_view(exclude_hits@)),
{
    let mut out: Vec<u128> = Vec::new();
    if include_hits.len() == 0 {
        return out;
    }
    let first = &include_hits[0];
    let ghost docs = first@;
    let ghost required = lists_view(include_hits@);
    let ghost excluded = lists_view(exclude_hits@);
    assert(docs == required[0]);
    let mut i: usize = 0;
    assert(docs.take(0) =~= Seq::<u128>::empty());
    while i < first.len()
        invariant
            i <= first.len(),
            docs == first@,
            required == lists_view(include_hits@),
            excluded == lists_view(exclude_hits@),
            out@ == survivors(docs.take(i as int), required, excluded),
        decreases first.len() - i,
    {
        assert(docs.take(i as int + 1).drop_last() =~= docs.take(i as int));
        assert(docs.take(i as int + 1).last() == first@[i as int]);
        let uuid = first[i];
        if in_every_list(include_hits, uuid) && !in_some_list(exclude_hits, uuid) {
            out.push(uuid);
        }
        i += 1;
    }
    assert(docs.take(i as int) =~= docs);
    out
}

/// The documents whose index rows hold a term, in the order of the rows.
pub fn docs_holding(index: &SearchIndex, term: &String) -> (ids: Vec<u128>)
    ensures
        ids@ == docs_with_term(index@, term@),
{
    let mut ids: Vec<u128> = Vec::new();
    let ghost rows = index@;
    let mut i: usize = 0;
    assert(rows.take(0) =~= Seq::<RowView>::empty());
    while i < index.rows.len()
        invariant
            i <= index.rows.len(),
            rows == index@,
            ids@ == docs_with_term(rows.take(i as int), term@),
        decreases index.rows.len() - i,
    {
        assert(rows.take(i as int + 1).drop_last() =~= rows.take(i as int));
        assert(rows.take(i as int + 1).last() == index.rows@[i as int]@);
        if index.rows[i].term == *term {
            ids.push(index.rows[i].uuid);
        }
        i += 1;
    }
    assert(rows.take(i as int) =~= rows);
    ids
}

/// Searches the index for the documents that hold a term. The index never
/// fails to answer.
pub fn search_uuids_matching_term(index: &SearchIndex, term: &String) -> (out: Result<
    Vec<u128>,
    SnipError,
>)
    ensures
        out matches Ok(ids) && ids@ == docs_with_term(index@, term@),
{
    Ok(docs_holding(index, term))
}

/// For every term in turn, the documents whose index rows hold it.
pub fn hits_for_terms(index: &SearchIndex, terms: &Vec<String>) -> (out: Vec<Vec<u128>>)
    ensures
        lists_view(out@) == hits_of(index@, text_views(terms@)),
{
    let mut out: Vec<Vec<u128>> = Vec::new();
    let mut i: usize = 0;
    while i < terms.len()
        invariant
            i <= terms.len(),
            out@.len() == i,
            forall|k: int| 0 <= k < i ==> (#[trigger] out@[k])@ == docs_with_term(index@, terms@[k]@),
        decreases terms.len() - i,
    {
        out.push(docs_holding(index, &terms[i]));
        i += 1;
    }
    assert(lists_view(out@) =~= hits_of(index@, text_views(terms@)));
    out
}

/// Once a row holds a term for a document, later rows change nothing.
pub proof fn lemma_stored_row_first(rows: Seq<RowView>, uuid: u128, term: Seq<char>, k: int)
    requires
        0 <= k <= rows.len(),
        stored_row(rows.take(k), uuid, term) is Some,
    ensures
        stored_row(rows, uuid, term) == stored_row(rows.take(k), uuid, term),
    decreases rows.len() - k,
{
    if k == rows.len() {
        assert(rows.take(k) =~= rows);
    } else {
        assert(rows.drop_last().take(k) =~= rows.take(k));
        lemma_stored_row_first(rows.drop_last(), uuid, term, k);
    }
}

/// The positions as machine-sized ordinals: `None` where one does not fit.
pub fn ordinals_of(positions: &Vec<u64>) -> (out: Option<Vec<usize>>)
    ensures
        match as_ordinals(positions@) {
            Some(ordinals) => out matches Some(v) && v@ == ordinals,
            None => out is None,
        },
{
    let mut out: Vec<usize> = Vec::new();
    let mut i: usize = 0;
    assert(positions@.take(0) =~= Seq::<u64>::empty());
    while i < positions.len()
        invariant
            i <= positions.len(),
            as_ordinals(positions@.take(i as int)) == Some(out@),
        decreases positions.len() - i,
    {
        assert(positions@.take(i as int + 1).drop_last() =~= positions@.take(i as int));
        assert(positions@.take(i as int + 1).last() == positions@[i as int]);
        let value = positions[i];
        if value > usize::MAX as u64 {
            proof {
                lemma_ordinals_front(positions@, i as int + 1);
            }
            return None;
        }
        out.push(value as usize);
        i += 1;
    }
    assert(positions@.take(i as int) =~= positions@);
    Some(out)
}

/// Where all positions fit, so do the first `k` of them.
proof fn lemma_ordinals_front(positions: Seq<u64>, k: int)
    requires
        0 <= k <= positions.len(),
    ensures
        as_ordinals(positions) is Some ==> as_ordinals(positions.take(k)) is Some,
    decreases positions.len() - k,
{
    if k == positions.len() {
        assert(positions.take(k) =~= positions);
    } else {
        assert(positions.drop_last().take(k) =~= positions.take(k));
        lemma_ordinals_front(positions.drop_last(), k);
    }
}

/// Reads the ordinals of a stored text: `None` where it is malformed.
pub fn read_ordinals(text: &str) -> (out: Option<Vec<usize>>)
    ensures
        match parse_ordinals(text@) {
            Some(ordinals) => out matches Some(v) && v@ == ordinals,
            None => out is None,
        },
{
    match positions_from_text(text) {
        Some(positions) => ordinals_of(&positions),
        None => None,
    }
}

/// The ordinals at which a document holds a term according to the index:
/// none for a term that it does not hold. Fails where the row is malformed.
pub fn get_term_positions(index: &SearchIndex, id: u128, term: &String) -> (out: Result<
    Vec<usize>,
    SnipError,
>)
    ensures
        match term_positions(index@, id, term@) {
            Some(ordinals) => out matches Ok(v) && v@ == ordinals,
            None => out matches Err(e) && e is General && e.detail() == malformed_row(),
        },
{
    let ghost rows = index@;
    let mut i: usize = 0;
    assert(rows.take(0) =~= Seq::<RowView>::empty());
    while i < index.rows.len()
        invariant
            i <= index.rows.len(),
            rows == index@,
            stored_row(rows.take(i as int), id, term@) is None,
        decreases index.rows.len() - i,
    {
        assert(rows.take(i as int + 1).drop_last() =~= rows.take(i as int));
        assert(rows.take(i as int + 1).last() == index.rows@[i as int]@);
        if index.rows[i].uuid == id && index.rows[i].term == *term {
            proof {
                lemma_stored_row_first(rows, id, term@, i as int + 1);
            }
            return match read_ordinals(index.rows[i].positions.as_str()) {
                Some(v) => Ok(v),
                None => Err(
                    SnipError::General("a stored position is not a number".to_owned()),
                ),
            };
        }
        i += 1;
    }
    assert(rows.take(i as int) =~= rows);
    Ok(Vec::new())
}

/// Whether a term stands among the first `end` terms.
fn stands_before(terms: &Vec<String>, end: usize, term: &String) -> (found: bool)
    requires
        end <= terms.len(),
    ensures
        found == text_views(terms@).take(end as int).contains(term@),
{
    let ghost front = text_views(terms@).take(end as int);
    let mut i: usize = 0;
    while i < end
        invariant
            i <= end <= terms.len(),
            front == text_views(terms@).take(end as int),
            forall|k: int| 0 <= k < i ==> front[k] != term@,
        decreases end - i,
    {
        if terms[i] == *term {
            assert(front[i as int] == term@);
            return true;
        }
        i += 1;
    }
    false
}

/// The terms without repetition, each where it stands first.
pub fn distinct(terms: &Vec<String>) -> (out: Vec<String>)
    ensures
        text_views(out@) == distinct_terms(text_views(terms@)),
{
    let ghost all = text_views(terms@);
    let mut out: Vec<String> = Vec::new();
    let mut i: usize = 0;
    assert(all.take(0) =~= Seq::<Seq<char>>::empty());
    assert(text_views(out@) =~= Seq::<Seq<char>>::empty());
    while i < terms.len()
        invariant
            i <= terms.len(),
            all == text_views(terms@),
            text_views(out@) == distinct_terms(all.take(i as int)),
        decreases terms.len() - i,
    {
        let ghost before = text_views(out@);
        assert(all.take(i as int + 1).drop_last() =~= all.take(i as int));
        assert(all.take(i as int + 1).last() == terms@[i as int]@);
        proof {
            lemma_distinct_terms_cover(all.take(i as int), terms@[i as int]@);
        }
        if !stands_before(terms, i, &terms[i]) {
            out.push(terms[i].clone());
            assert(text_views(out@) =~= before.push(terms@[i as int]@));
        }
        i += 1;
    }
    assert(all.take(i as int) =~= all);
    out
}

/// The matches of one document for the terms of a query: each term once,
/// with the ordinals at which the index holds it for the document. Fails
/// where a row is malformed.
pub fn matches_for(index: &SearchIndex, uuid: u128, terms: &Vec<String>) -> (out: Result<
    Vec<(String, Vec<usize>)>,
    SnipError,
>)
    ensures
        match item_matches(index@, uuid, text_views(terms@)) {
            Some(matches) => out matches Ok(v) && matches_view(v@) == matches,
            None => out matches Err(e) && e is General && e.detail() == malformed_row(),
        },
{
    let ghost all = text_views(terms@);
    let mut matches: Vec<(String, Vec<usize>)> = Vec::new();
    let mut i: usize = 0;
    assert(all.take(0) =~= Seq::<Seq<char>>::empty());
    assert(matches_view(matches@) =~= Seq::<MatchView>::empty());
    while i < terms.len()
        invariant
            i <= terms.len(),
            all == text_views(terms@),
            item_matches(index@, uuid, all.take(i as int)) == Some(matches_view(matches@)),
        decreases terms.len() - i,
    {
        let ghost seen = all.take(i as int + 1);
        let ghost before = matches_view(matches@);
        assert(seen.drop_last() =~= all.take(i as int));
        assert(seen.last() == terms@[i as int]@);
        match get_term_positions(index, uuid, &terms[i]) {
            Ok(positions) => {
                if !stands_before(terms, i, &terms[i]) {
                    matches.push((terms[i].clone(), positions));
                    assert(matches_view(matches@) =~= before.push((seen.last(), positions@)));
                }
            },
            Err(e) => {
                proof {
                    assert(item_matches(index@, uuid, seen) is None);
                    lemma_item_matches_front(index@, uuid, all, i as int + 1);
                }
                return Err(e);
            },
        }
        i += 1;
    }
    assert(all.take(i as int) =~= all);
    Ok(matches)
}

/// Where the rows of all terms are well-formed, so are those of the first
/// `k` terms.
proof fn lemma_item_matches_front(rows: Seq<RowView>, uuid: u128, terms: Seq<Seq<char>>, k: int)
    requires
        0 <= k <= terms.len(),
    ensures
        item_matches(rows, uuid, terms) is Some ==> item_matches(rows, uuid, terms.take(k))
            is Some,
    decreases terms.len() - k,
{
    if k == terms.len() {
        assert(terms.take(k) =~= terms);
    } else {
        assert(terms.drop_last().take(k) =~= terms.take(k));
        lemma_item_matches_front(rows, uuid, terms.drop_last(), k);
    }
}

/// Where the rows of all documents are well-formed, so are those of the
/// first `k` documents.
proof fn lemma_items_front(rows: Seq<RowView>, docs: Seq<u128>, terms: Seq<Seq<char>>, k: int)
    requires
        0 <= k <= docs.len(),
    ensures
        items_of(rows, docs, terms) is Some ==> items_of(rows, docs.take(k), terms) is Some,
    decreases docs.len() - k,
{
    if k == docs.len() {
        assert(docs.take(k) =~= docs);
    } else {
        assert(docs.drop_last().take(k) =~= docs.take(k));
        lemma_items_front(rows, docs.drop_last(), terms, k);
    }
}

/// The items of some documents for the terms of a query, in the order of the
/// documents. Fails where a row is malformed.
pub fn assemble_items(index: &SearchIndex, docs: &Vec<u128>, terms: &Vec<String>) -> (out: Result<
    SearchQueryResult,
    SnipError,
>)
    ensures
        match items_of(index@, docs@, text_views(terms@)) {
            Some(items) => out matches Ok(found) && found@ == items,
            None => out matches Err(e) && e is General && e.detail() == malformed_row(),
        },
{
    let ghost all = text_views(terms@);
    let mut result = SearchQueryResult { items: Vec::new() };
    let mut i: usize = 0;
    assert(docs@.take(0) =~= Seq::<u128>::empty());
    assert(result@ =~= Seq::<ItemView>::empty());
    while i < docs.len()
        invariant
            i <= docs.len(),
            all == text_views(terms@),
            items_of(index@, docs@.take(i as int), all) == Some(result@),
        decreases docs.len() - i,
    {
        let ghost seen = docs@.take(i as int + 1);
        let ghost before = result@;
        assert(seen.drop_last() =~= docs@.take(i as int));
        assert(seen.last() == docs@[i as int]);
        match matches_for(index, docs[i], terms) {
            Ok(matches) => {
                let item = SearchQueryItem { uuid: docs[i], matches };
                result.items.push(item);
                assert(result@ =~= before.push(item@));
            },
            Err(e) => {
                proof {
                    assert(items_of(index@, seen, all) is None);
                    lemma_items_front(index@, docs@, all, i as int + 1);
                }
                return Err(e);
            },
        }
        i += 1;
    }
    assert(docs@.take(i as int) =~= docs@);
    Ok(result)
}

/// The first documents of a list, as many as the limit admits.
pub fn apply_limit(docs: Vec<u128>, limit: Option<usize>) -> (out: Vec<u128>)
    ensures
        out@ == limited(docs@, limit),
{
    match limit {
        Some(n) => {
            if n < docs.len() {
                let ghost all = docs@;
                let mut kept = docs;
                kept.truncate(n);
                assert(kept@ =~= all.take(n as int));
                kept
            } else {
                docs
            }
        },
        None => docs,
    }
}

/// Evaluates a query against the index. The candidates are the documents
/// that the query names; where it names none, they are the documents that
/// hold every include term and no exclude term, in the order in which the
/// index lists them for the first include term. Within the limit, every
/// candidate is reported with the positions of each include term. Fails
/// where a row that is needed is malformed.
pub fn search_structured(index: &SearchIndex, search_query: SearchQuery) -> (out: Result<
    SearchQueryResult,
    SnipError,
>)
    ensures
        match search_outcome(
            index@,
            text_views(search_query.terms_include@),
            text_views(search_query.terms_exclude@),
            search_query.uuids@,
            search_query.limit,
        ) {
            Some(items) => out matches Ok(found) && found@ == items,
            None => out matches Err(e) && e is General && e.detail() == malformed_row(),
        },
{
    let SearchQuery { terms_include, terms_exclude, terms_optional: _, method: _, uuids, limit } =
        search_query;
    let found = if uuids.len() > 0 {
        uuids
    } else {
        let include_hits = hits_for_terms(index, &terms_include);
        let exclude_hits = hits_for_terms(index, &terms_exclude);
        select_candidates(&include_hits, &exclude_hits)
    };
    let docs = apply_limit(found, limit);
    assemble_items(index, &docs, &terms_include)
}

/// The index entry of a term in a document: the count and the positions of
/// its row. Fails where the index holds no row of the term for the
/// document, or a malformed one.
pub fn get_word_index(index: &SearchIndex, uuid: u128, term: &String) -> (out: Result<
    WordIndex,
    SnipError,
>)
    ensures
        match stored_row(index@, uuid, term@) {
            Some(row) => match parse_positions(row.positions) {
                Some(positions) => out matches Ok(entry) && entry.term@ == term@ && entry.count
                    == row.count && entry.positions@ == positions,
                None => out matches Err(e) && e is General && e.detail() == malformed_row(),
            },
            None => out matches Err(e) && e is UuidNotFound && e.detail() == "word not found"@,
        },
{
    let ghost rows = index@;
    let mut i: usize = 0;
    assert(rows.take(0) =~= Seq::<RowView>::empty());
    while i < index.rows.len()
        invariant
            i <= index.rows.len(),
            rows == index@,
            stored_row(rows.take(i as int), uuid, term@) is None,
        decreases index.rows.len() - i,
    {
        assert(rows.take(i as int + 1).drop_last() =~= rows.take(i as int));
        assert(rows.take(i as int + 1).last() == index.rows@[i as int]@);
        if index.rows[i].uuid == uuid && index.rows[i].term == *term {
            proof {
                lemma_stored_row_first(rows, uuid, term@, i as int + 1);
            }
            return match positions_from_text(index.rows[i].positions.as_str()) {
                Some(positions) => Ok(
                    WordIndex { count: index.rows[i].count, positions, term: term.clone() },
                ),
                None => Err(
                    SnipError::General("a stored position is not a number".to_owned()),
                ),
            };
        }
        i += 1;
    }
    assert(rows.take(i as int) =~= rows);
    Err(SnipError::UuidNotFound("word not found".to_owned()))
}

} // verus!
