use crate::index::{
    distinct_terms, lemma_distinct_terms_cover, lemma_terms_differ, positions_of, reindexed,
    row_of, rows_of, without_document, RowView,
};
use crate::positions::{lemma_positions_round_trip, parse_positions, positions_text};
use crate::search::{
    as_ordinals, candidates, docs_with_term, hits_of, in_every, in_some, item_matches, items_of,
    search_outcome, stored_count, stored_positions, stored_row, survivors, term_positions,
};
use crate::stem::{lowercase, stem_input, stem_of};
use vstd::prelude::*;

verus! {

/// The index holds a row of the term for the document.
pub open spec fn holds(rows: Seq<RowView>, uuid: u128, term: Seq<char>) -> bool {
    exists|k: int| 0 <= k < rows.len() && (#[trigger] rows[k]).uuid == uuid && rows[k].term == term
}

/// How often a term stands among some stems.
pub open spec fn occurrences(stems: Seq<Seq<char>>, term: Seq<char>) -> nat
    decreases stems.len(),
{
    if stems.len() == 0 {
        0
    } else {
        occurrences(stems.drop_last(), term) + if stems.last() == term {
            1nat
        } else {
            0nat
        }
    }
}

/// The ordinals in the same order, as machine-sized numbers.
pub open spec fn ordinals(positions: Seq<u64>) -> Seq<usize> {
    Seq::new(positions.len(), |i: int| positions[i] as usize)
}

/// Stemming is a function of the word: two words with the same text have
/// the same stem.
pub proof fn lemma_stem_determined(a: Seq<char>, b: Seq<char>)
    requires
        a == b,
    ensures
        stem_of(a) == stem_of(b),
{
}

/// Stemming disregards case: two words with the same lower-case form have
/// the same stem.
pub proof fn lemma_stem_ignores_case(a: Seq<char>, b: Seq<char>)
    requires
        lowercase(a) == lowercase(b),
    ensures
        stem_of(a) == stem_of(b),
{
    assert(stem_input(a) == stem_input(b));
}

/// The positions of a term are the ordinals of its occurrences: each is the
/// ordinal of a stem that is the term, every such ordinal is among them, and
/// they ascend.
pub proof fn lemma_positions_are_occurrences(stems: Seq<Seq<char>>, term: Seq<char>)
    requires
        stems.len() <= u64::MAX,
    ensures
        positions_of(stems, term).len() == occurrences(stems, term),
        forall|i: int|
            0 <= i < positions_of(stems, term).len() ==> (#[trigger] positions_of(
                stems,
                term,
            )[i]) < stems.len() && stems[positions_of(stems, term)[i] as int] == term,
        forall|k: int|
            0 <= k < stems.len() && #[trigger] stems[k] == term ==> positions_of(
                stems,
                term,
            ).contains(k as u64),
        forall|i: int, j: int|
            0 <= i < j < positions_of(stems, term).len() ==> positions_of(stems, term)[i]
                < positions_of(stems, term)[j],
    decreases stems.len(),
{
    if stems.len() > 0 {
        let front = stems.drop_last();
        let found = positions_of(front, term);
        lemma_positions_are_occurrences(front, term);
        let all = positions_of(stems, term);
        assert forall|k: int| 0 <= k < stems.len() && #[trigger] stems[k] == term implies all.contains(
            k as u64,
        ) by {
            if k < front.len() {
                assert(front[k] == term);
                let at = choose|at: int| 0 <= at < found.len() && found[at] == k as u64;
                assert(all[at] == k as u64);
            } else {
                assert(all.last() == k as u64);
            }
        }
    }
}

/// The first row that holds both a document and a term is the row of the
/// term in the document.
pub proof fn lemma_first_row_is_stored(rows: Seq<RowView>, uuid: u128, term: Seq<char>, at: int)
    requires
        0 <= at < rows.len(),
        rows[at].uuid == uuid,
        rows[at].term == term,
        forall|k: int| 0 <= k < at ==> !((#[trigger] rows[k]).uuid == uuid && rows[k].term == term),
    ensures
        stored_row(rows, uuid, term) == Some(rows[at]),
    decreases rows.len(),
{
    let front = rows.drop_last();
    if at == rows.len() - 1 {
        lemma_no_row_stored(front, uuid, term);
    } else {
        lemma_first_row_is_stored(front, uuid, term, at);
    }
}

/// Where no row holds both a document and a term, there is no row of the
/// term in the document.
pub proof fn lemma_no_row_stored(rows: Seq<RowView>, uuid: u128, term: Seq<char>)
    requires
        forall|k: int|
            0 <= k < rows.len() ==> !((#[trigger] rows[k]).uuid == uuid && rows[k].term == term),
    ensures
        stored_row(rows, uuid, term) is None,
    decreases rows.len(),
{
    if rows.len() > 0 {
        lemma_no_row_stored(rows.drop_last(), uuid, term);
    }
}

/// The rows that are left without a document are rows of other documents,
/// and each row of another document is left.
pub proof fn lemma_without_document(rows: Seq<RowView>, uuid: u128)
    ensures
        forall|k: int|
            0 <= k < without_document(rows, uuid).len() ==> (#[trigger] without_document(
                rows,
                uuid,
            )[k]).uuid != uuid && rows.contains(without_document(rows, uuid)[k]),
        forall|k: int|
            0 <= k < rows.len() && (#[trigger] rows[k]).uuid != uuid ==> without_document(
                rows,
                uuid,
            ).contains(rows[k]),
    decreases rows.len(),
{
    if rows.len() > 0 {
        let front = rows.drop_last();
        let kept = without_document(front, uuid);
        let all = without_document(rows, uuid);
        lemma_without_document(front, uuid);
        assert forall|k: int| 0 <= k < all.len() implies (#[trigger] all[k]).uuid != uuid
            && rows.contains(all[k]) by {
            if k < kept.len() {
                assert(all[k] == kept[k]);
                let at = choose|at: int| 0 <= at < front.len() && front[at] == kept[k];
                assert(rows[at] == all[k]);
            } else {
                assert(rows[rows.len() - 1] == all[k]);
            }
        }
        assert forall|k: int| 0 <= k < rows.len() && (#[trigger] rows[k]).uuid
            != uuid implies all.contains(rows[k]) by {
            if k < front.len() {
                assert(front[k] == rows[k]);
                let at = choose|at: int| 0 <= at < kept.len() && kept[at] == rows[k];
                assert(all[at] == rows[k]);
            } else {
                assert(all.last() == rows[k]);
            }
        }
    }
}

/// Removing a document from rows that are laid end to end removes it from
/// each part.
pub proof fn lemma_without_document_of_parts(a: Seq<RowView>, b: Seq<RowView>, uuid: u128)
    ensures
        without_document(a + b, uuid) == without_document(a, uuid) + without_document(b, uuid),
    decreases b.len(),
{
    if b.len() == 0 {
        assert(a + b =~= a);
        assert(without_document(a, uuid) + without_document(b, uuid) =~= without_document(
            a,
            uuid,
        ));
    } else {
        lemma_without_document_of_parts(a, b.drop_last(), uuid);
        assert((a + b).drop_last() =~= a + b.drop_last());
        assert((a + b).last() == b.last());
        if b.last().uuid != uuid {
            assert(without_document(a, uuid) + without_document(b, uuid) =~= (without_document(
                a,
                uuid,
            ) + without_document(b.drop_last(), uuid)).push(b.last()));
        }
    }
}

/// Rows that hold nothing of a document stay as they are when it is
/// removed; rows that hold nothing else vanish.
pub proof fn lemma_without_document_plain(rows: Seq<RowView>, uuid: u128)
    ensures
        (forall|k: int| 0 <= k < rows.len() ==> (#[trigger] rows[k]).uuid != uuid)
            ==> without_document(rows, uuid) == rows,
        (forall|k: int| 0 <= k < rows.len() ==> (#[trigger] rows[k]).uuid == uuid)
            ==> without_document(rows, uuid) == Seq::<RowView>::empty(),
    decreases rows.len(),
{
    if rows.len() > 0 {
        let front = rows.drop_last();
        lemma_without_document_plain(front, uuid);
        if forall|k: int| 0 <= k < rows.len() ==> (#[trigger] rows[k]).uuid != uuid {
            assert(forall|k: int| 0 <= k < front.len() ==> (#[trigger] front[k]).uuid != uuid) by {
                assert(forall|k: int| 0 <= k < front.len() ==> front[k] == rows[k]);
            }
            assert(rows[rows.len() - 1].uuid != uuid);
            assert(front.push(rows.last()) =~= rows);
        }
        if forall|k: int| 0 <= k < rows.len() ==> (#[trigger] rows[k]).uuid == uuid {
            assert(forall|k: int| 0 <= k < front.len() ==> (#[trigger] front[k]).uuid == uuid) by {
                assert(forall|k: int| 0 <= k < front.len() ==> front[k] == rows[k]);
            }
            assert(rows[rows.len() - 1].uuid == uuid);
        }
    } else {
        assert(rows =~= Seq::<RowView>::empty());
    }
}

/// Idempotence: to index a document once more, with the same stems, leaves
/// the index as it is.
pub proof fn lemma_reindex_idempotent(rows: Seq<RowView>, uuid: u128, stems: Seq<Seq<char>>)
    ensures
        reindexed(reindexed(rows, uuid, stems), uuid, stems) == reindexed(rows, uuid, stems),
{
    let others = without_document(rows, uuid);
    let own = rows_of(uuid, stems);
    lemma_without_document_of_parts(others, own, uuid);
    lemma_without_document(rows, uuid);
    lemma_without_document_plain(others, uuid);
    lemma_without_document_plain(own, uuid);
    assert(without_document(others + own, uuid) =~= others);
}

/// To index a document leaves the rows of the other documents as they are.
pub proof fn lemma_reindex_keeps_others(
    rows: Seq<RowView>,
    uuid: u128,
    stems: Seq<Seq<char>>,
    other: u128,
)
    requires
        other != uuid,
    ensures
        without_document(reindexed(rows, uuid, stems), uuid) == without_document(rows, uuid),
        forall|term: Seq<char>|
            holds(reindexed(rows, uuid, stems), other, term) <==> holds(rows, other, term),
{
    let others = without_document(rows, uuid);
    let own = rows_of(uuid, stems);
    let after = reindexed(rows, uuid, stems);
    lemma_without_document_of_parts(others, own, uuid);
    lemma_without_document(rows, uuid);
    lemma_without_document_plain(others, uuid);
    lemma_without_document_plain(own, uuid);
    assert(without_document(others + own, uuid) =~= others);
    assert forall|term: Seq<char>| holds(after, other, term) <==> holds(rows, other, term) by {
        if holds(after, other, term) {
            let k = choose|k: int|
                0 <= k < after.len() && (#[trigger] after[k]).uuid == other && after[k].term
                    == term;
            assert(k < others.len());
            assert(rows.contains(others[k]));
            let at = choose|at: int| 0 <= at < rows.len() && rows[at] == others[k];
            assert(rows[at].uuid == other && rows[at].term == term);
        }
        if holds(rows, other, term) {
            let k = choose|k: int|
                0 <= k < rows.len() && (#[trigger] rows[k]).uuid == other && rows[k].term == term;
            assert(others.contains(rows[k]));
            let at = choose|at: int| 0 <= at < others.len() && others[at] == rows[k];
            assert(after[at].uuid == other && after[at].term == term);
        }
    }
}

/// Index consistency: once a document is indexed, the index holds for each
/// of its stems one row of the document; the row's count is the number of
/// the words with that stem, and its positions denote their ordinals,
/// ascending.
pub proof fn lemma_index_consistent(
    rows: Seq<RowView>,
    uuid: u128,
    stems: Seq<Seq<char>>,
    term: Seq<char>,
)
    requires
        stems.len() <= usize::MAX,
        stems.contains(term),
    ensures
        stored_row(reindexed(rows, uuid, stems), uuid, term) == Some(row_of(uuid, stems, term)),
        stored_count(reindexed(rows, uuid, stems), uuid, term) == Some(
            occurrences(stems, term) as u64,
        ),
        stored_positions(reindexed(rows, uuid, stems), uuid, term) == Some(
            positions_text(positions_of(stems, term)),
        ),
        parse_positions(positions_text(positions_of(stems, term))) == Some(
            positions_of(stems, term),
        ),
        term_positions(reindexed(rows, uuid, stems), uuid, term) == Some(
            ordinals(positions_of(stems, term)),
        ),
        holds(reindexed(rows, uuid, stems), uuid, term),
{
    let others = without_document(rows, uuid);
    let own = rows_of(uuid, stems);
    let after = reindexed(rows, uuid, stems);
    let terms = distinct_terms(stems);
    lemma_distinct_terms_cover(stems, term);
    let at = choose|at: int| 0 <= at < terms.len() && terms[at] == term;
    lemma_without_document(rows, uuid);
    assert(after[others.len() + at] == own[at]);
    assert forall|k: int| 0 <= k < others.len() + at implies !((#[trigger] after[k]).uuid == uuid
        && after[k].term == term) by {
        if k < others.len() {
            assert(after[k] == others[k]);
        } else {
            assert(after[k] == own[k - others.len()]);
            lemma_terms_differ(stems, k - others.len(), at);
        }
    }
    lemma_first_row_is_stored(after, uuid, term, others.len() + at);
    lemma_positions_are_occurrences(stems, term);
    let found = positions_of(stems, term);
    assert(found.len() > 0) by {
        let k = choose|k: int| 0 <= k < stems.len() && stems[k] == term;
        assert(found.contains(k as u64));
    }
    lemma_positions_round_trip(found);
    lemma_ordinals_fit(found, stems.len() as int);
}

/// Once a document is indexed, the index holds for it the terms that stand
/// among its stems, and no others.
pub proof fn lemma_index_holds_the_stems(
    rows: Seq<RowView>,
    uuid: u128,
    stems: Seq<Seq<char>>,
    term: Seq<char>,
)
    ensures
        holds(reindexed(rows, uuid, stems), uuid, term) <==> stems.contains(term),
{
    let others = without_document(rows, uuid);
    let own = rows_of(uuid, stems);
    let after = reindexed(rows, uuid, stems);
    let terms = distinct_terms(stems);
    lemma_distinct_terms_cover(stems, term);
    lemma_without_document(rows, uuid);
    if stems.contains(term) {
        let at = choose|at: int| 0 <= at < terms.len() && terms[at] == term;
        assert(after[others.len() + at] == own[at]);
        assert(after[others.len() + at].uuid == uuid && after[others.len() + at].term == term);
    }
    if holds(after, uuid, term) {
        let k = choose|k: int|
            0 <= k < after.len() && (#[trigger] after[k]).uuid == uuid && after[k].term == term;
        if k < others.len() {
            assert(after[k] == others[k]);
            assert(false);
        } else {
            assert(after[k] == own[k - others.len()]);
            assert(terms[k - others.len()] == term);
        }
    }
}

/// Positions below a machine-sized bound are machine-sized ordinals.
pub proof fn lemma_ordinals_fit(positions: Seq<u64>, bound: int)
    requires
        bound <= usize::MAX,
        forall|i: int| 0 <= i < positions.len() ==> (#[trigger] positions[i]) < bound,
    ensures
        as_ordinals(positions) == Some(ordinals(positions)),
    decreases positions.len(),
{
    if positions.len() == 0 {
        assert(ordinals(positions) =~= Seq::<usize>::empty());
    } else {
        let front = positions.drop_last();
        assert(forall|i: int| 0 <= i < front.len() ==> (#[trigger] front[i]) == positions[i]);
        lemma_ordinals_fit(front, bound);
        assert(positions[positions.len() - 1] < bound);
        assert(ordinals(front).push(positions.last() as usize) =~= ordinals(positions));
    }
}

/// The documents listed for a term are those for which the index holds
/// the term.
pub proof fn lemma_docs_with_term(rows: Seq<RowView>, term: Seq<char>, uuid: u128)
    ensures
        docs_with_term(rows, term).contains(uuid) <==> holds(rows, uuid, term),
    decreases rows.len(),
{
    if rows.len() > 0 {
        let front = rows.drop_last();
        let found = docs_with_term(front, term);
        let all = docs_with_term(rows, term);
        lemma_docs_with_term(front, term, uuid);
        if all.contains(uuid) {
            let at = choose|at: int| 0 <= at < all.len() && all[at] == uuid;
            if at < found.len() {
                assert(found[at] == uuid);
                let k = choose|k: int|
                    0 <= k < front.len() && (#[trigger] front[k]).uuid == uuid && front[k].term
                        == term;
                assert(rows[k].uuid == uuid && rows[k].term == term);
            } else {
                assert(rows[rows.len() - 1].uuid == uuid && rows[rows.len() - 1].term == term);
            }
        }
        if holds(rows, uuid, term) {
            let k = choose|k: int|
                0 <= k < rows.len() && (#[trigger] rows[k]).uuid == uuid && rows[k].term == term;
            if k < front.len() {
                assert(front[k].uuid == uuid && front[k].term == term);
                let at = choose|at: int| 0 <= at < found.len() && found[at] == uuid;
                assert(all[at] == uuid);
            } else {
                assert(all.last() == uuid);
            }
        }
    }
}

/// The survivors among some documents are those that stand in every
/// include list and in no exclude list.
pub proof fn lemma_survivors(
    docs: Seq<u128>,
    include_hits: Seq<Seq<u128>>,
    exclude_hits: Seq<Seq<u128>>,
    uuid: u128,
)
    ensures
        survivors(docs, include_hits, exclude_hits).contains(uuid) <==> docs.contains(uuid)
            && in_every(include_hits, uuid) && !in_some(exclude_hits, uuid),
    decreases docs.len(),
{
    if docs.len() > 0 {
        let front = docs.drop_last();
        let kept = survivors(front, include_hits, exclude_hits);
        let all = survivors(docs, include_hits, exclude_hits);
        lemma_survivors(front, include_hits, exclude_hits, uuid);
        if all.contains(uuid) {
            let at = choose|at: int| 0 <= at < all.len() && all[at] == uuid;
            if at < kept.len() {
                assert(kept[at] == uuid);
                let k = choose|k: int| 0 <= k < front.len() && front[k] == uuid;
                assert(docs[k] == uuid);
            } else {
                assert(docs[docs.len() - 1] == uuid);
            }
        }
        if docs.contains(uuid) && in_every(include_hits, uuid) && !in_some(exclude_hits, uuid) {
            let k = choose|k: int| 0 <= k < docs.len() && docs[k] == uuid;
            if k < front.len() {
                assert(front[k] == uuid);
                let at = choose|at: int| 0 <= at < kept.len() && kept[at] == uuid;
                assert(all[at] == uuid);
            } else {
                assert(all.last() == uuid);
            }
        }
    }
}

/// Boolean search: where a query names no documents, its candidates are
/// the documents for which the index holds every include term and no
/// exclude term.
pub proof fn lemma_search_selects(
    rows: Seq<RowView>,
    required: Seq<Seq<char>>,
    excluded: Seq<Seq<char>>,
    uuid: u128,
)
    requires
        required.len() > 0,
    ensures
        candidates(rows, required, excluded, Seq::<u128>::empty()).contains(uuid) <==> (forall|
            i: int,
        |
            0 <= i < required.len() ==> holds(rows, uuid, #[trigger] required[i])) && (forall|
            j: int,
        |
            0 <= j < excluded.len() ==> !holds(rows, uuid, #[trigger] excluded[j])),
{
    let include_hits = hits_of(rows, required);
    let exclude_hits = hits_of(rows, excluded);
    lemma_survivors(include_hits[0], include_hits, exclude_hits, uuid);
    assert forall|i: int| 0 <= i < required.len() implies (include_hits[i].contains(uuid)
        <==> holds(rows, uuid, #[trigger] required[i])) by {
        lemma_docs_with_term(rows, required[i], uuid);
    }
    assert forall|j: int| 0 <= j < excluded.len() implies (exclude_hits[j].contains(uuid)
        <==> holds(rows, uuid, #[trigger] excluded[j])) by {
        lemma_docs_with_term(rows, excluded[j], uuid);
    }
    let wanted = forall|i: int|
        0 <= i < required.len() ==> holds(rows, uuid, #[trigger] required[i]);
    let unwanted = exists|j: int|
        0 <= j < excluded.len() && holds(rows, uuid, #[trigger] excluded[j]);
    if in_every(include_hits, uuid) {
        assert forall|i: int| 0 <= i < required.len() implies holds(
            rows,
            uuid,
            #[trigger] required[i],
        ) by {
            assert(include_hits[i].contains(uuid));
        }
    }
    if wanted {
        assert forall|i: int| 0 <= i < include_hits.len() implies (#[trigger] include_hits[i]).contains(
        uuid) by {
            assert(holds(rows, uuid, required[i]));
        }
        assert(include_hits[0].contains(uuid));
    }
    if in_some(exclude_hits, uuid) {
        let j = choose|j: int| 0 <= j < exclude_hits.len() && (#[trigger] exclude_hits[j]).contains(uuid);
        assert(holds(rows, uuid, excluded[j]));
    }
    if unwanted {
        let j = choose|j: int| 0 <= j < excluded.len() && holds(rows, uuid, #[trigger] excluded[j]);
        assert(exclude_hits[j].contains(uuid));
    }
}

/// A search reports its documents one item each, in their order.
pub proof fn lemma_items_follow_docs(rows: Seq<RowView>, docs: Seq<u128>, terms: Seq<Seq<char>>)
    requires
        items_of(rows, docs, terms) is Some,
    ensures
        items_of(rows, docs, terms)->0.len() == docs.len(),
        forall|i: int|
            0 <= i < docs.len() ==> (#[trigger] items_of(rows, docs, terms)->0[i]).uuid == docs[i]
                && Some(items_of(rows, docs, terms)->0[i].matches) == item_matches(
                rows,
                docs[i],
                terms,
            ),
    decreases docs.len(),
{
    if docs.len() > 0 {
        lemma_items_follow_docs(rows, docs.drop_last(), terms);
    }
}

/// Boolean search, as reported: a search without named documents and
/// without a limit reports a document exactly where the index holds every
/// include term and no exclude term for it.
pub proof fn lemma_search_reports(
    rows: Seq<RowView>,
    required: Seq<Seq<char>>,
    excluded: Seq<Seq<char>>,
    uuid: u128,
)
    requires
        required.len() > 0,
        search_outcome(rows, required, excluded, Seq::<u128>::empty(), None) is Some,
    ensures
        (exists|k: int|
            0 <= k < search_outcome(rows, required, excluded, Seq::<u128>::empty(), None)->0.len()
                && (#[trigger] search_outcome(
                rows,
                required,
                excluded,
                Seq::<u128>::empty(),
                None,
            )->0[k]).uuid == uuid) <==> (forall|i: int|
            0 <= i < required.len() ==> holds(rows, uuid, #[trigger] required[i])) && (forall|
            j: int,
        |
            0 <= j < excluded.len() ==> !holds(rows, uuid, #[trigger] excluded[j])),
{
    let docs = candidates(rows, required, excluded, Seq::<u128>::empty());
    let items = search_outcome(rows, required, excluded, Seq::<u128>::empty(), None)->0;
    lemma_items_follow_docs(rows, docs, required);
    lemma_search_selects(rows, required, excluded, uuid);
    if docs.contains(uuid) {
        let k = choose|k: int| 0 <= k < docs.len() && docs[k] == uuid;
        assert(items[k].uuid == uuid);
    }
    if exists|k: int| 0 <= k < items.len() && (#[trigger] items[k]).uuid == uuid {
        let k = choose|k: int| 0 <= k < items.len() && (#[trigger] items[k]).uuid == uuid;
        assert(docs[k] == uuid);
    }
}

/// The matches of a document hold, for every term asked for, the term with
/// the positions that the index has for it.
pub proof fn lemma_matches_hold_terms(
    rows: Seq<RowView>,
    uuid: u128,
    terms: Seq<Seq<char>>,
    i: int,
)
    requires
        0 <= i < terms.len(),
        item_matches(rows, uuid, terms) is Some,
    ensures
        term_positions(rows, uuid, terms[i]) is Some,
        item_matches(rows, uuid, terms)->0.contains(
            (terms[i], term_positions(rows, uuid, terms[i])->0),
        ),
    decreases terms.len(),
{
    let front = terms.drop_last();
    let found = item_matches(rows, uuid, front)->0;
    let all = item_matches(rows, uuid, terms)->0;
    if i < terms.len() - 1 {
        lemma_matches_hold_terms(rows, uuid, front, i);
        let at = choose|at: int|
            0 <= at < found.len() && found[at] == (
                front[i],
                term_positions(rows, uuid, front[i])->0,
            );
        assert(all[at] == found[at]);
    } else {
        if front.contains(terms.last()) {
            let k = choose|k: int| 0 <= k < front.len() && front[k] == terms.last();
            lemma_matches_hold_terms(rows, uuid, front, k);
        } else {
            assert(all.last() == (terms[i], term_positions(rows, uuid, terms[i])->0));
        }
    }
}

} // verus!
