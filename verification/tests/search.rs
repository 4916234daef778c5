use snip::analysis::SnipAnalysis;
use snip::attachment::Timestamp;
use snip::doc::Snip;
use snip::error::SnipError;
use snip::index::{clear_index, expect_single_row, index_entries, IndexRow, SearchIndex};
use snip::search::{
    get_term_positions, search_structured, search_uuids_matching_term, select_candidates,
    SearchMethod, SearchQuery, SearchQueryItem, SearchQueryResult,
};

const ID_LOREM: u128 = 0xba652e2d_b248_4bcc_b36e_c26c0d0e8002;
const ID_FUZZ: u128 = 0x990a917e_66d3_404b_9502_e8341964730b;
const ID_PROSE: u128 = 0x412f7ca8_824c_4c70_80f0_4cca6371e45a;

const IN_POSITIONS: [usize; 14] =
    [116, 159, 352, 730, 794, 809, 1043, 1114, 1143, 1317, 1341, 1362, 1397, 1417];
const IS_POSITIONS: [usize; 25] = [
    100, 110, 359, 591, 715, 806, 818, 938, 954, 1023, 1034, 1053, 1171, 1218, 1266, 1370, 1377,
    1387, 1393, 1414, 1439, 1512, 1517, 1542, 1591,
];

fn document(uuid: u128, text: String) -> Snip {
    Snip {
        uuid,
        name: "Test".to_string(),
        text,
        timestamp: Timestamp { seconds: 0, nanos: 0, offset: 0 },
        analysis: SnipAnalysis { words: Vec::new() },
        attachments: Vec::new(),
    }
}

/// A text of `len` words in which `word` stands at each of `at`.
fn text_with(len: usize, placed: &[(&str, &[usize])]) -> String {
    let mut words: Vec<String> = Vec::new();
    for i in 0..len {
        let mut word = "filler".to_string();
        for (w, at) in placed {
            if at.contains(&i) {
                word = w.to_string();
            }
        }
        words.push(word);
    }
    words.join(" ")
}

fn lorem_text() -> String {
    text_with(300, &[("lorem", &[0, 217]), ("ipsum", &[1, 50, 100, 150, 200])])
}

fn fuzz_text() -> String {
    text_with(
        120,
        &[("fuzz", &[0, 10, 20, 30, 40, 50, 60]), ("random", &[5]), ("in", &[7]), ("is", &[8])],
    )
}

fn prose_text() -> String {
    text_with(1600, &[("in", &IN_POSITIONS), ("is", &IS_POSITIONS)])
}

fn prepare_index() -> SearchIndex {
    let mut index = SearchIndex::new();
    for (id, text) in
        [(ID_LOREM, lorem_text()), (ID_FUZZ, fuzz_text()), (ID_PROSE, prose_text())]
    {
        let mut s = document(id, text);
        s.analyze().unwrap();
        s.index(&mut index).unwrap();
    }
    index
}

fn query(required: &[&str], excluded: &[&str], uuids: Vec<u128>) -> SearchQuery {
    SearchQuery {
        terms_include: required.iter().map(|t| t.to_string()).collect(),
        terms_exclude: excluded.iter().map(|t| t.to_string()).collect(),
        terms_optional: vec![],
        method: SearchMethod::IndexStem,
        uuids,
        limit: None,
    }
}

fn positions_of<'a>(item: &'a SearchQueryItem, term: &str) -> Option<&'a Vec<usize>> {
    item.matches.iter().find(|m| m.0 == term).map(|m| &m.1)
}

#[test]
fn doc_test_index_snip() {
    index_of_the_lorem_document();
}

#[test]
fn snip_test_index_snip() {
    index_of_the_lorem_document();
}

#[test]
fn test_index_snip() {
    index_of_the_lorem_document();
}

fn index_of_the_lorem_document() {
    let mut index = SearchIndex::new();
    let mut s = document(ID_LOREM, lorem_text());

    s.index(&mut index).unwrap();
    // check data
    let rows: Vec<&IndexRow> =
        index.rows.iter().filter(|r| r.uuid == ID_LOREM && r.term == "lorem").collect();
    assert_eq!(rows.len(), 1);
    for d in rows {
        if d.count != 2 {
            panic!("expected count {}, got {}", 2, d.count);
        }
        let positions = snip::analysis::WordIndex::positions_to_u64(d.positions.clone()).unwrap();
        let positions_expect: Vec<u64> = vec![0, 217];
        if positions != positions_expect {
            panic!("expected positions {:?}, got {:?}", positions_expect, positions);
        }
    }
}

#[test]
fn test_search_structured() {
    let index = prepare_index();

    let query = SearchQuery {
        terms_include: vec!["in".to_string(), "is".to_string()],
        terms_exclude: vec!["fuzz".to_string()],
        terms_optional: vec![],
        method: SearchMethod::IndexStem,
        uuids: vec![],
        limit: None,
    };

    let expect = SearchQueryResult {
        items: vec![SearchQueryItem {
            uuid: ID_PROSE,
            matches: vec![
                (
                    "in".to_string(),
                    vec![
                        116, 159, 352, 730, 794, 809, 1043, 1114, 1143, 1317, 1341, 1362, 1397,
                        1417,
                    ],
                ),
                (
                    "is".to_string(),
                    vec![
                        100, 110, 359, 591, 715, 806, 818, 938, 954, 1023, 1034, 1053, 1171,
                        1218, 1266, 1370, 1377, 1387, 1393, 1414, 1439, 1512, 1517, 1542, 1591,
                    ],
                ),
            ],
        }],
    };

    let result = search_structured(&index, query).unwrap();

    let expect_item = expect.items.first().expect("getting first expect_item");
    let result_item = result.items.first().expect("getting first result_item");
    if expect_item.uuid != result_item.uuid {
        panic!("expected uuid {} got {}", expect_item.uuid, result_item.uuid);
    }

    if expect_item.matches != result_item.matches {
        panic!("expected item {:?} got {:?}", expect_item, result_item);
    }
    assert_eq!(result.items.len(), 1);
}

#[test]
fn test_search_structured_uuids() {
    let index = prepare_index();

    // Lorem ipsum
    let query = SearchQuery {
        terms_include: vec!["lorem".to_string(), "ipsum".to_string()],
        terms_exclude: vec!["fuzz".to_string()],
        terms_optional: vec![],
        method: SearchMethod::IndexStem,
        uuids: vec![ID_LOREM],
        limit: None,
    };
    let result = search_structured(&index, query).unwrap();
    let item = result.items.get(0).unwrap();
    // check length of positions for "lorem"
    let item_lorem_len = positions_of(item, "lorem").unwrap().len();
    let item_lorem_len_expect = 2;
    if item_lorem_len != item_lorem_len_expect {
        panic!("expected {} matches for 'lorem', got {}", item_lorem_len_expect, item_lorem_len);
    }
    // check length of positions for "ipsum"
    let item_ipsum_len = positions_of(item, "ipsum").unwrap().len();
    let item_ipsum_len_expect = 5;
    if item_ipsum_len != item_ipsum_len_expect {
        panic!("expected {} matches for 'ipsum', got {}", item_ipsum_len_expect, item_ipsum_len);
    }

    // Fuzzing document
    let query = SearchQuery {
        terms_include: vec!["fuzz".to_string(), "random".to_string()],
        terms_exclude: vec!["lorem".to_string()],
        terms_optional: vec![],
        method: SearchMethod::IndexStem,
        uuids: vec![ID_FUZZ],
        limit: None,
    };
    let result = search_structured(&index, query).unwrap();
    // check length of positions for "fuzz"
    let item = result.items.get(0).unwrap();
    let item_fuzz_len = positions_of(item, "fuzz").unwrap().len();
    let item_fuzz_len_expect = 7;
    if item_fuzz_len != item_fuzz_len_expect {
        panic!("expected {} matches for 'fuzz', got {}", item_fuzz_len_expect, item_fuzz_len);
    }
    // check length of positions for "random"
    let item_random_len = positions_of(item, "random").unwrap().len();
    let item_random_len_expect = 1;
    if item_random_len != item_random_len_expect {
        panic!(
            "expected {} matches for 'random', got {}",
            item_random_len_expect, item_random_len
        );
    }
}

#[test]
fn sample_document_is_indexed_and_found() {
    let mut index = SearchIndex::new();
    let mut d = document(1, "Lorem ipsum dolor. Lorem fuzz.".to_string());
    d.index(&mut index).unwrap();
    assert_eq!(d.analysis.words.len(), 5);
    let row = index.rows.iter().find(|r| r.term == "lorem").unwrap();
    assert_eq!((row.uuid, row.count, row.positions.as_str()), (1, 2, "0,3"));
    let terms: Vec<&str> = index.rows.iter().map(|r| r.term.as_str()).collect();
    assert_eq!(terms, vec!["lorem", "ipsum", "dolor", "fuzz"]);

    let result = search_structured(&index, query(&["lorem"], &[], vec![])).unwrap();
    assert_eq!(result.items.len(), 1);
    assert_eq!(result.items[0].uuid, 1);
    assert_eq!(positions_of(&result.items[0], "lorem"), Some(&vec![0, 3]));

    let result = search_structured(&index, query(&["lorem"], &["fuzz"], vec![])).unwrap();
    assert!(result.items.is_empty());
}

#[test]
fn search_excludes_and_intersects() {
    let mut index = SearchIndex::new();
    let mut d = document(1, "alpha beta gamma".to_string());
    let mut e = document(2, "beta alpha delta".to_string());
    let mut f = document(3, "alpha zeta".to_string());
    d.index(&mut index).unwrap();
    e.index(&mut index).unwrap();
    f.index(&mut index).unwrap();
    let ids = |r: &SearchQueryResult| r.items.iter().map(|i| i.uuid).collect::<Vec<u128>>();

    let r = search_structured(&index, query(&["alpha", "beta"], &["gamma"], vec![])).unwrap();
    assert_eq!(ids(&r), vec![2]);
    assert_eq!(positions_of(&r.items[0], "alpha"), Some(&vec![1]));
    assert_eq!(positions_of(&r.items[0], "beta"), Some(&vec![0]));
    let r = search_structured(&index, query(&["alpha", "beta"], &[], vec![])).unwrap();
    assert_eq!(ids(&r), vec![1, 2]);
    let r = search_structured(&index, query(&["alpha"], &["beta", "zeta"], vec![])).unwrap();
    assert!(r.items.is_empty());
    let r = search_structured(&index, query(&["alpha", "missing"], &[], vec![])).unwrap();
    assert!(r.items.is_empty());
    // without an include term nothing is a candidate
    let r = search_structured(&index, query(&[], &["beta"], vec![])).unwrap();
    assert!(r.items.is_empty());
}

#[test]
fn search_in_named_documents_skips_the_index_rules() {
    let index = prepare_index();
    // the excluded term is present, and one include term is absent
    let r = search_structured(&index, query(&["fuzz", "lorem"], &["random"], vec![ID_FUZZ]))
        .unwrap();
    assert_eq!(r.items.len(), 1);
    assert_eq!(r.items[0].uuid, ID_FUZZ);
    assert_eq!(positions_of(&r.items[0], "fuzz").unwrap().len(), 7);
    assert_eq!(positions_of(&r.items[0], "lorem"), Some(&vec![]));
}

#[test]
fn search_reports_each_term_once_and_honours_the_limit() {
    let index = prepare_index();
    let r = search_structured(&index, query(&["in", "is", "in"], &[], vec![])).unwrap();
    let ids: Vec<u128> = r.items.iter().map(|i| i.uuid).collect();
    assert_eq!(ids, vec![ID_FUZZ, ID_PROSE]);
    let terms: Vec<&str> = r.items[0].matches.iter().map(|m| m.0.as_str()).collect();
    assert_eq!(terms, vec!["in", "is"]);

    let mut q = query(&["in", "is"], &[], vec![]);
    q.limit = Some(1);
    let r = search_structured(&index, q).unwrap();
    assert_eq!(r.items.len(), 1);
    assert_eq!(r.items[0].uuid, ID_FUZZ);
    let mut q = query(&["in", "is"], &[], vec![]);
    q.limit = Some(0);
    assert!(search_structured(&index, q).unwrap().items.is_empty());
    let mut q = query(&["in"], &[], vec![ID_LOREM, ID_FUZZ, ID_PROSE]);
    q.limit = Some(2);
    assert_eq!(search_structured(&index, q).unwrap().items.len(), 2);
}

#[test]
fn indexing_twice_changes_nothing() {
    let mut index = prepare_index();
    let before: Vec<(String, u128, u64, String)> = index
        .rows
        .iter()
        .map(|r| (r.term.clone(), r.uuid, r.count, r.positions.clone()))
        .collect();
    let mut s = document(ID_PROSE, prose_text());
    s.index(&mut index).unwrap();
    s.index(&mut index).unwrap();
    let after: Vec<(String, u128, u64, String)> = index
        .rows
        .iter()
        .map(|r| (r.term.clone(), r.uuid, r.count, r.positions.clone()))
        .collect();
    assert_eq!(before, after);
}

#[test]
fn indexing_replaces_the_rows_of_the_document() {
    let mut index = SearchIndex::new();
    let mut a = document(1, "one two".to_string());
    let mut b = document(2, "two three".to_string());
    a.index(&mut index).unwrap();
    b.index(&mut index).unwrap();
    let mut a = document(1, "four four".to_string());
    a.index(&mut index).unwrap();
    let rows: Vec<(&str, u128, u64, &str)> = index
        .rows
        .iter()
        .map(|r| (r.term.as_str(), r.uuid, r.count, r.positions.as_str()))
        .collect();
    assert_eq!(rows, vec![("two", 2, 1, "0"), ("three", 2, 1, "1"), ("four", 1, 2, "0,1")]);
    assert_eq!(search_uuids_matching_term(&index, &"two".to_string()).unwrap(), vec![2]);
    assert_eq!(clear_index(&mut index), 3);
    assert!(index.rows.is_empty());
}

#[test]
fn index_entries_group_positions_by_stem() {
    let mut s = document(1, "b a b c a b".to_string());
    s.analyze().unwrap();
    let entries = index_entries(&s.analysis.words);
    let got: Vec<(&str, u64, Vec<u64>)> =
        entries.iter().map(|e| (e.term.as_str(), e.count, e.positions.clone())).collect();
    assert_eq!(
        got,
        vec![("b", 3, vec![0, 2, 5]), ("a", 2, vec![1, 4]), ("c", 1, vec![3])]
    );
    assert!(index_entries(&Vec::new()).is_empty());
}

#[test]
fn malformed_rows_fail_the_lookup() {
    let mut index = prepare_index();
    index.rows.push(IndexRow {
        term: "broken".to_string(),
        uuid: ID_LOREM,
        count: 1,
        positions: "1,x".to_string(),
    });
    let e = get_term_positions(&index, ID_LOREM, &"broken".to_string()).unwrap_err();
    assert!(matches!(e, SnipError::General(_)));
    let e = search_structured(&index, query(&["broken"], &[], vec![])).unwrap_err();
    assert!(matches!(e, SnipError::General(_)));
    // a row that is not needed does no harm
    assert!(search_structured(&index, query(&["lorem"], &[], vec![])).is_ok());
    assert_eq!(
        get_term_positions(&index, ID_LOREM, &"lorem".to_string()).unwrap(),
        vec![0, 217]
    );
    assert!(get_term_positions(&index, ID_LOREM, &"absent".to_string()).unwrap().is_empty());
}

#[test]
fn candidates_from_hit_lists() {
    assert_eq!(
        select_candidates(&vec![vec![1, 2, 3, 4], vec![4, 2, 9], vec![2, 4]], &vec![vec![4]]),
        vec![2]
    );
    assert_eq!(select_candidates(&vec![vec![3, 1, 3]], &vec![]), vec![3, 1, 3]);
    assert!(select_candidates(&vec![], &vec![vec![1]]).is_empty());
}

#[test]
fn terms_without_repetition() {
    let terms: Vec<String> = ["b", "a", "b", "c", "a"].iter().map(|t| t.to_string()).collect();
    assert_eq!(snip::search::distinct(&terms), vec!["b", "a", "c"]);
    assert!(snip::search::distinct(&Vec::new()).is_empty());
}

#[test]
fn writes_must_touch_one_row() {
    assert!(expect_single_row(1).is_ok());
    assert!(matches!(expect_single_row(0), Err(SnipError::General(_))));
    assert!(matches!(expect_single_row(2), Err(SnipError::General(_))));
}
