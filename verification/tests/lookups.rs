use snip::ids::{parse_uuid, search_attachment_uuid, search_uuid};
use std::collections::HashMap;

const ID_STR: &str = "ba652e2d-b248-4bcc-b36e-c26c0d0e8002";
const ID_ATTACH_STR: &str = "9cfc5a2d-2946-48ee-82e0-227ba4bcdbd5";

const DOCUMENTS: [&str; 3] = [
    "ba652e2d-b248-4bcc-b36e-c26c0d0e8002",
    "990a917e-66d3-404b-9502-e8341964730b",
    "412f7ca8-824c-4c70-80f0-4cca6371e45a",
];

const ATTACHMENTS: [&str; 2] =
    ["9cfc5a2d-2946-48ee-82e0-227ba4bcdbd5", "1f0e1d3c-7a5b-4c8d-9e2f-3a4b5c6d7e8f"];

/// What a store finds for a part of an identifier: the identifiers that hold
/// it, two of them at most.
fn lookup(stored: &[&str], part: &str) -> Vec<String> {
    stored.iter().filter(|id| id.contains(part)).take(2).map(|id| id.to_string()).collect()
}

fn fragment_uuid(id_str: &str) -> HashMap<String, String> {
    let partials: HashMap<String, String> = HashMap::from([
        (id_str[0..8].to_string(), "segment 1".to_string()),
        (id_str[9..13].to_string(), "segment 2".to_string()),
        (id_str[14..18].to_string(), "segment 3".to_string()),
        (id_str[19..23].to_string(), "segment 4".to_string()),
        (id_str[24..].to_string(), "segment 5".to_string()),
        (id_str[7..12].to_string(), "partial 1".to_string()),
        (id_str[7..14].to_string(), "partial 2".to_string()),
        (id_str[7..15].to_string(), "partial 3".to_string()),
        (id_str[8..19].to_string(), "partial 4".to_string()),
        (id_str[23..].to_string(), "partial 5".to_string()),
    ]);

    partials
}

fn all_partials_find(stored: &[&str], full: &str, attachment: bool) {
    let partials = fragment_uuid(full);
    let expect = match parse_uuid(full) {
        Ok(v) => v,
        Err(e) => panic!("{}", e.message()),
    };

    // test all uuid string partials
    for p in &partials {
        println!("search uuid string: {}", p.0);
        let found = lookup(stored, p.0);
        let id = if attachment {
            search_attachment_uuid(&found, p.0)
        } else {
            search_uuid(&found, p.0)
        };
        match id {
            Ok(v) => assert_eq!(expect, v),
            Err(e) => panic!("{}, full: {}, partial: {}", e.message(), full, &p.0),
        }
    }
}

#[test]
fn search_test_search_uuid() {
    all_partials_find(&DOCUMENTS, ID_STR, false);
}

#[test]
fn snip_test_search_uuid() {
    all_partials_find(&DOCUMENTS, ID_STR, false);
}

#[test]
fn test_search_attachment_uuid() {
    all_partials_find(&ATTACHMENTS, ID_ATTACH_STR, true);
}

#[test]
fn a_part_that_many_hold_is_ambiguous() {
    let found = lookup(&DOCUMENTS, "-");
    assert_eq!(found.len(), 2);
    assert!(search_uuid(&found, "-").is_err());
    assert!(search_uuid(&lookup(&DOCUMENTS, "zzzz"), "zzzz").is_err());
}
