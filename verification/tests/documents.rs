use snip::analysis::SnipAnalysis;
use snip::attachment::{attachment_from_db, Attachment, Timestamp};
use snip::doc::{index_all_items, snip_from_db, snip_from_text, Snip};
use snip::error::SnipError;
use snip::header::{parse_header, parse_text};
use snip::ids::{
    parse_uuid, search_attachment_uuid, search_uuid, split_at_hyphens, split_uuid, uuid_to_string,
};
use snip::index::SearchIndex;
use snip::listing::{ListEntry, ListHeading, ListHeadingAlignment, ListHeadingKind};
use snip::present::{find_terms, search_all_present};
use snip::search::get_word_index;
use snip::stem::stem_vec;
use snip::time::{format_timestamp, parse_timestamp};

const HEADER_ID: u128 = 0x80fb4982_3a12_4804_9226_e54ffda66431;

fn document(uuid: u128, text: &str) -> Snip {
    Snip {
        uuid,
        name: "Test".to_string(),
        text: text.to_string(),
        timestamp: Timestamp { seconds: 0, nanos: 0, offset: 0 },
        analysis: SnipAnalysis { words: Vec::new() },
        attachments: Vec::new(),
    }
}

#[test]
fn test_parse_header() {
    let data = format!(
        "{}{}{}{}",
        "uuid: 80fb4982-3a12-4804-9226-e54ffda66431\n",
        "name: uname output\n",
        "timestamp: 2023-06-10T13:35:39.142965-07:00\n",
        "----\n",
    );
    let header = parse_header(&data).unwrap();
    assert_eq!(header.uuid, HEADER_ID);
    assert_eq!(header.name, "uname output");
    // 13:35:39 at seven hours west of Greenwich, taken to UTC
    assert_eq!(
        header.timestamp,
        Timestamp { seconds: 1686429339, nanos: 142965000, offset: 0 }
    );
}

#[test]
fn headers_that_are_malformed() {
    for data in [
        "",
        "uuid: 80fb4982-3a12-4804-9226-e54ffda66431\nname: n\ntimestamp: 2023-06-10T13:35:39Z",
        "uuid: nothing\nname: n\ntimestamp: 2023-06-10T13:35:39Z\n----\n",
        "uuid: 80fb4982-3a12-4804-9226-e54ffda66431\nname: n\ntimestamp: yesterday\n----\n",
        "name: n\nuuid: 80fb4982-3a12-4804-9226-e54ffda66431\ntimestamp: 2023-06-10T13:35:39Z\n----\n",
        "uuid 80fb4982-3a12-4804-9226-e54ffda66431\nname: n\ntimestamp: 2023-06-10T13:35:39Z\n----\n",
    ] {
        let e = parse_header(data).unwrap_err();
        assert!(matches!(e, SnipError::General(_)), "{}", data);
    }
    let e = parse_header("one\ntwo").unwrap_err();
    assert_eq!(e.message(), "malformed header: one\ntwo");
}

#[test]
fn text_of_a_document_file() {
    assert_eq!(parse_text("h\n----\nline one\nline two\n----\n").unwrap(), "line one\nline two\n");
    assert_eq!(parse_text("h\n----\n----\n").unwrap(), "\n");
    assert_eq!(
        parse_text("h\n----\na\n----\nb\n----\nattachments:\n").unwrap(),
        "a\n----\nb\n"
    );
    // without a rule the text is one line feed
    assert_eq!(parse_text("no rule at all").unwrap(), "\n");
    assert_eq!(parse_text("").unwrap(), "\n");
    // a line that merely starts with the rule is none
    assert_eq!(parse_text("----\n-----\n----").unwrap(), "-----\n");
    let e = parse_text("head\n----\nbody").unwrap_err();
    assert!(matches!(e, SnipError::General(_)));
    assert_eq!(e.message(), "parsing document text from file");
}

#[test]
fn document_from_file_text_and_back() {
    let data = "uuid: 80fb4982-3a12-4804-9226-e54ffda66431\nname: uname output\ntimestamp: 2023-06-10T20:35:39.142965+00:00\n----\nLinux host 6.1\nsecond line\n----\n";
    let s = snip_from_text(data).unwrap();
    assert_eq!(s.uuid, HEADER_ID);
    assert_eq!(s.name, "uname output");
    assert_eq!(s.text, "Linux host 6.1\nsecond line\n");
    assert!(s.analysis.words.is_empty());
    assert!(s.attachments.is_empty());
    assert_eq!(s.render().unwrap(), data);
    assert!(snip_from_text("uuid: x\n").is_err());
    assert!(snip_from_text(
        "uuid: 80fb4982-3a12-4804-9226-e54ffda66431\nname: n\ntimestamp: 2023-06-10T20:35:39Z\n----\nopen"
    )
    .is_err());
}

#[test]
fn rendering_closes_the_text_and_lists_attachments() {
    let mut s = document(HEADER_ID, "no line feed");
    s.name = "a name".to_string();
    s.timestamp = Timestamp { seconds: 1686429339, nanos: 0, offset: -7 * 3600 };
    assert_eq!(
        s.render().unwrap(),
        "uuid: 80fb4982-3a12-4804-9226-e54ffda66431\nname: a name\ntimestamp: 2023-06-10T13:35:39-07:00\n----\nno line feed\n----\n"
    );
    s.text = String::new();
    s.attachments.push(Attachment {
        uuid: 0x9cfc5a2d_2946_48ee_82e0_227ba4bcdbd5,
        snip_uuid: HEADER_ID,
        timestamp: s.timestamp,
        name: "udhr.pdf".to_string(),
        data: vec![1, 2, 3],
        size: 358400,
    });
    s.attachments.push(Attachment {
        uuid: 1,
        snip_uuid: HEADER_ID,
        timestamp: s.timestamp,
        name: "big".to_string(),
        data: vec![],
        size: 12345678901,
    });
    let expect = format!(
        "uuid: 80fb4982-3a12-4804-9226-e54ffda66431\nname: a name\ntimestamp: 2023-06-10T13:35:39-07:00\n----\n\n----\nattachments:\n{:<36} {:>10} name\n{} {:>10} {}\n{} {:>10} {}\n",
        "uuid",
        "bytes",
        "9cfc5a2d-2946-48ee-82e0-227ba4bcdbd5",
        358400,
        "udhr.pdf",
        "00000000-0000-0000-0000-000000000001",
        12345678901u64,
        "big"
    );
    assert_eq!(s.render().unwrap(), expect);
    // a time that the calendar cannot hold
    s.timestamp = Timestamp { seconds: i64::MAX, nanos: 0, offset: 0 };
    assert!(matches!(s.render(), Err(SnipError::General(_))));
    s.timestamp = Timestamp { seconds: 0, nanos: 0, offset: 86_400 };
    assert!(matches!(s.render(), Err(SnipError::General(_))));
}

#[test]
fn documents_and_attachments_from_stored_rows() {
    let s = snip_from_db(
        "ba652e2d-b248-4bcc-b36e-c26c0d0e8002".to_string(),
        "2023-06-10T13:35:39.5-07:00".to_string(),
        "Lorem".to_string(),
        "Lorem ipsum".to_string(),
    )
    .unwrap();
    assert_eq!(s.uuid, 0xba652e2d_b248_4bcc_b36e_c26c0d0e8002);
    assert_eq!(s.timestamp, Timestamp { seconds: 1686429339, nanos: 500_000_000, offset: 0 });
    assert_eq!((s.name.as_str(), s.text.as_str()), ("Lorem", "Lorem ipsum"));
    assert!(snip_from_db("x".into(), "2023-06-10T13:35:39Z".into(), "n".into(), "t".into())
        .is_err());
    assert!(snip_from_db(
        "ba652e2d-b248-4bcc-b36e-c26c0d0e8002".into(),
        "10 June".into(),
        "n".into(),
        "t".into()
    )
    .is_err());

    let a = attachment_from_db(
        "9cfc5a2d-2946-48ee-82e0-227ba4bcdbd5".to_string(),
        "ba652e2d-b248-4bcc-b36e-c26c0d0e8002".to_string(),
        "2023-06-10T13:35:39-07:00".to_string(),
        "udhr.pdf".to_string(),
        3,
        vec![7, 8, 9],
    )
    .unwrap();
    assert_eq!(a.uuid, 0x9cfc5a2d_2946_48ee_82e0_227ba4bcdbd5);
    assert_eq!(a.snip_uuid, 0xba652e2d_b248_4bcc_b36e_c26c0d0e8002);
    // the attachment keeps the offset of its time
    assert_eq!(a.timestamp, Timestamp { seconds: 1686429339, nanos: 0, offset: -25200 });
    assert_eq!((a.name.as_str(), a.size, a.data.as_slice()), ("udhr.pdf", 3, &[7u8, 8, 9][..]));
    for (id, owner, time) in [
        ("?", "ba652e2d-b248-4bcc-b36e-c26c0d0e8002", "2023-06-10T13:35:39Z"),
        ("9cfc5a2d-2946-48ee-82e0-227ba4bcdbd5", "?", "2023-06-10T13:35:39Z"),
        ("9cfc5a2d-2946-48ee-82e0-227ba4bcdbd5", "ba652e2d-b248-4bcc-b36e-c26c0d0e8002", "?"),
    ] {
        let e = attachment_from_db(id.into(), owner.into(), time.into(), "n".into(), 0, vec![])
            .unwrap_err();
        assert!(matches!(e, SnipError::General(_)));
    }
}

#[test]
fn identifiers_as_text() {
    let id = parse_uuid("BA652E2D-b248-4bcc-b36e-c26c0d0e8002").unwrap();
    assert_eq!(id, 0xba652e2d_b248_4bcc_b36e_c26c0d0e8002);
    assert_eq!(parse_uuid("ba652e2db2484bccb36ec26c0d0e8002").unwrap(), id);
    assert_eq!(uuid_to_string(id), "ba652e2d-b248-4bcc-b36e-c26c0d0e8002");
    assert_eq!(uuid_to_string(0), "00000000-0000-0000-0000-000000000000");
    assert_eq!(split_uuid(&id), vec!["ba652e2d", "b248", "4bcc", "b36e", "c26c0d0e8002"]);
    assert_eq!(split_at_hyphens("a--b-"), vec!["a", "", "b", ""]);
    assert_eq!(split_at_hyphens(""), vec![""]);
    assert!(matches!(parse_uuid("ba652e2d"), Err(SnipError::General(_))));
    assert!(matches!(parse_uuid(""), Err(SnipError::General(_))));
}

#[test]
fn partial_identifiers_must_match_once() {
    let full = "ba652e2d-b248-4bcc-b36e-c26c0d0e8002".to_string();
    let other = "990a917e-66d3-404b-9502-e8341964730b".to_string();
    assert_eq!(
        search_uuid(&vec![full.clone()], "ba65").unwrap(),
        0xba652e2d_b248_4bcc_b36e_c26c0d0e8002
    );
    let e = search_uuid(&vec![full.clone(), other.clone()], "0").unwrap_err();
    assert!(matches!(e, SnipError::UuidMultipleMatches(_)));
    assert_eq!(e.message(), "provided partial 0 returned multiple document uuids");
    let e = search_uuid(&vec![], "zz").unwrap_err();
    assert!(matches!(e, SnipError::UuidNotFound(_)));
    assert_eq!(e.message(), "uuid The document id was not found using id zz was not found");
    assert!(matches!(search_uuid(&vec![String::new()], "zz"), Err(SnipError::UuidNotFound(_))));
    assert!(matches!(search_uuid(&vec!["nothing".into()], "no"), Err(SnipError::General(_))));

    assert_eq!(
        search_attachment_uuid(&vec![other.clone()], "990a").unwrap(),
        0x990a917e_66d3_404b_9502_e8341964730b
    );
    let e = search_attachment_uuid(&vec![full, other], "0").unwrap_err();
    assert!(matches!(&e, SnipError::UuidMultipleMatches(s) if s == "provided partial 0 returned multiple attachment uuids"));
    let e = search_attachment_uuid(&vec![], "zz").unwrap_err();
    assert!(matches!(&e, SnipError::UuidNotFound(s) if s == "attachment uuid not found using partial zz"));
}

#[test]
fn times_as_text() {
    let t = parse_timestamp("2023-06-10T13:35:39.142965-07:00").unwrap();
    assert_eq!(t, Timestamp { seconds: 1686429339, nanos: 142965000, offset: -25200 });
    assert_eq!(format_timestamp(&t).unwrap(), "2023-06-10T13:35:39.142965-07:00");
    assert_eq!(format_timestamp(&t.to_utc()).unwrap(), "2023-06-10T20:35:39.142965+00:00");
    assert_eq!(
        format_timestamp(&Timestamp { seconds: 0, nanos: 0, offset: 0 }).unwrap(),
        "1970-01-01T00:00:00+00:00"
    );
    assert!(matches!(parse_timestamp("2023-06-10"), Err(SnipError::General(_))));
    assert!(matches!(parse_timestamp(""), Err(SnipError::General(_))));
    assert!(format_timestamp(&Timestamp { seconds: 0, nanos: 0, offset: -86_400 }).is_err());
}

#[test]
fn errors_as_text() {
    assert_eq!(SnipError::Analysis("x".into()).message(), "Analysis encountered an error: x");
    assert_eq!(SnipError::General("x".into()).message(), "x");
    assert_eq!(SnipError::UuidMultipleMatches("x".into()).message(), "x");
    assert_eq!(SnipError::SearchNoMatches("x".into()).message(), "x");
    assert_eq!(SnipError::UuidNotFound("x".into()).message(), "uuid x was not found");
}

#[test]
fn headings_of_listings() {
    let mut heading = ListHeading { kind: ListHeadingKind::Document, columns: Vec::new() };
    assert_eq!(heading.build(), "");
    heading.add("uuid", 8, ListHeadingAlignment::Left);
    heading.add("size", 9, ListHeadingAlignment::Right);
    heading.add("name", 0, ListHeadingAlignment::Left);
    assert_eq!(heading.columns.len(), 3);
    assert_eq!(heading.build(), "uuid          size name ");
    let mut heading = ListHeading { kind: ListHeadingKind::Attachment, columns: Vec::new() };
    heading.add("größe", 8, ListHeadingAlignment::Right);
    // the width counts bytes
    assert_eq!(heading.build(), " größe ");
}

#[test]
fn search_terms_are_stemmed_as_typed() {
    let stems = stem_vec(vec!["Running".into(), "LOREM".into(), "dogs".into(), "".into()]);
    assert_eq!(stems.unwrap(), vec!["run", "lorem", "dog", ""]);
    assert!(stem_vec(vec![]).unwrap().is_empty());
}

#[test]
fn all_documents_are_indexed_anew() {
    let mut index = SearchIndex::new();
    let mut stale = document(9, "stale words");
    stale.index(&mut index).unwrap();
    let mut docs = vec![document(1, "one two"), document(2, ""), document(3, "two two three")];
    index_all_items(&mut docs, &mut index).unwrap();
    let rows: Vec<(&str, u128, u64, &str)> = index
        .rows
        .iter()
        .map(|r| (r.term.as_str(), r.uuid, r.count, r.positions.as_str()))
        .collect();
    assert_eq!(
        rows,
        vec![("one", 1, 1, "0"), ("two", 1, 1, "1"), ("two", 3, 2, "0,1"), ("three", 3, 1, "2")]
    );
    assert_eq!(docs[0].analysis.words.len(), 2);
    assert_eq!(docs[2].analysis.words[2].stem, "three");

    let entry = get_word_index(&index, 3, &"two".to_string()).unwrap();
    assert_eq!((entry.term.as_str(), entry.count, entry.positions), ("two", 2, vec![0, 1]));
    let e = get_word_index(&index, 1, &"three".to_string()).unwrap_err();
    assert!(matches!(&e, SnipError::UuidNotFound(s) if s == "word not found"));
    index.rows[0].positions = "zero".to_string();
    assert!(matches!(get_word_index(&index, 1, &"one".to_string()), Err(SnipError::General(_))));
}

#[test]
fn test_search_all_present() {
    let mut index = SearchIndex::new();
    let mut docs = vec![
        document(1, "lorem ipsum dolor lorem"),
        document(2, "dolor sit amet"),
        document(3, "nothing here"),
    ];
    index_all_items(&mut docs, &mut index).unwrap();

    let terms: Vec<String> = vec!["lorem".to_string(), "ipsum".to_string(), "dolor".to_string()];
    let stems = stem_vec(terms).unwrap();
    let result = search_all_present(&index, stems).unwrap();

    println!("number of results: {}", result.items.len());
    println!("{:#?}", result);
    assert_eq!(result.items.len(), 2);
    let shape: Vec<(u128, Vec<(&str, &[usize])>)> = result
        .items
        .iter()
        .map(|(id, entries)| {
            (
                *id,
                entries
                    .iter()
                    .map(|e| {
                        assert_eq!(e.matches.len(), 1);
                        (e.matches[0].0.as_str(), e.matches[0].1.as_slice())
                    })
                    .collect(),
            )
        })
        .collect();
    assert_eq!(
        shape,
        vec![
            (1, vec![("lorem", &[0usize, 3][..]), ("ipsum", &[1][..]), ("dolor", &[2][..])]),
            (2, vec![("dolor", &[0usize][..])]),
        ]
    );

    let found = find_terms(&index, &vec!["dolor".to_string(), "absent".to_string()]).unwrap();
    let rows: Vec<(u128, &str)> = found.iter().map(|f| (f.uuid, f.term.as_str())).collect();
    assert_eq!(rows, vec![(1, "dolor"), (2, "dolor")]);
    index.rows[0].positions = "0;3".to_string();
    assert!(matches!(
        search_all_present(&index, vec!["lorem".to_string()]),
        Err(SnipError::General(_))
    ));
    assert!(search_all_present(&index, vec!["dolor".to_string()]).is_ok());
}

#[test]
fn cells_of_a_listing() {
    let entry = ListEntry {
        uuid: 0xba652e2d_b248_4bcc_b36e_c26c0d0e8002,
        document: Some(0x990a917e_66d3_404b_9502_e8341964730b),
        time: "2023-06-10T20:35:39+00:00".to_string(),
        size: "358400".to_string(),
        name: "udhr.pdf".to_string(),
    };
    let mut heading = ListHeading { kind: ListHeadingKind::Attachment, columns: Vec::new() };
    heading.add("uuid", 8, ListHeadingAlignment::Left);
    heading.add("document", 8, ListHeadingAlignment::Left);
    heading.add("time", 33, ListHeadingAlignment::Left);
    heading.add("size", 9, ListHeadingAlignment::Right);
    heading.add("name", 0, ListHeadingAlignment::Left);
    heading.add("uuid", 36, ListHeadingAlignment::Left);
    assert_eq!(
        heading.cells(&entry).unwrap(),
        vec![
            "ba652e2d",
            "990a917e",
            "2023-06-10T20:35:39+00:00",
            "   358400",
            "udhr.pdf",
            "ba652e2d-b248-4bcc-b36e-c26c0d0e8002"
        ]
    );
    heading.add("colour", 3, ListHeadingAlignment::Left);
    let e = heading.cells(&entry).unwrap_err();
    assert!(matches!(&e, SnipError::General(s) if s == "invalid column name supplied"));

    // a document has no document of its own to show
    let mut heading = ListHeading { kind: ListHeadingKind::Document, columns: Vec::new() };
    heading.add("document", 8, ListHeadingAlignment::Left);
    let entry = ListEntry { document: None, ..entry };
    assert!(heading.cells(&entry).is_err());
    assert_eq!(snip::listing::short_uuid_of(0), "00000000");
}
