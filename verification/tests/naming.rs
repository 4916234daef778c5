use snip::header::parse_field;
use snip::naming::{find_by_graph, generate_name, strip_punctuation};

const ID_STR: &str = "ba652e2d-b248-4bcc-b36e-c26c0d0e8002";

#[test]
fn test_generate_name() {
    let text = "Documents are good: for the soul, and other things as well.".to_string();
    let expect = "Documents are good for the soul".to_string();

    let result = generate_name(&text, 6).unwrap();
    if result != expect {
        panic!("expected '{}', got '{}'", expect, result);
    }
}

#[test]
fn doc_test_generate_name() {
    let text = "Documents are good: for the soul, and other things as well.".to_string();
    let expect = "Documents are good for the soul".to_string();

    let result = generate_name(&text, 6).unwrap();
    if result != expect {
        panic!("expected '{}', got '{}'", expect, result);
    }
}

#[test]
fn test_parse_field() {
    let data = format!("uuid: {}", ID_STR);
    let result = parse_field("uuid", &data).unwrap();
    let expect = ID_STR;

    assert_eq!(result, expect);
}

#[test]
fn generate_name_joins_fewer_words() {
    assert_eq!(generate_name("one, two", 6).unwrap(), "one two");
    assert_eq!(generate_name("one two three", 3).unwrap(), "one two three");
    assert_eq!(generate_name("one two three", 0).unwrap(), "");
}

#[test]
fn generate_name_fails_without_words() {
    let e = generate_name(" ... ", 6).unwrap_err();
    assert!(matches!(e, snip::error::SnipError::General(_)));
    assert_eq!(e.message(), "The document has no words, so a name cannot be generated.");
}

#[test]
fn strip_punctuation_takes_one_mark_from_each_end() {
    assert_eq!(strip_punctuation("(word)"), "word");
    assert_eq!(strip_punctuation("word."), "word");
    assert_eq!(strip_punctuation("\"word"), "word");
    assert_eq!(strip_punctuation("((word))"), "(word)");
    assert_eq!(strip_punctuation("word"), "word");
    assert_eq!(strip_punctuation("."), "");
    assert_eq!(strip_punctuation(""), "");
    assert_eq!(strip_punctuation("é!"), "é");
}

#[test]
fn find_by_graph_finds_the_word() {
    let text = vec!["a", " ", "d", "o", "g", " ", "b"];
    assert_eq!(find_by_graph("dog", text), Some(2));
    let text = vec!["a", "b"];
    assert_eq!(find_by_graph("dog", text), None);
    assert_eq!(find_by_graph("", vec!["a"]), None);
    assert_eq!(find_by_graph("e\u{301}x", vec!["a", "e\u{301}", "x"]), Some(1));
}

#[test]
fn find_by_graph_does_not_step_back() {
    // the scan starts anew behind a cluster that breaks a match
    assert_eq!(find_by_graph("aab", vec!["a", "a", "a", "b"]), None);
    assert_eq!(find_by_graph("ab", vec!["a", "c", "a", "b"]), Some(2));
}

#[test]
fn parse_field_rejects_other_keys_and_lines() {
    assert!(parse_field("name", "uuid: 1").is_err());
    let e = parse_field("name", "no delimiter").unwrap_err();
    assert_eq!(e.message(), "could not find delimiting characters in line: no delimiter");
    assert_eq!(parse_field("name", "  name :  a: b  ").unwrap(), "a: b");
    assert_eq!(parse_field("", ": x").unwrap(), "x");
}
