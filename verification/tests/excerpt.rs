use snip::analysis::{SnipAnalysis, SnipWord};
use snip::attachment::Timestamp;
use snip::doc::Snip;
use snip::error::SnipError;
use snip::excerpt::{collapse_spaces, flatten};

fn analyzed(text: &str) -> Snip {
    let mut s = Snip {
        uuid: 9,
        name: "Test".to_string(),
        text: text.to_string(),
        timestamp: Timestamp { seconds: 0, nanos: 0, offset: 0 },
        analysis: SnipAnalysis { words: Vec::new() },
        attachments: Vec::new(),
    };
    s.analyze().unwrap();
    s
}

#[test]
fn test_get_term_context() {
    let s = analyzed("Lorem ipsum dolor sit amet, consectetur adipiscing elit, sed do eiusmod");

    let position = 3;
    let term = &s.analysis.words[position].word;
    let expect: Vec<usize> = vec![0, 1, 2, 3, 4, 5, 6];
    let context = s.analysis.get_term_context_positions(position, 3);
    println!("context: {:?}", context);
    assert_eq!(expect, context);

    // print context
    let context_full: Vec<&SnipWord> = s.analysis.get_term_context_words(context).unwrap();
    let mut shown = String::new();
    for c in context_full.iter() {
        // mark the word itself
        if c.word == *term {
            shown.push_str(&format!("[{}]", c.word));
        } else {
            shown.push_str(&format!("{}", c.word));
        }
        if let Some(suffix) = &c.suffix {
            shown.push_str(&format!("{}", suffix));
        }
    }
    println!("{}", shown);
    assert_eq!(shown, "Lorem ipsum dolor [sit] amet, consectetur adipiscing ");
    assert_eq!(context_full.len(), 7);
    assert_eq!(context_full[3].word, "sit");
}

#[test]
fn context_is_cut_at_the_ends_of_the_document() {
    let s = analyzed("a b c d e f g h i j");
    let a = &s.analysis;
    assert_eq!(a.get_term_context_positions(0, 5), vec![0, 1, 2, 3, 4, 5]);
    assert_eq!(a.get_term_context_positions(9, 5), vec![4, 5, 6, 7, 8, 9]);
    assert_eq!(a.get_term_context_positions(4, 0), vec![4]);
    assert_eq!(a.get_term_context_positions(4, usize::MAX), (0..10).collect::<Vec<usize>>());
    // a position behind the words stands alone behind what is in reach
    assert_eq!(a.get_term_context_positions(11, 3), vec![8, 9, 11]);
    assert!(a.get_term_context_words(vec![1, 10]).is_none());
}

#[test]
fn excerpt_window_is_clamped() {
    let s = analyzed("a b c d e f g h i j");
    let e = s.analysis.get_excerpt(&0, 5, false).unwrap();
    assert_eq!((e.position_first, e.position_last), (0, 5));
    assert_eq!(e.positions, vec![0, 1, 2, 3, 4, 5]);
    assert_eq!(e.terms.len(), 6);
    let e = s.analysis.get_excerpt(&9, 5, false).unwrap();
    assert_eq!((e.position_first, e.position_last), (4, 9));
    assert_eq!(e.positions, vec![4, 5, 6, 7, 8, 9]);
    let e = s.analysis.get_excerpt(&5, 2, false).unwrap();
    assert_eq!((e.position_first, e.position_last), (3, 7));
    assert!(e.terms.iter().all(|t| t.range_prefix == (3, 7)));
    let e = s.analysis.get_excerpt(&5, 100, true).unwrap();
    assert_eq!((e.position_first, e.position_last), (0, 9));
}

#[test]
fn excerpt_of_a_position_without_a_word() {
    let s = analyzed("a b c");
    let e = s.analysis.get_excerpt(&3, 5, false).unwrap_err();
    assert!(matches!(e, SnipError::General(_)));
    let empty = analyzed("");
    assert!(empty.analysis.get_excerpt(&0, 5, false).is_err());
}

#[test]
fn excerpt_highlights_every_word_with_the_stem() {
    let s = analyzed("Running is fun; he runs, she ran, we run.");
    let e = s.analysis.get_excerpt(&0, 8, false).unwrap();
    let flags: Vec<(&str, &str, bool)> =
        e.terms.iter().map(|t| (t.term.as_str(), t.stem.as_str(), t.highlight)).collect();
    assert_eq!(
        flags,
        vec![
            ("Running", "run", true),
            ("is", "is", false),
            ("fun", "fun", false),
            ("he", "he", false),
            ("runs", "run", true),
            ("she", "she", false),
            ("ran", "ran", false),
            ("we", "we", false),
            ("run", "run", true),
        ]
    );
}

#[test]
fn excerpt_cleans_the_text_between_words() {
    let text = "one,\n\n  two\r\n three \u{b} four  \n";
    let s = analyzed(text);
    let e = s.analysis.get_excerpt(&1, 8, false).unwrap();
    let clean: Vec<&str> = e.terms.iter().map(|t| t.suffix_clean.as_str()).collect();
    assert_eq!(clean, vec![", ", " ", " ", ""]);
    // the last word of the window is trimmed, wherever it stands
    let e = s.analysis.get_excerpt(&0, 1, false).unwrap();
    let clean: Vec<&str> = e.terms.iter().map(|t| t.suffix_clean.as_str()).collect();
    assert_eq!(clean, vec![", ", ""]);
    let e = s.analysis.get_excerpt(&1, 8, true).unwrap();
    let raw: Vec<&str> = e.terms.iter().map(|t| t.suffix_clean.as_str()).collect();
    assert_eq!(raw, vec![",\n\n  ", "\r\n ", " \u{b} ", "  \n"]);
}

#[test]
fn spaces_collapse_by_grapheme_cluster() {
    assert_eq!(collapse_spaces("a  b   c ".to_string()), "a b c ");
    assert_eq!(collapse_spaces("    ".to_string()), " ");
    assert_eq!(collapse_spaces("".to_string()), "");
    // a space that carries a combining mark is no space
    assert_eq!(collapse_spaces("a  \u{301} b".to_string()), "a  \u{301} b");
    assert_eq!(collapse_spaces("a\t\tb".to_string()), "a\t\tb");
    assert_eq!(flatten("a\nb\rc\u{b}d\te"), "a b c d\te");
}

#[test]
fn excerpt_as_a_line() {
    let s = analyzed("one,\n\n  two\r\n three \u{b} four  \n");
    let e = s.analysis.get_excerpt(&1, 8, false).unwrap();
    assert_eq!(e.render(), "    [0-3] \"one, two three four\"\n");
    let e = s.analysis.get_excerpt(&2, 1, true).unwrap();
    assert_eq!(e.render(), "    [1-3] \"two\r\n three \u{b} four  \n\"\n");
}
