use snip::analysis::{SnipAnalysis, WordIndex};
use snip::attachment::Timestamp;
use snip::doc::Snip;
use snip::error::SnipError;
use snip::stem::stem_word;

fn document(uuid: u128, text: &str) -> Snip {
    Snip {
        uuid,
        name: "Test".to_string(),
        text: text.to_string(),
        timestamp: Timestamp { seconds: 0, nanos: 0, offset: 0 },
        analysis: SnipAnalysis { words: Vec::new() },
        attachments: Vec::new(),
    }
}

fn rebuild(s: &Snip) -> String {
    let mut out = String::new();
    for (i, word) in s.analysis.words.iter().enumerate() {
        if i == 0 {
            if let Some(prefix) = &word.prefix {
                out.push_str(prefix);
            }
        }
        out.push_str(&word.word);
        if let Some(suffix) = &word.suffix {
            out.push_str(suffix);
        }
    }
    out
}

#[test]
fn analysis_of_the_sample_text() {
    let mut s = document(1, "Lorem ipsum dolor. Lorem fuzz.");
    s.analyze().unwrap();
    let words: Vec<&str> = s.analysis.words.iter().map(|w| w.word.as_str()).collect();
    assert_eq!(words, vec!["Lorem", "ipsum", "dolor", "Lorem", "fuzz"]);
    let stems: Vec<&str> = s.analysis.words.iter().map(|w| w.stem.as_str()).collect();
    assert_eq!(stems, vec!["lorem", "ipsum", "dolor", "lorem", "fuzz"]);
    let offsets: Vec<usize> = s.analysis.words.iter().map(|w| w.offset).collect();
    assert_eq!(offsets, vec![0, 6, 12, 19, 25]);
    let suffixes: Vec<Option<&str>> =
        s.analysis.words.iter().map(|w| w.suffix.as_deref()).collect();
    assert_eq!(suffixes, vec![Some(" "), Some(" "), Some(". "), Some(" "), Some(".")]);
    let prefixes: Vec<Option<&str>> =
        s.analysis.words.iter().map(|w| w.prefix.as_deref()).collect();
    assert_eq!(prefixes, vec![Some(""), Some(" "), Some(" "), Some(". "), Some(" ")]);
    assert!(s.analysis.words.iter().all(|w| w.index.is_none()));
}

#[test]
fn analysis_rebuilds_the_text() {
    let texts = [
        "Lorem ipsum dolor. Lorem fuzz.",
        "  leading and trailing  \n\n",
        "one",
        "x",
        "Ünïcödé wörds — with “quotes” and it’s fine.\r\n\tTabs\u{2003}too…",
        "日本語 のテキスト 123.45 abc",
        "a\u{301}e\u{301} 🇷🇺 can't 32.3",
    ];
    for text in texts {
        let mut s = document(7, text);
        s.analyze().unwrap();
        assert!(!s.analysis.words.is_empty());
        assert_eq!(rebuild(&s), text);
        for w in &s.analysis.words {
            assert_eq!(&text[w.offset..w.offset + w.word.len()], w.word);
            assert!(w.prefix.is_some());
            assert!(w.suffix.is_some());
        }
    }
}

#[test]
fn adjacent_words_share_their_boundary() {
    let mut s = document(7, "one,  two\n\nthree ... four");
    s.analyze().unwrap();
    let words = &s.analysis.words;
    assert_eq!(words.len(), 4);
    for i in 0..words.len() - 1 {
        assert_eq!(words[i].suffix, words[i + 1].prefix);
    }
    assert_eq!(words[0].suffix.as_deref(), Some(",  "));
    assert_eq!(words[1].suffix.as_deref(), Some("\n\n"));
    assert_eq!(words[2].suffix.as_deref(), Some(" ... "));
    assert_eq!(words[3].suffix.as_deref(), Some(""));
}

#[test]
fn analysis_of_a_text_without_words() {
    let mut s = document(7, "");
    s.analyze().unwrap();
    assert!(s.analysis.words.is_empty());
    let mut s = document(7, " ... ");
    s.analyze().unwrap();
    assert!(s.analysis.words.is_empty());
}

#[test]
fn analysis_starts_afresh() {
    let mut s = document(7, "one two");
    s.analyze().unwrap();
    s.analyze().unwrap();
    assert_eq!(s.analysis.words.len(), 2);
    s.text = "three".to_string();
    s.analyze().unwrap();
    assert_eq!(s.analysis.words.len(), 1);
    assert_eq!(s.analysis.words[0].word, "three");
}

#[test]
fn split_words_gives_words_and_offsets_only() {
    let mut s = document(7, "The quick (\"brown\") fox can't jump 32.3 feet, right?");
    s.split_words().unwrap();
    let got: Vec<(usize, &str)> =
        s.analysis.words.iter().map(|w| (w.offset, w.word.as_str())).collect();
    assert_eq!(
        got,
        vec![
            (0, "The"),
            (4, "quick"),
            (12, "brown"),
            (20, "fox"),
            (24, "can't"),
            (30, "jump"),
            (35, "32.3"),
            (40, "feet"),
            (46, "right")
        ]
    );
    assert!(s.analysis.words.iter().all(|w| w.stem.is_empty()
        && w.prefix.is_none()
        && w.suffix.is_none()));
}

#[test]
fn scan_fragments_is_safe_on_words_that_do_not_fit() {
    let mut s = document(7, "é x");
    s.split_words().unwrap();
    // an offset inside a character, and one behind the text
    s.analysis.words[0].offset = 1;
    s.analysis.words[1].offset = 40;
    s.scan_fragments().unwrap();
    assert_eq!(s.analysis.words[0].prefix, None);
    assert_eq!(s.analysis.words[0].suffix, None);
    assert_eq!(s.analysis.words[1].prefix, None);
    assert_eq!(s.analysis.words[1].suffix, None);
}

#[test]
fn stemming_ignores_case() {
    assert_eq!(stem_word("Lorem"), stem_word("lorem"));
    assert_eq!(stem_word("LOREM").unwrap(), "lorem");
    assert_eq!(stem_word("running").unwrap(), "run");
    assert_eq!(stem_word("Running").unwrap(), "run");
    assert_eq!(stem_word("running"), stem_word("running"));
}

#[test]
fn stemming_straightens_apostrophes() {
    assert_eq!(stem_word("can\u{2019}t"), stem_word("can't"));
    assert_eq!(stem_word("Dog\u{2019}s").unwrap(), stem_word("dog's").unwrap());
    assert_eq!(snip::stem::straighten_apostrophes("it\u{2019}s \u{2019}"), "it's '");
    assert_eq!(snip::stem::normalize_word("IT\u{2019}S"), "it's");
}

#[test]
fn positions_round_trip() {
    let positions = WordIndex::positions_to_u64("0,217".to_string()).unwrap();
    assert_eq!(positions, vec![0, 217]);
    let index = WordIndex { count: 2, positions, term: "lorem".to_string() };
    assert_eq!(index.positions_to_string(), "0,217");
}

#[test]
fn positions_in_their_stored_form() {
    let of = |positions: Vec<u64>| {
        WordIndex { count: positions.len() as u64, positions, term: String::new() }
            .positions_to_string()
    };
    assert_eq!(of(vec![]), "");
    assert_eq!(of(vec![0]), "0");
    assert_eq!(of(vec![7, 10, 109, 18446744073709551615]), "7,10,109,18446744073709551615");
    for positions in [vec![0u64], vec![5, 6, 7], vec![9, 10, 99, 100, 1000, u64::MAX]] {
        let text = of(positions.clone());
        assert_eq!(WordIndex::positions_to_u64(text).unwrap(), positions);
    }
}

#[test]
fn positions_that_are_malformed() {
    for text in ["", "1,,2", "1,a", "-1", "1, 2", "18446744073709551616", ",", "+"] {
        let e = WordIndex::positions_to_u64(text.to_string()).unwrap_err();
        assert!(matches!(e, SnipError::General(_)), "{}", text);
    }
    assert_eq!(WordIndex::positions_to_u64("+5,007".to_string()).unwrap(), vec![5, 7]);
}

#[test]
fn stemming_returns_for_unusual_words() {
    let words = [
        "", "'", "''", "'''", "a'", "'a", "a's", "a's'", "\u{2019}", "é's", "ÿ", "y", "yy",
        "y'y", "generously", "\u{0}", "𝒜𝒷𝒸", "ß", "İ", "əə'ss", "sses'", "ied", "ies", "eed",
        "eedly", "ing", "ingly", "ization", "日本語", "ünïcödé's", "a\u{301}ing", "🇷🇺", "skis",
        "SKY", "news", "succeed", "exceeding", "commun", "arsen", "é", "éed", "éing", "'é'",
        "ate\u{301}", "us", "ss", "'s", "s'", " ", "a b", "1.5", "e.g.", "\u{1F600}ness",
    ];
    for word in words {
        let stem = stem_word(word).unwrap();
        assert!(stem.len() <= word.to_lowercase().len() + 1, "{:?} -> {:?}", word, stem);
        assert_eq!(stem_word(word).unwrap(), stem);
        assert!(snip::stem::stem_vec(vec![word.to_string()]).is_ok());
    }
}
