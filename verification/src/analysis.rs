use crate::segment::token_end;
use vstd::prelude::*;

verus! {

/// The occurrences of one stemmed term within one document.
#[derive(Debug)]
pub struct WordIndex {
    /// How often the term occurs: the length of `positions`.
    pub count: u64,
    /// The ordinals of the words that have this stem, ascending.
    pub positions: Vec<u64>,
    /// The stemmed term.
    pub term: String,
}

/// One word of a document, with what analysis derived for it.
#[derive(Debug)]
pub struct SnipWord {
    /// The word as it stands in the text.
    pub word: String,
    /// Its stem: the key under which it is indexed and found.
    pub stem: String,
    /// The text between the previous word and this one.
    pub prefix: Option<String>,
    /// The text between this word and the next one.
    pub suffix: Option<String>,
    /// The index entry of the word's term, where one was attached.
    pub index: Option<WordIndex>,
    /// The byte offset of the word's first character within the text.
    pub offset: usize,
}

/// The words of a document in the order of the text.
#[derive(Debug)]
pub struct SnipAnalysis {
    pub words: Vec<SnipWord>,
}

/// The view of an optional string.
pub open spec fn opt_view(o: Option<String>) -> Option<Seq<char>> {
    match o {
        Some(s) => Some(s@),
        None => None,
    }
}

/// The text of an optional string: nothing where it is absent.
pub open spec fn opt_text(o: Option<String>) -> Seq<char> {
    match o {
        Some(s) => s@,
        None => Seq::empty(),
    }
}

impl SnipWord {
    /// The word with its offset, as the tokenizer gave it.
    pub open spec fn token(&self) -> (int, Seq<char>) {
        (self.offset as int, self.word@)
    }

    /// The byte position just behind the word.
    pub open spec fn end(&self) -> int {
        token_end(self.token())
    }
}

/// The tokens of a sequence of words.
pub open spec fn tokens_of(words: Seq<SnipWord>) -> Seq<(int, Seq<char>)> {
    Seq::new(words.len(), |i: int| words[i].token())
}

/// The stems of a sequence of words.
pub open spec fn stems_of(words: Seq<SnipWord>) -> Seq<Seq<char>> {
    Seq::new(words.len(), |i: int| words[i].stem@)
}

impl SnipAnalysis {
    /// The tokens of the analysis.
    pub open spec fn tokens(&self) -> Seq<(int, Seq<char>)> {
        tokens_of(self.words@)
    }

    /// The stems of the analysis.
    pub open spec fn stems(&self) -> Seq<Seq<char>> {
        stems_of(self.words@)
    }
}

} // verus!
