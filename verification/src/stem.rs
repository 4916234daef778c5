use crate::error::SnipError;
use crate::text::{chars_of, string_of, text_views};
use rust_stemmers::{Algorithm, Stemmer};
use vstd::prelude::*;
use vstd::string::*;
use vstd::utf8::*;

verus! {

/// The stem that the Snowball stemmer for English gives a word.
pub uninterp spec fn english_stem(word: Seq<char>) -> Seq<char>;

/// The lower-case form of a text under Unicode's case mapping: what
/// `str::to_lowercase` returns for it.
pub uninterp spec fn lowercase(text: Seq<char>) -> Seq<char>;

/// The typographic apostrophe, which stemmers do not know.
pub const RIGHT_SINGLE_QUOTE: char = '\u{2019}';

/// The text with every typographic apostrophe replaced by the ASCII one.
pub open spec fn straighten(text: Seq<char>) -> Seq<char> {
    Seq::new(text.len(), |i: int| if text[i] == RIGHT_SINGLE_QUOTE { '\'' } else { text[i] })
}

/// What is handed to the stemmer for a word: lower case, ASCII apostrophes.
pub open spec fn stem_input(word: Seq<char>) -> Seq<char> {
    straighten(lowercase(word))
}

/// The index and query key of a word.
pub open spec fn stem_of(word: Seq<char>) -> Seq<char> {
    english_stem(stem_input(word))
}

/// The stemmer counts bytes in 32 signed bits: a word can be stemmed when
/// its normalized form stays within that.
pub open spec fn stemmable(word: Seq<char>) -> bool {
    encode_utf8(stem_input(word)).len() <= i32::MAX
}

/// Calls `Stemmer::create(Algorithm::English)` and `Stemmer::stem`. Trusted:
/// for a word whose byte length fits 32 signed bits the call returns, and its
/// result depends on the word alone.
#[verifier::external_body]
pub(crate) fn snowball_english(word: &str) -> (stem: String)
    requires
        word.spec_bytes().len() <= i32::MAX,
    ensures
        stem@ == english_stem(word@),
{
    Stemmer::create(Algorithm::English).stem(word).into_owned()
}

/// Calls `str::to_lowercase`. Trusted: the result depends on the text alone.
#[verifier::external_body]
pub(crate) fn lowercase_of(text: &str) -> (lower: String)
    ensures
        lower@ == lowercase(text@),
{
    text.to_lowercase()
}

/// Replaces every typographic apostrophe by the ASCII one.
pub fn straighten_apostrophes(text: &str) -> (out: String)
    ensures
        out@ == straighten(text@),
{
    let chars = chars_of(text);
    let mut out: Vec<char> = Vec::new();
    let mut i: usize = 0;
    while i < chars.len()
        invariant
            i <= chars.len(),
            chars@ == text@,
            out@ == straighten(text@).take(i as int),
        decreases chars.len() - i,
    {
        let c = chars[i];
        out.push(if c == RIGHT_SINGLE_QUOTE { '\'' } else { c });
        i += 1;
        assert(straighten(text@).take(i as int) =~= straighten(text@).take(i as int - 1).push(
            straighten(text@)[i as int - 1],
        ));
    }
    assert(straighten(text@).take(i as int) =~= straighten(text@));
    string_of(&out)
}

/// The normalized form of a word that the stemmer receives.
pub fn normalize_word(word: &str) -> (out: String)
    ensures
        out@ == stem_input(word@),
{
    let lower = lowercase_of(word);
    straighten_apostrophes(lower.as_str())
}

/// Stems a word that has been normalized already: `None` when it is longer
/// than the stemmer can count.
pub fn stem_normalized(normalized: &str) -> (stem: Option<String>)
    ensures
        stem is Some <==> normalized.spec_bytes().len() <= i32::MAX,
        stem matches Some(s) ==> s@ == english_stem(normalized@),
{
    if normalized.as_bytes().len() > 0x7fff_ffff {
        None
    } else {
        Some(snowball_english(normalized))
    }
}

/// The stem of a word as it stands in a text: `None` when the word cannot be
/// stemmed.
pub fn stem_word(word: &str) -> (stem: Option<String>)
    ensures
        stem is Some <==> stemmable(word@),
        stem matches Some(s) ==> s@ == stem_of(word@),
{
    let normalized = normalize_word(word);
    stem_normalized(normalized.as_str())
}

/// The stem of a search term as it is typed: of its lower-case form.
pub open spec fn query_stem(word: Seq<char>) -> Seq<char> {
    english_stem(lowercase(word))
}

/// The stems of a list of search terms.
pub open spec fn query_stems(words: Seq<String>) -> Seq<Seq<char>> {
    Seq::new(words.len(), |i: int| query_stem(words[i]@))
}

/// Every term can be stemmed.
pub open spec fn all_in_reach(words: Seq<String>) -> bool {
    forall|i: int|
        0 <= i < words.len() ==> encode_utf8(lowercase((#[trigger] words[i])@)).len() <= i32::MAX
}

/// Stems the terms of a search as they were typed. Fails where a term is
/// too long for the stemmer.
pub fn stem_vec(words: Vec<String>) -> (out: Result<Vec<String>, SnipError>)
    ensures
        out is Ok <==> all_in_reach(words@),
        out matches Ok(stems) ==> text_views(stems@) == query_stems(words@),
        out matches Err(e) ==> e is Analysis && e.detail() == "a term is too long to be stemmed"@,
{
    let mut stems: Vec<String> = Vec::new();
    let mut i: usize = 0;
    while i < words.len()
        invariant
            i <= words.len(),
            stems@.len() == i,
            forall|k: int|
                0 <= k < i ==> encode_utf8(lowercase((#[trigger] words@[k])@)).len() <= i32::MAX,
            forall|k: int| 0 <= k < i ==> (#[trigger] stems@[k])@ == query_stem(words@[k]@),
        decreases words.len() - i,
    {
        let lower = lowercase_of(words[i].as_str());
        match stem_normalized(lower.as_str()) {
            Some(stem) => stems.push(stem),
            None => {
                return Err(SnipError::Analysis("a term is too long to be stemmed".to_owned()));
            },
        }
        i += 1;
    }
    assert(text_views(stems@) =~= query_stems(words@));
    Ok(stems)
}

} // verus!
