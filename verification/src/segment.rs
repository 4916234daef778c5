use crate::text::text_views;
use unicode_segmentation::UnicodeSegmentation;
use vstd::prelude::*;
use vstd::utf8::*;

verus! {

/// The words of a text under the Unicode word-boundary rules, each paired
/// with the byte offset at which it starts: what `unicode_word_indices`
/// yields for that text.
pub uninterp spec fn unicode_word_tokens(text: Seq<char>) -> Seq<(int, Seq<char>)>;

/// The words of a text under the Unicode word-boundary rules: what
/// `unicode_words` yields for that text.
pub uninterp spec fn unicode_words(text: Seq<char>) -> Seq<Seq<char>>;

/// The extended grapheme clusters of a text: what `graphemes(true)` yields
/// for that text.
pub uninterp spec fn grapheme_clusters(text: Seq<char>) -> Seq<Seq<char>>;

/// Offsets and words as mathematical values.
pub open spec fn token_views(tokens: Seq<(usize, String)>) -> Seq<(int, Seq<char>)> {
    Seq::new(tokens.len(), |i: int| (tokens[i].0 as int, tokens[i].1@))
}

/// The byte position just behind a token.
pub open spec fn token_end(token: (int, Seq<char>)) -> int {
    token.0 + encode_utf8(token.1).len()
}

/// Every token is a non-empty piece of the text that starts at the token's
/// byte offset, and the tokens follow one another without overlap.
pub open spec fn tokens_lie_in(text: Seq<char>, tokens: Seq<(int, Seq<char>)>) -> bool {
    let bytes = encode_utf8(text);
    &&& forall|i: int|
        0 <= i < tokens.len() ==> {
            &&& 0 <= (#[trigger] tokens[i]).0
            &&& tokens[i].1.len() > 0
            &&& token_end(tokens[i]) <= bytes.len()
            &&& bytes.subrange(tokens[i].0, token_end(tokens[i])) == encode_utf8(tokens[i].1)
        }
    &&& forall|i: int, j: int|
        0 <= i < j < tokens.len() ==> token_end(#[trigger] tokens[i]) <= (#[trigger] tokens[j]).0
}

/// Calls `UnicodeSegmentation::unicode_word_indices` and copies each item
/// out. Trusted: the result is what the crate yields for this text, and, as
/// its documentation says of the items, each is a substring of the text that
/// holds an alphanumeric character, paired with its byte offset, in the order
/// of the text.
#[verifier::external_body]
pub(crate) fn word_indices(text: &str) -> (tokens: Vec<(usize, String)>)
    ensures
        token_views(tokens@) == unicode_word_tokens(text@),
        tokens_lie_in(text@, token_views(tokens@)),
{
    text.unicode_word_indices().map(|(offset, word)| (offset, word.to_string())).collect()
}

/// Calls `UnicodeSegmentation::unicode_words` and copies each word out.
/// Trusted: the result is what the crate yields for this text.
#[verifier::external_body]
pub(crate) fn words_of(text: &str) -> (words: Vec<String>)
    ensures
        text_views(words@) == unicode_words(text@),
{
    text.unicode_words().map(|word| word.to_string()).collect()
}

/// Calls `UnicodeSegmentation::graphemes` for extended clusters and copies
/// each cluster out. Trusted: the result is what the crate yields for this
/// text.
#[verifier::external_body]
pub(crate) fn graphemes_of(text: &str) -> (clusters: Vec<String>)
    ensures
        text_views(clusters@) == grapheme_clusters(text@),
{
    text.graphemes(true).map(|cluster| cluster.to_string()).collect()
}

} // verus!
