use crate::analysis::{opt_text, opt_view, tokens_of, SnipWord};
use crate::segment::{token_end, tokens_lie_in};
use crate::text::{byte_slice, lemma_boundary_of_prefix};
use vstd::prelude::*;
use vstd::string::*;
use vstd::utf8::*;

verus! {

/// The text that lies between two byte positions of `text`, where they form
/// a range within the text whose ends fall between characters.
pub open spec fn span(text: Seq<char>, from: int, to: int) -> Option<Seq<char>> {
    let bytes = encode_utf8(text);
    if 0 <= from <= to <= bytes.len() && is_char_boundary(bytes, from) && is_char_boundary(
        bytes,
        to,
    ) {
        Some(decode_utf8(bytes.subrange(from, to)))
    } else {
        None
    }
}

/// Where the text behind token `i` ends: at the next token, or at the end of
/// the text behind the last one.
pub open spec fn gap_end(text: Seq<char>, tokens: Seq<(int, Seq<char>)>, i: int) -> int {
    if i + 1 < tokens.len() {
        tokens[i + 1].0
    } else {
        encode_utf8(text).len() as int
    }
}

/// The suffix that word `i` has once the fragments of `text` are scanned:
/// the text from its end to where the next word starts.
pub open spec fn suffix_at(text: Seq<char>, tokens: Seq<(int, Seq<char>)>, i: int) -> Option<
    Seq<char>,
> {
    span(text, token_end(tokens[i]), gap_end(text, tokens, i))
}

/// The prefix that word `i` has once the fragments of `text` are scanned:
/// the text in front of the first word, and else the suffix of the word
/// before.
pub open spec fn prefix_at(text: Seq<char>, tokens: Seq<(int, Seq<char>)>, i: int) -> Option<
    Seq<char>,
> {
    if i == 0 {
        span(text, 0, tokens[0].0)
    } else {
        suffix_at(text, tokens, i - 1)
    }
}

/// Every word carries the text around it: its suffix reaches to the next
/// word (the last one's to the end of the text), the first word's prefix
/// starts with the text, and every other prefix is the suffix before it.
pub open spec fn fragments_scanned(text: Seq<char>, words: Seq<SnipWord>) -> bool {
    forall|i: int|
        0 <= i < words.len() ==> {
            &&& opt_view((#[trigger] words[i]).suffix) == suffix_at(text, tokens_of(words), i)
            &&& opt_view(words[i].prefix) == prefix_at(text, tokens_of(words), i)
        }
}

/// The words with the text behind each, in order.
pub open spec fn body_text(words: Seq<SnipWord>) -> Seq<char>
    decreases words.len(),
{
    if words.len() == 0 {
        Seq::empty()
    } else {
        body_text(words.drop_last()) + words.last().word@ + opt_text(words.last().suffix)
    }
}

/// The text that the words and their fragments spell: the first prefix, then
/// every word followed by its suffix.
pub open spec fn rebuilt_text(words: Seq<SnipWord>) -> Seq<char> {
    if words.len() == 0 {
        Seq::empty()
    } else {
        opt_text(words[0].prefix) + body_text(words)
    }
}

/// A copy of the text between two byte positions.
pub fn slice_text(text: &str, from: usize, to: usize) -> (out: Option<String>)
    ensures
        opt_view(out) == span(text@, from as int, to as int),
{
    broadcast use encode_utf8_decode_utf8;

    match byte_slice(text, from, to) {
        Some(piece) => {
            assert(piece@ == decode_utf8(piece.spec_bytes()));
            Some(piece.to_owned())
        },
        None => None,
    }
}

/// A copy of an optional string.
pub fn clone_opt(o: &Option<String>) -> (out: Option<String>)
    ensures
        opt_view(out) == opt_view(*o),
{
    match o {
        Some(s) => Some(s.clone()),
        None => None,
    }
}

/// A non-empty run of well-formed UTF-8 inside a well-formed text starts
/// between two characters.
pub proof fn lemma_boundary_before(bytes: Seq<u8>, a: int, b: int)
    requires
        valid_utf8(bytes),
        0 <= a < b <= bytes.len(),
        valid_utf8(bytes.subrange(a, b)),
    ensures
        is_char_boundary(bytes, a),
{
    let sub = bytes.subrange(a, b);
    assert(valid_first_scalar(sub));
    assert(sub[0] == bytes[a]);
    is_char_boundary_iff_is_leading_byte(bytes, a);
}

/// One character behind a position between characters lies another such
/// position.
proof fn lemma_boundary_step(bytes: Seq<u8>, a: int)
    requires
        valid_utf8(bytes),
        0 <= a < bytes.len(),
        is_char_boundary(bytes, a),
    ensures
        ({
            let tail = bytes.subrange(a, bytes.len() as int);
            &&& valid_first_scalar(tail)
            &&& a + length_of_first_scalar(tail) <= bytes.len()
            &&& is_char_boundary(bytes, a + length_of_first_scalar(tail))
        }),
{
    let len = bytes.len() as int;
    let tail = bytes.subrange(a, len);
    valid_utf8_split(bytes, a);
    assert(valid_first_scalar(tail));
    let k = length_of_first_scalar(tail);
    let rest = pop_first_scalar(tail);
    assert(rest =~= bytes.subrange(a + k, len));
    if a + k == len {
        is_char_boundary_start_end_of_seq(bytes);
    } else {
        assert(valid_utf8(rest));
        assert(valid_first_scalar(rest));
        assert(rest[0] == bytes[a + k]);
        is_char_boundary_iff_is_leading_byte(bytes, a + k);
    }
}

/// A run of well-formed UTF-8 that starts between two characters of a
/// well-formed text ends between two characters.
pub proof fn lemma_boundary_behind(bytes: Seq<u8>, a: int, b: int)
    requires
        valid_utf8(bytes),
        0 <= a <= b <= bytes.len(),
        is_char_boundary(bytes, a),
        valid_utf8(bytes.subrange(a, b)),
    ensures
        is_char_boundary(bytes, b),
    decreases b - a,
{
    if a < b {
        let sub = bytes.subrange(a, b);
        let tail = bytes.subrange(a, bytes.len() as int);
        assert(valid_first_scalar(sub));
        assert(sub[0] == tail[0]);
        let k = length_of_first_scalar(sub);
        assert(k == length_of_first_scalar(tail));
        assert(k <= sub.len());
        lemma_boundary_step(bytes, a);
        assert(pop_first_scalar(sub) =~= bytes.subrange(a + k, b));
        lemma_boundary_behind(bytes, a + k, b);
    }
}

/// Between two positions that lie between characters, a text decodes piece
/// by piece.
pub proof fn lemma_decode_pieces(bytes: Seq<u8>, a: int, b: int)
    requires
        valid_utf8(bytes),
        0 <= a <= b <= bytes.len(),
        is_char_boundary(bytes, a),
        is_char_boundary(bytes, b),
    ensures
        decode_utf8(bytes.subrange(0, b)) == decode_utf8(bytes.subrange(0, a)) + decode_utf8(
            bytes.subrange(a, b),
        ),
{
    let head = bytes.subrange(0, b);
    lemma_boundary_of_prefix(bytes, a, b);
    decode_utf8_split(head, a);
    assert(head.subrange(0, a) =~= bytes.subrange(0, a));
    assert(head.subrange(a, head.len() as int) =~= bytes.subrange(a, b));
}

/// The tokens of a text start and end between its characters.
pub proof fn lemma_tokens_at_boundaries(text: Seq<char>, tokens: Seq<(int, Seq<char>)>, i: int)
    requires
        tokens_lie_in(text, tokens),
        0 <= i < tokens.len(),
    ensures
        is_char_boundary(encode_utf8(text), tokens[i].0),
        is_char_boundary(encode_utf8(text), token_end(tokens[i])),
        0 <= tokens[i].0 < token_end(tokens[i]) <= encode_utf8(text).len(),
{
    let bytes = encode_utf8(text);
    let word = tokens[i].1;
    encode_utf8_valid_utf8(text);
    encode_utf8_valid_utf8(word);
    assert(encode_utf8(word).len() > 0) by {
        assert(encode_utf8(word) == encode_scalar(word[0] as u32) + encode_utf8(
            word.drop_first(),
        ));
    }
    lemma_boundary_before(bytes, tokens[i].0, token_end(tokens[i]));
    lemma_boundary_behind(bytes, tokens[i].0, token_end(tokens[i]));
}

/// Where the text in front of word `k` ends: at the word, or at the end of
/// the text for `k` behind the last word.
pub open spec fn cut(text: Seq<char>, tokens: Seq<(int, Seq<char>)>, k: int) -> int {
    if k < tokens.len() {
        tokens[k].0
    } else {
        encode_utf8(text).len() as int
    }
}

/// Word `i` and the fragments around it are pieces of the text: the word
/// reaches from its start to its end, its suffix from there to the next cut,
/// and the first prefix from the start of the text to the first word.
#[verifier::opaque]
spec fn spells(text: Seq<char>, words: Seq<SnipWord>, i: int) -> bool {
    let bytes = encode_utf8(text);
    let tokens = tokens_of(words);
    let start = tokens[i].0;
    let end = token_end(tokens[i]);
    let next = cut(text, tokens, i + 1);
    &&& 0 <= start <= end <= next <= bytes.len()
    &&& is_char_boundary(bytes, start)
    &&& is_char_boundary(bytes, end)
    &&& is_char_boundary(bytes, next)
    &&& words[i].word@ == decode_utf8(bytes.subrange(start, end))
    &&& opt_text(words[i].suffix) == decode_utf8(bytes.subrange(end, next))
    &&& i == 0 ==> opt_text(words[0].prefix) == decode_utf8(bytes.subrange(0, start))
}

/// Every word of a scanned tokenization spells its piece of the text.
proof fn lemma_word_spells(text: Seq<char>, words: Seq<SnipWord>, i: int)
    requires
        tokens_lie_in(text, tokens_of(words)),
        fragments_scanned(text, words),
        0 <= i < words.len(),
    ensures
        spells(text, words, i),
{
    reveal(spells);
    let bytes = encode_utf8(text);
    let tokens = tokens_of(words);
    encode_utf8_valid_utf8(text);
    is_char_boundary_start_end_of_seq(bytes);
    lemma_tokens_at_boundaries(text, tokens, i);
    if i + 1 < words.len() {
        lemma_tokens_at_boundaries(text, tokens, i + 1);
    }
    assert(cut(text, tokens, i + 1) == gap_end(text, tokens, i));
    assert(opt_view(words[i].suffix) == suffix_at(text, tokens, i));
    assert(opt_view(words[i].prefix) == prefix_at(text, tokens, i));
    assert(words[i].word@ == decode_utf8(bytes.subrange(tokens[i].0, token_end(tokens[i])))) by {
        encode_utf8_decode_utf8(words[i].word@);
    }
}

/// The text up to a word's next cut is the text up to the word, the word
/// and its suffix.
proof fn lemma_spelled_step(text: Seq<char>, words: Seq<SnipWord>, i: int)
    requires
        0 <= i < words.len(),
        spells(text, words, i),
    ensures
        decode_utf8(encode_utf8(text).subrange(0, cut(text, tokens_of(words), i + 1)))
            == decode_utf8(encode_utf8(text).subrange(0, cut(text, tokens_of(words), i)))
            + words[i].word@ + opt_text(words[i].suffix),
        i == 0 ==> opt_text(words[0].prefix) == decode_utf8(
            encode_utf8(text).subrange(0, cut(text, tokens_of(words), 0)),
        ),
{
    reveal(spells);
    let bytes = encode_utf8(text);
    let tokens = tokens_of(words);
    encode_utf8_valid_utf8(text);
    lemma_decode_pieces(bytes, tokens[i].0, token_end(tokens[i]));
    lemma_decode_pieces(bytes, token_end(tokens[i]), cut(text, tokens, i + 1));
}

proof fn lemma_rebuilt_upto(text: Seq<char>, words: Seq<SnipWord>, k: int)
    requires
        words.len() > 0,
        forall|i: int| 0 <= i < words.len() ==> #[trigger] spells(text, words, i),
        0 <= k <= words.len(),
    ensures
        opt_text(words[0].prefix) + body_text(words.take(k)) == decode_utf8(
            encode_utf8(text).subrange(0, cut(text, tokens_of(words), k)),
        ),
    decreases k,
{
    if k == 0 {
        assert(spells(text, words, 0));
        lemma_spelled_step(text, words, 0);
        assert(words.take(0) =~= Seq::<SnipWord>::empty());
        assert(opt_text(words[0].prefix) + body_text(words.take(0)) =~= opt_text(
            words[0].prefix,
        ));
    } else {
        let i = k - 1;
        lemma_rebuilt_upto(text, words, i);
        assert(spells(text, words, i));
        lemma_spelled_step(text, words, i);
        let head = opt_text(words[0].prefix) + body_text(words.take(i));
        let word = words[i].word@;
        let suffix = opt_text(words[i].suffix);
        assert(body_text(words.take(k)) == body_text(words.take(i)) + word + suffix) by {
            assert(words.take(k).drop_last() =~= words.take(i));
            assert(words.take(k).last() == words[i]);
        }
        assert(opt_text(words[0].prefix) + body_text(words.take(k)) =~= head + word + suffix);
    }
}

/// Round trip: where the words are the tokens of a text and carry its
/// fragments, the first prefix followed by every word and its suffix spells
/// the text again, character for character.
pub proof fn lemma_text_is_rebuilt(text: Seq<char>, words: Seq<SnipWord>)
    requires
        words.len() > 0,
        tokens_lie_in(text, tokens_of(words)),
        fragments_scanned(text, words),
    ensures
        rebuilt_text(words) == text,
{
    let bytes = encode_utf8(text);
    assert forall|i: int| 0 <= i < words.len() implies #[trigger] spells(text, words, i) by {
        lemma_word_spells(text, words, i);
    }
    lemma_rebuilt_upto(text, words, words.len() as int);
    assert(words.take(words.len() as int) =~= words);
    assert(bytes.subrange(0, bytes.len() as int) =~= bytes);
    encode_utf8_decode_utf8(text);
}

/// Boundary sharing: between two neighbours, the suffix of the first word
/// and the prefix of the second are the same text.
pub proof fn lemma_boundary_shared(text: Seq<char>, words: Seq<SnipWord>, i: int)
    requires
        fragments_scanned(text, words),
        0 <= i,
        i + 1 < words.len(),
    ensures
        opt_view(words[i].suffix) == opt_view(words[i + 1].prefix),
{
    assert(opt_view(words[i].suffix) == suffix_at(text, tokens_of(words), i));
    assert(opt_view(words[i + 1].prefix) == prefix_at(text, tokens_of(words), i + 1));
}

/// Every fragment of a scanned tokenization is present, also where it is
/// empty.
pub proof fn lemma_fragments_present(text: Seq<char>, words: Seq<SnipWord>, i: int)
    requires
        tokens_lie_in(text, tokens_of(words)),
        fragments_scanned(text, words),
        0 <= i < words.len(),
    ensures
        words[i].prefix is Some,
        words[i].suffix is Some,
{
    let bytes = encode_utf8(text);
    let tokens = tokens_of(words);
    encode_utf8_valid_utf8(text);
    is_char_boundary_start_end_of_seq(bytes);
    lemma_tokens_at_boundaries(text, tokens, i);
    if i + 1 < words.len() {
        lemma_tokens_at_boundaries(text, tokens, i + 1);
    }
    assert(suffix_at(text, tokens, i) is Some);
    if i > 0 {
        lemma_tokens_at_boundaries(text, tokens, i - 1);
        assert(suffix_at(text, tokens, i - 1) is Some);
    }
}

} // verus!
