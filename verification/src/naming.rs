use crate::error::SnipError;
use crate::segment::{grapheme_clusters, graphemes_of, unicode_words, words_of};
use crate::text::{
    chars_of, copy_range, join_with, push_all, same_text, string_of, text_views, trim_end,
    trimmed_end,
};
use vstd::prelude::*;
use vstd::string::*;

verus! {

/// The parts in one text.
pub open spec fn glued(parts: Seq<Seq<char>>) -> Seq<char>
    decreases parts.len(),
{
    if parts.len() == 0 {
        Seq::<char>::empty()
    } else {
        glued(parts.drop_last()) + parts.last()
    }
}

/// The words in one text, each followed by a space.
pub open spec fn spaced(words: Seq<Seq<char>>) -> Seq<char>
    decreases words.len(),
{
    if words.len() == 0 {
        Seq::<char>::empty()
    } else {
        spaced(words.drop_last()) + words.last() + seq![' ']
    }
}

/// The name that some words give with room for `count` of them: all of them
/// with single spaces between where they are fewer, else the first `count`
/// with single spaces between and no white space at the end.
pub open spec fn name_of(words: Seq<Seq<char>>, count: int) -> Seq<char> {
    if words.len() < count {
        join_with(words, seq![' '])
    } else {
        trim_end(spaced(words.take(count)))
    }
}

/// Whether two vectors hold the same characters.
pub fn same_chars(a: &Vec<char>, b: &Vec<char>) -> (same: bool)
    ensures
        same == (a@ == b@),
{
    if a.len() != b.len() {
        return false;
    }
    let mut i: usize = 0;
    while i < a.len()
        invariant
            i <= a.len(),
            a.len() == b.len(),
            forall|k: int| 0 <= k < i ==> a@[k] == b@[k],
        decreases a.len() - i,
    {
        if a[i] != b[i] {
            return false;
        }
        i += 1;
    }
    assert(a@ =~= b@);
    true
}

/// Makes a name from the words of a text. Fails where there is no word.
pub fn name_from_words(words: &Vec<String>, count: usize) -> (out: Result<String, SnipError>)
    ensures
        out is Ok <==> words@.len() > 0,
        out matches Ok(name) ==> name@ == name_of(text_views(words@), count as int),
        out matches Err(e) ==> e is General && e.detail()
            == "The document has no words, so a name cannot be generated."@,
{
    if words.len() == 0 {
        return Err(
            SnipError::General(
                "The document has no words, so a name cannot be generated.".to_owned(),
            ),
        );
    }
    let ghost all = text_views(words@);
    let mut name: Vec<char> = Vec::new();
    if words.len() < count {
        let mut i: usize = 0;
        assert(all.take(0) =~= Seq::<Seq<char>>::empty());
        while i < words.len()
            invariant
                i <= words.len(),
                all == text_views(words@),
                name@ == join_with(all.take(i as int), seq![' ']),
            decreases words.len() - i,
        {
            let ghost parts = all.take(i as int + 1);
            assert(parts.drop_last() =~= all.take(i as int));
            assert(parts.last() == words@[i as int]@);
            if i > 0 {
                name.push(' ');
            }
            let ghost before = name@;
            let word = chars_of(words[i].as_str());
            push_all(&mut name, &word);
            proof {
                if i == 0 {
                    assert(name@ =~= parts[0]);
                } else {
                    assert(name@ =~= join_with(parts.drop_last(), seq![' ']) + seq![' ']
                        + parts.last());
                }
            }
            i += 1;
        }
        assert(all.take(i as int) =~= all);
        Ok(string_of(&name))
    } else {
        let mut i: usize = 0;
        assert(all.take(0) =~= Seq::<Seq<char>>::empty());
        while i < count
            invariant
                i <= count <= words.len(),
                all == text_views(words@),
                name@ == spaced(all.take(i as int)),
            decreases count - i,
        {
            let ghost parts = all.take(i as int + 1);
            assert(parts.drop_last() =~= all.take(i as int));
            assert(parts.last() == words@[i as int]@);
            let word = chars_of(words[i].as_str());
            push_all(&mut name, &word);
            name.push(' ');
            i += 1;
        }
        let end = trimmed_end(&name);
        let kept = copy_range(&name, 0, end);
        assert(name@.subrange(0, end as int) =~= name@.take(end as int));
        Ok(string_of(&kept))
    }
}

/// Generates a document's name from its text: the first `count` words.
/// Fails where the text has no word.
pub fn generate_name(text: &str, count: usize) -> (out: Result<String, SnipError>)
    ensures
        out is Ok <==> unicode_words(text@).len() > 0,
        out matches Ok(name) ==> name@ == name_of(unicode_words(text@), count as int),
        out matches Err(e) ==> e is General && e.detail()
            == "The document has no words, so a name cannot be generated."@,
{
    let words = words_of(text);
    name_from_words(&words, count)
}

/// The punctuation that is stripped from the ends of a word.
pub open spec fn is_punctuation(c: char) -> bool {
    c == '.' || c == ',' || c == '!' || c == '?' || c == '"' || c == '\'' || c == '[' || c == ']'
        || c == '(' || c == ')'
}

/// The text without one punctuation mark at its start, and then without one
/// at its end.
pub open spec fn stripped(s: Seq<char>) -> Seq<char> {
    let rest = if s.len() > 0 && is_punctuation(s[0]) {
        s.drop_first()
    } else {
        s
    };
    if rest.len() > 0 && is_punctuation(rest.last()) {
        rest.drop_last()
    } else {
        rest
    }
}

fn is_punctuation_mark(c: char) -> (b: bool)
    ensures
        b == is_punctuation(c),
{
    c == '.' || c == ',' || c == '!' || c == '?' || c == '"' || c == '\'' || c == '[' || c == ']'
        || c == '(' || c == ')'
}

/// Strips one punctuation mark from the start of a text, and then one from
/// its end.
pub fn strip_punctuation(s: &str) -> (clean: &str)
    ensures
        clean@ == stripped(s@),
{
    let chars = chars_of(s);
    let from: usize = if chars.len() > 0 && is_punctuation_mark(chars[0]) {
        1
    } else {
        0
    };
    let to: usize = if chars.len() > from && is_punctuation_mark(chars[chars.len() - 1]) {
        chars.len() - 1
    } else {
        chars.len()
    };
    let clean = s.substring_char(from, to);
    proof {
        let rest = if s@.len() > 0 && is_punctuation(s@[0]) {
            s@.drop_first()
        } else {
            s@
        };
        assert(rest =~= s@.subrange(from as int, s@.len() as int));
        assert(clean@ =~= stripped(s@));
    }
    clean
}

/// The views of a sequence of string slices.
pub open spec fn slices_view(items: Seq<&str>) -> Seq<Seq<char>> {
    Seq::new(items.len(), |i: int| items[i]@)
}

/// How far a scan for a word has come: the index at which the word was
/// found, or else the number of clusters of the word that the scan has
/// matched so far.
pub struct ScanState {
    pub found: Option<int>,
    pub matched: int,
}

/// The state of the scan for a word behind the first `i` clusters of a text.
/// A cluster that continues the word extends the match; the match is
/// complete when the clusters matched spell the word. Any other cluster
/// starts the scan anew behind itself.
pub open spec fn scan(clusters: Seq<Seq<char>>, word: Seq<char>, text: Seq<Seq<char>>, i: int)
    -> ScanState
    decreases i,
{
    if i <= 0 {
        ScanState { found: None, matched: 0 }
    } else {
        let before = scan(clusters, word, text, i - 1);
        if before.found is Some {
            before
        } else if before.matched < clusters.len() && text[i - 1] == clusters[before.matched] {
            if glued(clusters.take(before.matched + 1)) == word {
                ScanState { found: Some(i - 1 - before.matched), matched: before.matched }
            } else {
                ScanState { found: None, matched: before.matched + 1 }
            }
        } else {
            ScanState { found: None, matched: 0 }
        }
    }
}

/// Where a scan for a word whose clusters are given ends in a text of
/// clusters.
pub open spec fn found_in(clusters: Seq<Seq<char>>, word: Seq<char>, text: Seq<Seq<char>>)
    -> Option<int> {
    scan(clusters, word, text, text.len() as int).found
}

/// Once the word is found, the scan stays where it is.
pub proof fn lemma_scan_settled(
    clusters: Seq<Seq<char>>,
    word: Seq<char>,
    text: Seq<Seq<char>>,
    i: int,
    j: int,
)
    requires
        0 <= i <= j,
        scan(clusters, word, text, i).found is Some,
    ensures
        scan(clusters, word, text, j) == scan(clusters, word, text, i),
    decreases j - i,
{
    if i < j {
        lemma_scan_settled(clusters, word, text, i, j - 1);
    }
}

/// Scans a text of grapheme clusters for a word whose clusters are given,
/// and returns the index of the cluster at which the word starts.
pub fn find_clusters(clusters: &Vec<String>, word: &str, text: &Vec<&str>) -> (out: Option<usize>)
    ensures
        match found_in(text_views(clusters@), word@, slices_view(text@)) {
            Some(at) => out matches Some(index) && index == at,
            None => out is None,
        },
        out matches Some(at) ==> exists|n: int|
            0 < n <= clusters@.len() && at + n <= text@.len() && glued(
                text_views(clusters@).take(n),
            ) == word@ && slices_view(text@).subrange(at as int, at + n) == text_views(
                clusters@,
            ).take(n),
{
    let ghost parts = text_views(clusters@);
    let ghost graphs = slices_view(text@);
    let letters = chars_of(word);
    let mut buffer: Vec<char> = Vec::new();
    let mut matched: usize = 0;
    let mut i: usize = 0;
    assert(parts.take(0) =~= Seq::<Seq<char>>::empty());
    while i < text.len()
        invariant
            i <= text.len(),
            matched <= i,
            matched <= clusters@.len(),
            parts == text_views(clusters@),
            graphs == slices_view(text@),
            letters@ == word@,
            scan(parts, word@, graphs, i as int) == (ScanState {
                found: None,
                matched: matched as int,
            }),
            buffer@ == glued(parts.take(matched as int)),
            graphs.subrange(i - matched, i as int) == parts.take(matched as int),
        decreases text.len() - i,
    {
        let ghost state = scan(parts, word@, graphs, i as int + 1);
        if matched < clusters.len() && same_text(text[i], clusters[matched].as_str()) {
            let cluster = chars_of(text[i]);
            push_all(&mut buffer, &cluster);
            proof {
                assert(parts.take(matched as int + 1).drop_last() =~= parts.take(matched as int));
                assert(parts.take(matched as int + 1).last() == graphs[i as int]);
                assert(graphs.subrange(i - matched, i as int + 1) =~= parts.take(
                    matched as int + 1,
                ));
            }
            if same_chars(&buffer, &letters) {
                proof {
                    assert(state.found == Some(i - matched));
                    lemma_scan_settled(parts, word@, graphs, i as int + 1, graphs.len() as int);
                }
                return Some(i - matched);
            }
            matched += 1;
        } else {
            buffer = Vec::new();
            matched = 0;
            assert(parts.take(0) =~= Seq::<Seq<char>>::empty());
            assert(graphs.subrange(i as int + 1, i as int + 1) =~= parts.take(0));
        }
        i += 1;
    }
    None
}

/// Returns the index of the grapheme cluster at which `word` is matched in
/// full within `text`, a text given cluster by cluster.
pub fn find_by_graph(word: &str, text: Vec<&str>) -> (out: Option<usize>)
    ensures
        match found_in(grapheme_clusters(word@), word@, slices_view(text@)) {
            Some(at) => out matches Some(index) && index == at,
            None => out is None,
        },
        out matches Some(at) ==> exists|n: int|
            0 < n <= grapheme_clusters(word@).len() && at + n <= text@.len() && glued(
                grapheme_clusters(word@).take(n),
            ) == word@ && slices_view(text@).subrange(at as int, at + n) == grapheme_clusters(
                word@,
            ).take(n),
{
    let clusters = graphemes_of(word);
    find_clusters(&clusters, word, &text)
}

} // verus!
