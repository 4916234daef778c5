use crate::analysis::{opt_view, stems_of, tokens_of, SnipAnalysis, SnipWord};
use crate::attachment::{Attachment, Timestamp};
use crate::error::SnipError;
use crate::header::{file_text, header_of, parse_header, parse_text};
use crate::ids::{parse_uuid, uuid_of_text};
use crate::time::{parse_timestamp, rfc3339_instant};
use crate::index::{
    clear_index, index_entries, lemma_entry_rows, reindexed, RowView, SearchIndex,
};
use crate::fragments::{
    clone_opt, fragments_scanned, lemma_fragments_present, lemma_text_is_rebuilt, prefix_at,
    rebuilt_text, slice_text, suffix_at,
};
use crate::segment::{token_views, tokens_lie_in, unicode_word_tokens, word_indices};
use crate::stem::{stem_of, stem_word, stemmable};
use vstd::prelude::*;
use vstd::string::*;
use vstd::utf8::*;

verus! {

/// A document: a named text with its identifier, the time it was written,
/// and what was derived from or attached to it.
#[derive(Debug)]
pub struct Snip {
    /// The document's identifier, as a 128-bit value.
    pub uuid: u128,
    pub name: String,
    pub text: String,
    pub timestamp: Timestamp,
    pub analysis: SnipAnalysis,
    pub attachments: Vec<Attachment>,
}

/// The words are the tokens of the text, fresh from the tokenizer: no stem,
/// no fragment, no index entry yet.
pub open spec fn freshly_split(text: Seq<char>, words: Seq<SnipWord>) -> bool {
    &&& tokens_of(words) == unicode_word_tokens(text)
    &&& tokens_lie_in(text, tokens_of(words))
    &&& forall|i: int|
        0 <= i < words.len() ==> {
            &&& (#[trigger] words[i]).stem@ == Seq::<char>::empty()
            &&& words[i].prefix is None
            &&& words[i].suffix is None
            &&& words[i].index is None
        }
}

/// Two sequences of words that differ in their stems at most.
pub open spec fn same_but_stems(a: Seq<SnipWord>, b: Seq<SnipWord>) -> bool {
    &&& a.len() == b.len()
    &&& forall|i: int|
        0 <= i < a.len() ==> {
            &&& (#[trigger] a[i]).word == b[i].word
            &&& a[i].offset == b[i].offset
            &&& a[i].prefix == b[i].prefix
            &&& a[i].suffix == b[i].suffix
            &&& a[i].index == b[i].index
        }
}

/// Two sequences of words that differ in their fragments at most.
pub open spec fn same_but_fragments(a: Seq<SnipWord>, b: Seq<SnipWord>) -> bool {
    &&& a.len() == b.len()
    &&& forall|i: int|
        0 <= i < a.len() ==> {
            &&& (#[trigger] a[i]).word == b[i].word
            &&& a[i].offset == b[i].offset
            &&& a[i].stem == b[i].stem
            &&& a[i].index == b[i].index
        }
}

/// Every word carries the stem of its text.
pub open spec fn stemmed(words: Seq<SnipWord>) -> bool {
    forall|i: int| 0 <= i < words.len() ==> (#[trigger] words[i]).stem@ == stem_of(words[i].word@)
}

/// Every word has a prefix and a suffix, be they empty.
pub open spec fn all_fragments_present(words: Seq<SnipWord>) -> bool {
    forall|i: int|
        0 <= i < words.len() ==> (#[trigger] words[i]).prefix is Some && words[i].suffix is Some
}

/// Every word can be stemmed.
pub open spec fn all_stemmable(words: Seq<SnipWord>) -> bool {
    forall|i: int| 0 <= i < words.len() ==> stemmable((#[trigger] words[i]).word@)
}

/// The words are the analysis of the text: its tokens, each with its stem
/// and with the text around it.
pub open spec fn is_analysis_of(text: Seq<char>, words: Seq<SnipWord>) -> bool {
    &&& tokens_of(words) == unicode_word_tokens(text)
    &&& tokens_lie_in(text, tokens_of(words))
    &&& stemmed(words)
    &&& fragments_scanned(text, words)
    &&& forall|i: int| 0 <= i < words.len() ==> (#[trigger] words[i]).index is None
}

/// Every word of the text can be stemmed.
pub open spec fn text_stemmable(text: Seq<char>) -> bool {
    forall|i: int|
        0 <= i < unicode_word_tokens(text).len() ==> stemmable(
            (#[trigger] unicode_word_tokens(text)[i]).1,
        )
}

impl Snip {
    /// Analyzes the text afresh: splits it into words, stems them and scans
    /// the text around them. Fails where a word is too long for the stemmer;
    /// the analysis then holds the words as they were split.
    pub fn analyze(&mut self) -> (done: Result<(), SnipError>)
        ensures
            done is Ok <==> text_stemmable(old(self).text@),
            final(self).same_document(old(self)),
            done is Ok ==> is_analysis_of(old(self).text@, final(self).analysis.words@),
            done is Ok && final(self).analysis.words@.len() > 0 ==> rebuilt_text(
                final(self).analysis.words@,
            ) == old(self).text@,
            done is Ok ==> all_fragments_present(final(self).analysis.words@),
            done matches Err(e) ==> e is Analysis && e.detail()
                == "a word is too long to be stemmed"@ && freshly_split(
                old(self).text@,
                final(self).analysis.words@,
            ),
    {
        let ghost text = self.text@;
        let _ = self.split_words();
        let ghost split = self.analysis.words@;
        assert(all_stemmable(split) <==> text_stemmable(text)) by {
            assert(forall|i: int|
                0 <= i < split.len() ==> (#[trigger] split[i]).word@ == unicode_word_tokens(
                    text,
                )[i].1) by {
                assert(forall|i: int|
                    0 <= i < split.len() ==> (#[trigger] split[i]).token() == tokens_of(split)[i]);
            }
            if all_stemmable(split) {
                assert forall|i: int| 0 <= i < unicode_word_tokens(text).len() implies stemmable(
                    (#[trigger] unicode_word_tokens(text)[i]).1,
                ) by {
                    assert(stemmable(split[i].word@));
                }
            }
            if text_stemmable(text) {
                assert forall|i: int| 0 <= i < split.len() implies stemmable(
                    (#[trigger] split[i]).word@,
                ) by {
                    assert(stemmable(unicode_word_tokens(text)[i].1));
                }
            }
        }
        match self.stem_words() {
            Ok(()) => {},
            Err(e) => {
                return Err(e);
            },
        }
        let ghost with_stems = self.analysis.words@;
        assert(tokens_of(with_stems) =~= tokens_of(split));
        let _ = self.scan_fragments();
        let ghost words = self.analysis.words@;
        assert(tokens_of(words) =~= tokens_of(split));
        proof {
            assert forall|i: int| 0 <= i < words.len() implies (#[trigger] words[i]).stem@
                == stem_of(words[i].word@) by {
                assert(with_stems[i].stem@ == stem_of(with_stems[i].word@));
            }
            assert forall|i: int| 0 <= i < words.len() implies (#[trigger] words[i]).index
                is None by {
                assert(with_stems[i].index == split[i].index);
            }
            if words.len() > 0 {
                lemma_text_is_rebuilt(text, words);
            }
            assert forall|i: int| 0 <= i < words.len() implies (#[trigger] words[i]).prefix
                is Some && words[i].suffix is Some by {
                lemma_fragments_present(text, words, i);
            }
            assert(all_fragments_present(words));
        }
        Ok(())
    }

    /// Indexes the document: analyzes it where it holds no words yet, then
    /// puts the rows of its stems in place of the rows that the index held
    /// for it. Fails, and leaves the index as it was, where the document
    /// cannot be analyzed.
    pub fn index(&mut self, index: &mut SearchIndex) -> (done: Result<(), SnipError>)
        ensures
            done is Ok <==> old(self).analysis.words@.len() > 0 || text_stemmable(
                old(self).text@,
            ),
            final(self).same_document(old(self)),
            old(self).analysis.words@.len() > 0 ==> final(self).analysis == old(self).analysis,
            done is Ok && old(self).analysis.words@.len() == 0 ==> is_analysis_of(
                old(self).text@,
                final(self).analysis.words@,
            ),
            done is Ok ==> final(index)@ == reindexed(
                old(index)@,
                old(self).uuid,
                final(self).analysis.stems(),
            ),
            done matches Err(e) ==> e is Analysis && *final(index) == *old(index) && freshly_split(
                old(self).text@,
                final(self).analysis.words@,
            ),
    {
        if self.analysis.words.len() == 0 {
            match self.analyze() {
                Ok(()) => {},
                Err(e) => {
                    return Err(e);
                },
            }
        }
        let entries = index_entries(&self.analysis.words);
        proof {
            lemma_entry_rows(self.uuid, entries@, self.analysis.stems());
        }
        index.drop_word_indices(self.uuid);
        index.write_entries(self.uuid, &entries);
        Ok(())
    }

    /// Analyzes the document afresh and indexes it. Fails, and leaves the
    /// index as it was, where the document cannot be analyzed.
    pub fn reindex(&mut self, index: &mut SearchIndex) -> (done: Result<(), SnipError>)
        ensures
            done is Ok <==> text_stemmable(old(self).text@),
            final(self).same_document(old(self)),
            done is Ok ==> is_analysis_of(old(self).text@, final(self).analysis.words@),
            done is Ok ==> final(index)@ == reindexed(
                old(index)@,
                old(self).uuid,
                text_stems(old(self).text@),
            ),
            done matches Err(e) ==> e is Analysis && *final(index) == *old(index) && freshly_split(
                old(self).text@,
                final(self).analysis.words@,
            ),
    {
        let ghost text = self.text@;
        match self.analyze() {
            Ok(()) => {},
            Err(e) => {
                return Err(e);
            },
        }
        let ghost words = self.analysis.words@;
        proof {
            lemma_analysis_stems(text, words);
        }
        let entries = index_entries(&self.analysis.words);
        proof {
            lemma_entry_rows(self.uuid, entries@, self.analysis.stems());
        }
        index.drop_word_indices(self.uuid);
        index.write_entries(self.uuid, &entries);
        Ok(())
    }

    /// All but the analysis is the same in both documents.
    pub open spec fn same_document(&self, other: &Snip) -> bool {
        &&& self.uuid == other.uuid
        &&& self.name == other.name
        &&& self.text == other.text
        &&& self.timestamp == other.timestamp
        &&& self.attachments == other.attachments
    }

    /// Splits the text into words and makes them the analysis, in place of
    /// what it held.
    pub fn split_words(&mut self) -> (done: Result<(), SnipError>)
        ensures
            done is Ok,
            final(self).same_document(old(self)),
            freshly_split(old(self).text@, final(self).analysis.words@),
    {
        let tokens = word_indices(self.text.as_str());
        let mut words: Vec<SnipWord> = Vec::new();
        let mut i: usize = 0;
        while i < tokens.len()
            invariant
                i <= tokens.len(),
                words@.len() == i,
                forall|j: int|
                    0 <= j < i ==> {
                        &&& (#[trigger] words@[j]).token() == token_views(tokens@)[j]
                        &&& words@[j].stem@ == Seq::<char>::empty()
                        &&& words@[j].prefix is None
                        &&& words@[j].suffix is None
                        &&& words@[j].index is None
                    },
            decreases tokens.len() - i,
        {
            let word = SnipWord {
                word: tokens[i].1.clone(),
                stem: String::new(),
                prefix: None,
                suffix: None,
                index: None,
                offset: tokens[i].0,
            };
            words.push(word);
            i += 1;
        }
        assert(tokens_of(words@) =~= token_views(tokens@));
        self.analysis.words = words;
        Ok(())
    }

    /// Gives every word its stem. Fails, and changes nothing, where a word
    /// is too long for the stemmer.
    pub fn stem_words(&mut self) -> (done: Result<(), SnipError>)
        ensures
            done is Ok <==> all_stemmable(old(self).analysis.words@),
            final(self).same_document(old(self)),
            done is Ok ==> same_but_stems(final(self).analysis.words@, old(self).analysis.words@)
                && stemmed(final(self).analysis.words@),
            done matches Err(e) ==> e is Analysis && e.detail()
                == "a word is too long to be stemmed"@ && final(self).analysis == old(self).analysis,
    {
        let n = self.analysis.words.len();
        let mut stems: Vec<String> = Vec::new();
        let mut i: usize = 0;
        while i < n
            invariant
                i <= n,
                n == self.analysis.words@.len(),
                *self == *old(self),
                stems@.len() == i,
                forall|j: int|
                    0 <= j < i ==> stemmable((#[trigger] self.analysis.words@[j]).word@)
                        && stems@[j]@ == stem_of(self.analysis.words@[j].word@),
            decreases n - i,
        {
            match stem_word(self.analysis.words[i].word.as_str()) {
                Some(stem) => stems.push(stem),
                None => {
                    return Err(SnipError::Analysis("a word is too long to be stemmed".to_owned()));
                },
            }
            i += 1;
        }
        let mut k: usize = 0;
        while k < n
            invariant
                k <= n,
                n == self.analysis.words@.len(),
                n == stems@.len(),
                self.same_document(old(self)),
                same_but_stems(self.analysis.words@, old(self).analysis.words@),
                forall|j: int|
                    0 <= j < n ==> stems@[j]@ == stem_of(
                        (#[trigger] old(self).analysis.words@[j]).word@,
                    ),
                forall|j: int|
                    0 <= j < k ==> (#[trigger] self.analysis.words@[j]).stem@ == stem_of(
                        self.analysis.words@[j].word@,
                    ),
            decreases n - k,
        {
            self.analysis.words[k].stem = stems[k].clone();
            k += 1;
        }
        Ok(())
    }

    /// Gives every word the text that surrounds it: the suffix reaches to the
    /// next word, or to the end of the text behind the last word; the first
    /// prefix starts with the text, and every other prefix is the suffix of
    /// the word before. Where nothing lies between, the fragment is the empty
    /// text; a fragment is absent only where the word's offset and length do
    /// not delimit a piece of the text.
    pub fn scan_fragments(&mut self) -> (done: Result<(), SnipError>)
        ensures
            done is Ok,
            final(self).same_document(old(self)),
            same_but_fragments(final(self).analysis.words@, old(self).analysis.words@),
            fragments_scanned(old(self).text@, final(self).analysis.words@),
            old(self).analysis.words@.len() > 0 && tokens_lie_in(
                old(self).text@,
                old(self).analysis.tokens(),
            ) ==> rebuilt_text(final(self).analysis.words@) == old(self).text@
                && all_fragments_present(final(self).analysis.words@),
    {
        let n = self.analysis.words.len();
        let text_len = self.text.as_str().as_bytes().len();
        let ghost text = self.text@;
        let ghost tokens = tokens_of(self.analysis.words@);
        let mut i: usize = 0;
        while i < n
            invariant
                i <= n,
                n == self.analysis.words@.len(),
                text_len == encode_utf8(text).len(),
                text == old(self).text@,
                self.same_document(old(self)),
                same_but_fragments(self.analysis.words@, old(self).analysis.words@),
                tokens == tokens_of(self.analysis.words@),
                forall|j: int|
                    0 <= j < i ==> {
                        &&& opt_view((#[trigger] self.analysis.words@[j]).suffix) == suffix_at(
                            text,
                            tokens,
                            j,
                        )
                        &&& opt_view(self.analysis.words@[j].prefix) == prefix_at(text, tokens, j)
                    },
            decreases n - i,
        {
            let suffix = suffix_behind(self.text.as_str(), text_len, &self.analysis.words, i);
            let prefix = if i == 0 {
                slice_text(self.text.as_str(), 0, self.analysis.words[0].offset)
            } else {
                clone_opt(&self.analysis.words[i - 1].suffix)
            };
            self.analysis.words[i].prefix = prefix;
            self.analysis.words[i].suffix = suffix;
            assert(tokens_of(self.analysis.words@) =~= tokens);
            i += 1;
        }
        proof {
            let words = self.analysis.words@;
            if words.len() > 0 && tokens_lie_in(text, tokens) {
                lemma_text_is_rebuilt(text, words);
                assert forall|k: int| 0 <= k < words.len() implies (#[trigger] words[k]).prefix
                    is Some && words[k].suffix is Some by {
                    lemma_fragments_present(text, words, k);
                }
            }
        }
        Ok(())
    }
}

/// A copy of the text behind word `i`: up to the next word, or to the end
/// of the text behind the last word.
fn suffix_behind(text: &str, text_len: usize, words: &Vec<SnipWord>, i: usize) -> (out: Option<
    String,
>)
    requires
        i < words@.len(),
        text_len == encode_utf8(text@).len(),
    ensures
        opt_view(out) == suffix_at(text@, tokens_of(words@), i as int),
{
    let start = words[i].offset;
    let length = words[i].word.as_str().as_bytes().len();
    let n = words.len();
    let next = if i + 1 < n {
        words[i + 1].offset
    } else {
        text_len
    };
    match start.checked_add(length) {
        Some(end) => slice_text(text, end, next),
        None => None,
    }
}

/// The document that the content of a document file holds, not yet
/// analyzed and without attachments. Fails where the header or the rules
/// around the text are malformed.
pub fn snip_from_text(data: &str) -> (out: Result<Snip, SnipError>)
    ensures
        match (header_of(data@), file_text(data@)) {
            (Some(head), Some(text)) => out matches Ok(s) && s.uuid == head.0 && s.name@ == head.1
                && s.timestamp.parts() == head.2 && s.text@ == text && s.analysis.words@.len() == 0
                && s.attachments@.len() == 0,
            _ => out matches Err(e) && e is General,
        },
{
    let header = match parse_header(data) {
        Ok(v) => v,
        Err(e) => {
            return Err(e);
        },
    };
    let text = match parse_text(data) {
        Ok(v) => v,
        Err(e) => {
            return Err(e);
        },
    };
    Ok(
        Snip {
            uuid: header.uuid,
            name: header.name,
            timestamp: header.timestamp,
            analysis: SnipAnalysis { words: Vec::new() },
            text,
            attachments: Vec::new(),
        },
    )
}

/// The document of a stored row, not yet analyzed and without
/// attachments; its time is taken to UTC. Fails where the row holds no
/// UUID or no point in time.
pub fn snip_from_db(id: String, ts: String, name: String, text: String) -> (out: Result<
    Snip,
    SnipError,
>)
    ensures
        match (rfc3339_instant(ts@), uuid_of_text(id@)) {
            (Some(parts), Some(uuid)) => out matches Ok(s) && s.uuid == uuid && s.name == name
                && s.text == text && s.timestamp.parts() == (parts.0, parts.1, 0i32)
                && s.analysis.words@.len() == 0 && s.attachments@.len() == 0,
            _ => out matches Err(e) && e is General,
        },
{
    let timestamp = match parse_timestamp(ts.as_str()) {
        Ok(v) => v.to_utc(),
        Err(e) => {
            return Err(e);
        },
    };
    let uuid = match parse_uuid(id.as_str()) {
        Ok(v) => v,
        Err(e) => {
            return Err(e);
        },
    };
    Ok(
        Snip {
            uuid,
            name,
            timestamp,
            text,
            analysis: SnipAnalysis { words: Vec::new() },
            attachments: Vec::new(),
        },
    )
}

/// The stems of the words of a text, in the order of the text.
pub open spec fn text_stems(text: Seq<char>) -> Seq<Seq<char>> {
    Seq::new(
        unicode_word_tokens(text).len(),
        |i: int| stem_of(unicode_word_tokens(text)[i].1),
    )
}

/// The index that holds the given documents and nothing else, each indexed
/// in its turn.
pub open spec fn indexed_all(docs: Seq<Snip>) -> Seq<RowView>
    decreases docs.len(),
{
    if docs.len() == 0 {
        Seq::<RowView>::empty()
    } else {
        reindexed(
            indexed_all(docs.drop_last()),
            docs.last().uuid,
            text_stems(docs.last().text@),
        )
    }
}

/// The stems of an analysis are the stems of the words of its text.
pub proof fn lemma_analysis_stems(text: Seq<char>, words: Seq<SnipWord>)
    requires
        is_analysis_of(text, words),
    ensures
        stems_of(words) == text_stems(text),
{
    assert forall|i: int| 0 <= i < words.len() implies stems_of(words)[i] == text_stems(
        text,
    )[i] by {
        assert(words[i].stem@ == stem_of(words[i].word@));
        assert(words[i].token() == tokens_of(words)[i]);
    }
    assert(stems_of(words) =~= text_stems(text));
}

/// The document's text can be analyzed.
#[verifier::opaque]
spec fn can_be_analyzed(doc: Snip) -> bool {
    text_stemmable(doc.text@)
}

/// The document holds the analysis of the text.
#[verifier::opaque]
spec fn holds_analysis_of(doc: Snip, text: Seq<char>) -> bool {
    is_analysis_of(text, doc.analysis.words@)
}

/// The document holds the words of the text as they were split.
#[verifier::opaque]
spec fn holds_split_of(doc: Snip, text: Seq<char>) -> bool {
    freshly_split(text, doc.analysis.words@)
}

/// Where bulk indexing stopped at document `k`: the documents in front of
/// it hold their analyses, it holds its words as they were split, and the
/// documents behind it are as they were.
pub open spec fn stopped_at(before: Seq<Snip>, after: Seq<Snip>, k: int) -> bool {
    &&& 0 <= k < before.len()
    &&& after.len() == before.len()
    &&& forall|j: int|
        0 <= j < k ==> is_analysis_of(before[j].text@, (#[trigger] after[j]).analysis.words@)
    &&& freshly_split(before[k].text@, after[k].analysis.words@)
    &&& forall|j: int| k < j < before.len() ==> (#[trigger] after[j]) == before[j]
}

/// Builds the index anew from the given documents: clears it, then
/// analyzes and indexes every document in turn. Stops at the first document
/// that cannot be analyzed; the index then holds the documents in front of
/// it.
pub fn index_all_items(docs: &mut Vec<Snip>, index: &mut SearchIndex) -> (done: Result<
    (),
    SnipError,
>)
    ensures
        final(docs)@.len() == old(docs)@.len(),
        forall|i: int|
            0 <= i < old(docs)@.len() ==> (#[trigger] final(docs)@[i]).same_document(
                &old(docs)@[i],
            ),
        done is Ok <==> forall|i: int|
            0 <= i < old(docs)@.len() ==> text_stemmable((#[trigger] old(docs)@[i]).text@),
        done is Ok ==> final(index)@ == indexed_all(old(docs)@) && forall|i: int|
            0 <= i < old(docs)@.len() ==> is_analysis_of(
                old(docs)@[i].text@,
                (#[trigger] final(docs)@[i]).analysis.words@,
            ),
        done matches Err(e) ==> e is Analysis && exists|k: int|
            stopped_at(old(docs)@, final(docs)@, k) && !text_stemmable(
                (#[trigger] old(docs)@[k]).text@,
            ) && final(index)@ == indexed_all(old(docs)@.take(k)),
{
    let _ = clear_index(index);
    let ghost all = docs@;
    let n = docs.len();
    let mut i: usize = 0;
    let mut failure: Option<SnipError> = None;
    assert(all.take(0) =~= Seq::<Snip>::empty());
    while i < n
        invariant_except_break
            failure is None,
            forall|k: int| i <= k < n ==> (#[trigger] docs@[k]) == all[k],
        invariant
            i <= n,
            n == docs@.len(),
            n == all.len(),
            forall|k: int| 0 <= k < n ==> (#[trigger] docs@[k]).same_document(&all[k]),
            forall|k: int| 0 <= k < i ==> can_be_analyzed(#[trigger] all[k]),
            forall|k: int| 0 <= k < i ==> holds_analysis_of(#[trigger] docs@[k], all[k].text@),
            forall|k: int| i < k < n ==> (#[trigger] docs@[k]) == all[k],
            index@ == indexed_all(all.take(i as int)),
        ensures
            failure is None ==> i == n,
            failure matches Some(e) ==> e is Analysis && i < n && !can_be_analyzed(all[i as int])
                && holds_split_of(docs@[i as int], all[i as int].text@),
        decreases n - i,
    {
        assert(all.take(i as int + 1).drop_last() =~= all.take(i as int));
        assert(all.take(i as int + 1).last() == all[i as int]);
        match reindex_at(docs, i, index) {
            Ok(()) => {},
            Err(e) => {
                failure = Some(e);
                break ;
            },
        }
        i += 1;
    }
    proof {
        reveal(can_be_analyzed);
        reveal(holds_analysis_of);
        reveal(holds_split_of);
    }
    match failure {
        Some(e) => {
            assert(stopped_at(all, docs@, i as int));
            Err(e)
        },
        None => {
            assert(all.take(i as int) =~= all);
            Ok(())
        },
    }
}

/// Analyzes and indexes one of the documents.
fn reindex_at(docs: &mut Vec<Snip>, i: usize, index: &mut SearchIndex) -> (done: Result<
    (),
    SnipError,
>)
    requires
        i < old(docs)@.len(),
    ensures
        final(docs)@.len() == old(docs)@.len(),
        forall|k: int| 0 <= k < old(docs)@.len() && k != i ==> final(docs)@[k] == old(docs)@[k],
        final(docs)@[i as int].same_document(&old(docs)@[i as int]),
        done is Ok <==> can_be_analyzed(old(docs)@[i as int]),
        done is Ok ==> holds_analysis_of(final(docs)@[i as int], old(docs)@[i as int].text@),
        done is Ok ==> final(index)@ == reindexed(
            old(index)@,
            old(docs)@[i as int].uuid,
            text_stems(old(docs)@[i as int].text@),
        ),
        done matches Err(e) ==> e is Analysis && *final(index) == *old(index) && holds_split_of(
            final(docs)@[i as int],
            old(docs)@[i as int].text@,
        ),
{
    reveal(can_be_analyzed);
    reveal(holds_analysis_of);
    reveal(holds_split_of);
    docs[i].reindex(index)
}

} // verus!
