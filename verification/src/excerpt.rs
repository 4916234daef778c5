use crate::analysis::{opt_view, SnipAnalysis, SnipWord};
use crate::error::SnipError;
use crate::numbers::{decimal, push_decimal};
use crate::segment::{grapheme_clusters, graphemes_of};
use crate::text::{
    chars_of, copy_range, push_all, string_of, text_views, trim_end, trimmed_end,
};
use vstd::prelude::*;
use vstd::string::*;

verus! {

/// One word of an excerpt.
#[derive(Debug)]
pub struct ExcerptTerm {
    /// The stem of the word.
    pub stem: String,
    /// The word as it stands in the text.
    pub term: String,
    /// Whether the word has the stem that the excerpt was made for.
    pub highlight: bool,
    /// The first and last ordinal of the excerpt.
    pub range_prefix: (usize, usize),
    /// The text behind the word, made fit for one line unless the excerpt
    /// is raw.
    pub suffix_clean: String,
}

/// The words around one position of a document.
#[derive(Debug)]
pub struct Excerpt {
    /// The ordinal of the first word shown.
    pub position_first: usize,
    /// The ordinal of the last word shown.
    pub position_last: usize,
    /// The ordinals of the words shown, ascending.
    pub positions: Vec<usize>,
    /// The words shown.
    pub terms: Vec<ExcerptTerm>,
}

/// The ordinals from `from` up to, not including, `to`.
pub open spec fn ordinal_range(from: int, to: int) -> Seq<usize> {
    Seq::new(
        if to > from {
            (to - from) as nat
        } else {
            0
        },
        |i: int| (from + i) as usize,
    )
}

/// The first ordinal of the window of `width` words around a position.
pub open spec fn window_first(position: int, width: int) -> int {
    if position > width {
        position - width
    } else {
        0
    }
}

/// The last ordinal of the window of `width` words around a position among
/// `len` words.
pub open spec fn window_last(len: int, position: int, width: int) -> int {
    if position + width < len {
        position + width
    } else {
        len - 1
    }
}

/// The ordinals of the context of a position among `len` words: up to
/// `count` words in front of it, the position itself, and up to `count`
/// words behind it.
pub open spec fn context_positions(len: int, position: int, count: int) -> Seq<usize> {
    ordinal_range(
        window_first(position, count),
        if position < len {
            position
        } else {
            len
        },
    ) + seq![position as usize] + ordinal_range(
        position + 1,
        if position + 1 + count < len {
            position + 1 + count
        } else {
            len
        },
    )
}

/// The text with every line feed, carriage return and vertical tab replaced
/// by a space.
pub open spec fn flattened(text: Seq<char>) -> Seq<char> {
    Seq::new(
        text.len(),
        |i: int|
            if text[i] == '\n' || text[i] == '\r' || text[i] == '\u{b}' {
                ' '
            } else {
                text[i]
            },
    )
}

/// The clusters in one text, without any space that follows a space.
pub open spec fn collapsed(clusters: Seq<Seq<char>>) -> Seq<char>
    decreases clusters.len(),
{
    if clusters.len() == 0 {
        Seq::<char>::empty()
    } else {
        let front = collapsed(clusters.drop_last());
        if clusters.last() == seq![' '] && clusters.len() >= 2 && clusters[clusters.len() - 2]
            == seq![' '] {
            front
        } else {
            front + clusters.last()
        }
    }
}

/// The text with every run of spaces reduced to one space. Spaces are
/// counted by grapheme cluster: one that carries a combining mark is no
/// space.
pub open spec fn collapse_text(text: Seq<char>) -> Seq<char> {
    collapsed(grapheme_clusters(text))
}

/// The text behind a word as an excerpt shows it: as it stands for a raw
/// excerpt; else on one line, with single spaces, and without white space at
/// the end behind the last word.
pub open spec fn clean_suffix(suffix: Option<Seq<char>>, raw: bool, last: bool) -> Seq<char> {
    match suffix {
        None => Seq::<char>::empty(),
        Some(text) => if raw {
            text
        } else if last {
            trim_end(collapse_text(flattened(text)))
        } else {
            collapse_text(flattened(text))
        },
    }
}

/// What an excerpt for `position` shows of the word at `ordinal`.
pub open spec fn shows(
    term: ExcerptTerm,
    words: Seq<SnipWord>,
    position: int,
    ordinal: int,
    first: int,
    last: int,
    raw: bool,
) -> bool {
    &&& term.stem@ == words[ordinal].stem@
    &&& term.term@ == words[ordinal].word@
    &&& term.highlight == (words[ordinal].stem@ == words[position].stem@)
    &&& term.range_prefix == (first as usize, last as usize)
    &&& term.suffix_clean@ == clean_suffix(opt_view(words[ordinal].suffix), raw, ordinal == last)
}

/// The excerpt is the one for `position` among the words, with `width`
/// words of context to either side where the document has them.
pub open spec fn is_excerpt_of(
    excerpt: Excerpt,
    words: Seq<SnipWord>,
    position: int,
    width: int,
    raw: bool,
) -> bool {
    let first = window_first(position, width);
    let last = window_last(words.len() as int, position, width);
    &&& excerpt.position_first == first
    &&& excerpt.position_last == last
    &&& excerpt.positions@ == ordinal_range(first, last + 1)
    &&& excerpt.terms@.len() == last + 1 - first
    &&& forall|i: int|
        0 <= i < excerpt.terms@.len() ==> shows(
            #[trigger] excerpt.terms@[i],
            words,
            position,
            first + i,
            first,
            last,
            raw,
        )
}

/// Replaces every line feed, carriage return and vertical tab by a space.
pub fn flatten(text: &str) -> (out: String)
    ensures
        out@ == flattened(text@),
{
    let chars = chars_of(text);
    let mut out: Vec<char> = Vec::new();
    let mut i: usize = 0;
    while i < chars.len()
        invariant
            i <= chars.len(),
            chars@ == text@,
            out@ == flattened(text@).take(i as int),
        decreases chars.len() - i,
    {
        let c = chars[i];
        out.push(if c == '\n' || c == '\r' || c == '\u{b}' { ' ' } else { c });
        i += 1;
        assert(flattened(text@).take(i as int) =~= flattened(text@).take(i as int - 1).push(
            flattened(text@)[i as int - 1],
        ));
    }
    assert(flattened(text@).take(i as int) =~= flattened(text@));
    string_of(&out)
}

/// Joins grapheme clusters to one text, leaving out every space that follows
/// a space.
pub fn collapse_clusters(clusters: &Vec<String>) -> (out: String)
    ensures
        out@ == collapsed(text_views(clusters@)),
{
    let ghost all = text_views(clusters@);
    let mut out: Vec<char> = Vec::new();
    let mut after_space: bool = false;
    let mut i: usize = 0;
    assert(all.take(0) =~= Seq::<Seq<char>>::empty());
    while i < clusters.len()
        invariant
            i <= clusters.len(),
            all == text_views(clusters@),
            out@ == collapsed(all.take(i as int)),
            after_space == (i > 0 && all[i as int - 1] == seq![' ']),
        decreases clusters.len() - i,
    {
        let ghost seen = all.take(i as int + 1);
        assert(seen.drop_last() =~= all.take(i as int));
        assert(seen.last() == clusters@[i as int]@);
        let cluster = chars_of(clusters[i].as_str());
        let is_space = cluster.len() == 1 && cluster[0] == ' ';
        assert(is_space == (cluster@ == seq![' '])) by {
            if is_space {
                assert(cluster@ =~= seq![' ']);
            }
        }
        if !(is_space && after_space) {
            push_all(&mut out, &cluster);
        }
        after_space = is_space;
        i += 1;
    }
    assert(all.take(i as int) =~= all);
    string_of(&out)
}

/// Reduces every run of spaces to one space.
pub fn collapse_spaces(s: String) -> (out: String)
    ensures
        out@ == collapse_text(s@),
{
    let clusters = graphemes_of(s.as_str());
    collapse_clusters(&clusters)
}

/// Removes the white space at the end of a text.
pub fn trim_text_end(text: &str) -> (out: String)
    ensures
        out@ == trim_end(text@),
{
    let chars = chars_of(text);
    let end = trimmed_end(&chars);
    let kept = copy_range(&chars, 0, end);
    assert(chars@.subrange(0, end as int) =~= chars@.take(end as int));
    string_of(&kept)
}

/// The text behind a word as an excerpt shows it.
pub fn clean_suffix_of(suffix: &Option<String>, raw: bool, last: bool) -> (out: String)
    ensures
        out@ == clean_suffix(opt_view(*suffix), raw, last),
{
    match suffix {
        None => String::new(),
        Some(text) => {
            if raw {
                text.clone()
            } else {
                let collapsed = collapse_spaces(flatten(text.as_str()));
                if last {
                    trim_text_end(collapsed.as_str())
                } else {
                    collapsed
                }
            }
        },
    }
}

impl SnipAnalysis {
    /// The ordinals of the context of a position: up to `count` words in
    /// front of it, the position itself, and up to `count` words behind it.
    pub fn get_term_context_positions(&self, position: usize, count: usize) -> (context: Vec<
        usize,
    >)
        ensures
            context@ == context_positions(
                self.words@.len() as int,
                position as int,
                count as int,
            ),
    {
        let len = self.words.len();
        let first: usize = if position > count {
            position - count
        } else {
            0
        };
        let front_end: usize = if position < len {
            position
        } else {
            len
        };
        let reach = position.saturating_add(1).saturating_add(count);
        let back_end: usize = if reach < len {
            reach
        } else {
            len
        };
        let ghost front = ordinal_range(first as int, front_end as int);
        let ghost back = ordinal_range(position as int + 1, back_end as int);
        let mut context: Vec<usize> = Vec::new();
        let mut i: usize = first;
        while i < front_end
            invariant
                first <= i,
                i <= front_end || i == first,
                front == ordinal_range(first as int, front_end as int),
                context@ == front.take(i - first),
            decreases front_end - i,
        {
            context.push(i);
            i += 1;
            assert(front.take(i - first) =~= front.take(i - first - 1).push((i - 1) as usize));
        }
        assert(context@ =~= front);
        context.push(position);
        if position < len {
            let mut k: usize = position + 1;
            while k < back_end
                invariant
                    position + 1 <= k,
                    k <= back_end || k == position + 1,
                    back == ordinal_range(position as int + 1, back_end as int),
                    context@ == front + seq![position] + back.take(k - (position + 1)),
                decreases back_end - k,
            {
                context.push(k);
                k += 1;
                assert(front + seq![position] + back.take(k - (position + 1)) =~= (front
                    + seq![position] + back.take(k - (position + 1) - 1)).push((k - 1) as usize));
            }
            assert(context@ =~= front + seq![position] + back);
        } else {
            assert(back =~= Seq::<usize>::empty());
            assert(context@ =~= front + seq![position] + back);
        }
        context
    }

    /// The words at the given ordinals. Fails where an ordinal is not
    /// that of a word.
    pub fn get_term_context_words(&self, context: Vec<usize>) -> (words: Option<Vec<&SnipWord>>)
        ensures
            words is Some <==> forall|i: int|
                0 <= i < context@.len() ==> context@[i] < self.words@.len(),
            words matches Some(found) ==> found@.len() == context@.len() && forall|i: int|
                0 <= i < found@.len() ==> *(#[trigger] found@[i]) == self.words@[context@[i] as int],
    {
        let mut found: Vec<&SnipWord> = Vec::new();
        let mut i: usize = 0;
        while i < context.len()
            invariant
                i <= context.len(),
                found@.len() == i,
                forall|k: int| 0 <= k < i ==> context@[k] < self.words@.len(),
                forall|k: int|
                    0 <= k < i ==> *(#[trigger] found@[k]) == self.words@[context@[k] as int],
            decreases context.len() - i,
        {
            if context[i] >= self.words.len() {
                return None;
            }
            found.push(&self.words[context[i]]);
            i += 1;
        }
        Some(found)
    }

    /// The excerpt for the word at `pos`: the words of its context, `context_words`
    /// to either side where the document has them, each with the text behind
    /// it and flagged where it has the stem of the word at `pos`. Fails where
    /// `pos` is not the ordinal of a word.
    pub fn get_excerpt(&self, pos: &usize, context_words: usize, context_raw: bool) -> (out:
        Result<Excerpt, SnipError>)
        ensures
            out is Ok <==> *pos < self.words@.len(),
            out matches Err(e) ==> e is General && e.detail()
                == "the position is not that of a word"@,
            out matches Ok(excerpt) ==> is_excerpt_of(
                excerpt,
                self.words@,
                *pos as int,
                context_words as int,
                context_raw,
            ) && excerpt.position_first <= *pos <= excerpt.position_last < self.words@.len(),
    {
        let position = *pos;
        let len = self.words.len();
        if position >= len {
            return Err(SnipError::General("the position is not that of a word".to_owned()));
        }
        let positions = self.get_term_context_positions(position, context_words);
        let ghost first = window_first(position as int, context_words as int);
        let ghost last = window_last(len as int, position as int, context_words as int);
        assert(positions@ =~= ordinal_range(first, last + 1));
        let position_first = positions[0];
        let position_last = positions[positions.len() - 1];
        let mut terms: Vec<ExcerptTerm> = Vec::new();
        let mut i: usize = 0;
        while i < positions.len()
            invariant
                i <= positions.len(),
                position < len,
                len == self.words@.len(),
                first == window_first(position as int, context_words as int),
                last == window_last(len as int, position as int, context_words as int),
                positions@ == ordinal_range(first, last + 1),
                position_first == first,
                position_last == last,
                terms@.len() == i,
                forall|k: int|
                    0 <= k < i ==> shows(
                        #[trigger] terms@[k],
                        self.words@,
                        position as int,
                        first + k,
                        first,
                        last,
                        context_raw,
                    ),
            decreases positions.len() - i,
        {
            let p = positions[i];
            let word = &self.words[p];
            let term = ExcerptTerm {
                stem: word.stem.clone(),
                term: word.word.clone(),
                highlight: word.stem == self.words[position].stem,
                range_prefix: (position_first, position_last),
                suffix_clean: clean_suffix_of(&word.suffix, context_raw, p == position_last),
            };
            terms.push(term);
            i += 1;
        }
        Ok(Excerpt { position_first, position_last, positions, terms })
    }
}

/// The words of an excerpt in one text, each followed by the text behind it.
pub open spec fn terms_text(terms: Seq<ExcerptTerm>) -> Seq<char>
    decreases terms.len(),
{
    if terms.len() == 0 {
        Seq::<char>::empty()
    } else {
        terms_text(terms.drop_last()) + terms.last().term@ + terms.last().suffix_clean@
    }
}

/// The line that shows an excerpt: its first and last ordinal in brackets,
/// and its words between quotation marks.
pub open spec fn excerpt_line(excerpt: Excerpt) -> Seq<char> {
    "    ["@ + decimal(excerpt.position_first as nat) + "-"@ + decimal(
        excerpt.position_last as nat,
    ) + "] \""@ + terms_text(excerpt.terms@) + "\"\n"@
}

impl Excerpt {
    /// The line that shows the excerpt, without any highlighting.
    pub fn render(&self) -> (out: String)
        ensures
            out@ == excerpt_line(*self),
    {
        let mut first: Vec<char> = Vec::new();
        push_decimal(&mut first, self.position_first as u64);
        assert(first@ =~= decimal(self.position_first as nat));
        let mut last: Vec<char> = Vec::new();
        push_decimal(&mut last, self.position_last as u64);
        assert(last@ =~= decimal(self.position_last as nat));
        let mut out = "    [".to_owned();
        out.append(string_of(&first).as_str());
        out.append("-");
        out.append(string_of(&last).as_str());
        out.append("] \"");
        let ghost head = out@;
        let mut i: usize = 0;
        assert(self.terms@.take(0) =~= Seq::<ExcerptTerm>::empty());
        assert(head + terms_text(self.terms@.take(0)) =~= head);
        while i < self.terms.len()
            invariant
                i <= self.terms.len(),
                out@ == head + terms_text(self.terms@.take(i as int)),
            decreases self.terms.len() - i,
        {
            assert(self.terms@.take(i as int + 1).drop_last() =~= self.terms@.take(i as int));
            assert(self.terms@.take(i as int + 1).last() == self.terms@[i as int]);
            out.append(self.terms[i].term.as_str());
            out.append(self.terms[i].suffix_clean.as_str());
            i += 1;
            assert(out@ =~= head + terms_text(self.terms@.take(i as int)));
        }
        assert(self.terms@.take(i as int) =~= self.terms@);
        out.append("\"\n");
        assert(out@ =~= excerpt_line(*self));
        out
    }
}

} // verus!
