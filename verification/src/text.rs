use vstd::prelude::*;
use vstd::string::*;
use vstd::utf8::*;

verus! {

/// `String::push` appends one character.
pub assume_specification[ String::push ](s: &mut String, ch: char)
    ensures
        final(s)@ == old(s)@.push(ch),
;

/// A string that holds the given characters.
pub fn string_of(chars: &Vec<char>) -> (out: String)
    ensures
        out@ == chars@,
{
    let mut out = String::new();
    let mut i: usize = 0;
    while i < chars.len()
        invariant
            i <= chars.len(),
            out@ == chars@.take(i as int),
        decreases chars.len() - i,
    {
        out.push(chars[i]);
        i += 1;
        assert(chars@.take(i as int) =~= chars@.take(i as int - 1).push(chars@[i as int - 1]));
    }
    assert(chars@.take(i as int) =~= chars@);
    out
}

/// Whether two string slices hold the same text.
pub fn same_text(a: &str, b: &str) -> (same: bool)
    ensures
        same == (a@ == b@),
{
    a.to_owned() == b.to_owned()
}

/// The characters of `s`, in order.
pub fn chars_of(s: &str) -> (out: Vec<char>)
    ensures
        out@ == s@,
{
    broadcast use vstd::string::group_string_axioms;
    let mut out: Vec<char> = Vec::new();
    for c in it: s.chars()
        invariant
            out@ == it.history(),
            it.seq() == s@,
    {
        out.push(c);
    }
    assert(out@ =~= s@);
    out
}

/// A position between two characters of a text lies between two characters
/// of the text's start, up to any such position behind it.
pub proof fn lemma_boundary_of_prefix(bytes: Seq<u8>, from: int, to: int)
    requires
        valid_utf8(bytes),
        0 <= from <= to <= bytes.len(),
        is_char_boundary(bytes, from),
        is_char_boundary(bytes, to),
    ensures
        valid_utf8(bytes.subrange(0, to)),
        is_char_boundary(bytes.subrange(0, to), from),
{
    let head = bytes.subrange(0, to);
    valid_utf8_split(bytes, to);
    if from == to {
        is_char_boundary_start_end_of_seq(head);
    } else {
        is_char_boundary_iff_not_is_continuation_byte(bytes, from);
        is_char_boundary_iff_not_is_continuation_byte(head, from);
    }
}

/// The piece of a text between two byte positions: `None` where they are
/// not a range within the text whose ends fall between characters.
pub fn byte_slice<'a>(s: &'a str, from: usize, to: usize) -> (out: Option<&'a str>)
    ensures
        out is Some <==> (from <= to <= s.spec_bytes().len()
            && is_char_boundary(s.spec_bytes(), from as int)
            && is_char_boundary(s.spec_bytes(), to as int)),
        out matches Some(t) ==> t.spec_bytes() == s.spec_bytes().subrange(from as int, to as int),
{
    proof {
        encode_utf8_valid_utf8(s@);
    }
    let len = s.as_bytes().len();
    if from > to || to > len {
        return None;
    }
    if !s.is_char_boundary(from) || !s.is_char_boundary(to) {
        return None;
    }
    proof {
        lemma_boundary_of_prefix(s.spec_bytes(), from as int, to as int);
    }
    let (head, _) = s.split_at(to);
    let (_, mid) = head.split_at(from);
    assert(mid.spec_bytes() =~= s.spec_bytes().subrange(from as int, to as int));
    Some(mid)
}

/// The views of a sequence of strings.
pub open spec fn text_views(items: Seq<String>) -> Seq<Seq<char>> {
    Seq::new(items.len(), |i: int| items[i]@)
}

/// The views of a sequence of character vectors.
pub open spec fn rows_view(rows: Seq<Vec<char>>) -> Seq<Seq<char>> {
    Seq::new(rows.len(), |i: int| rows[i]@)
}

/// The pieces of a text between the occurrences of a separator: one more
/// piece than there are separators, so that the empty text has one empty
/// piece.
pub open spec fn split_on(s: Seq<char>, sep: char) -> Seq<Seq<char>>
    decreases s.len(),
{
    if s.len() == 0 {
        seq![Seq::<char>::empty()]
    } else {
        let fields = split_on(s.drop_last(), sep);
        if s.last() == sep {
            fields.push(Seq::<char>::empty())
        } else {
            fields.update(fields.len() - 1, fields.last().push(s.last()))
        }
    }
}

/// The parts of a sequence with a separator between each two neighbours.
pub open spec fn join_with(parts: Seq<Seq<char>>, sep: Seq<char>) -> Seq<char>
    decreases parts.len(),
{
    if parts.len() == 0 {
        Seq::<char>::empty()
    } else if parts.len() == 1 {
        parts[0]
    } else {
        join_with(parts.drop_last(), sep) + sep + parts.last()
    }
}

/// The characters with Unicode's White_Space property.
pub open spec fn is_whitespace(c: char) -> bool {
    ||| '\u{9}' <= c <= '\u{d}'
    ||| c == ' '
    ||| c == '\u{85}'
    ||| c == '\u{a0}'
    ||| c == '\u{1680}'
    ||| '\u{2000}' <= c <= '\u{200a}'
    ||| c == '\u{2028}'
    ||| c == '\u{2029}'
    ||| c == '\u{202f}'
    ||| c == '\u{205f}'
    ||| c == '\u{3000}'
}

/// The text without the white space at its end.
pub open spec fn trim_end(s: Seq<char>) -> Seq<char>
    decreases s.len(),
{
    if s.len() > 0 && is_whitespace(s.last()) {
        trim_end(s.drop_last())
    } else {
        s
    }
}

/// The text without the white space at its start.
pub open spec fn trim_start(s: Seq<char>) -> Seq<char>
    decreases s.len(),
{
    if s.len() > 0 && is_whitespace(s[0]) {
        trim_start(s.drop_first())
    } else {
        s
    }
}

/// The text without the white space at either end.
pub open spec fn trim(s: Seq<char>) -> Seq<char> {
    trim_end(trim_start(s))
}

/// Whether a character is white space.
pub fn is_space(c: char) -> (b: bool)
    ensures
        b == is_whitespace(c),
{
    ('\u{9}' <= c && c <= '\u{d}') || c == ' ' || c == '\u{85}' || c == '\u{a0}' || c
        == '\u{1680}' || ('\u{2000}' <= c && c <= '\u{200a}') || c == '\u{2028}' || c
        == '\u{2029}' || c == '\u{202f}' || c == '\u{205f}' || c == '\u{3000}'
}

/// Splits a text at every occurrence of a separator.
pub fn split_chars(s: &Vec<char>, sep: char) -> (fields: Vec<Vec<char>>)
    ensures
        rows_view(fields@) == split_on(s@, sep),
{
    let mut fields: Vec<Vec<char>> = Vec::new();
    let mut current: Vec<char> = Vec::new();
    let mut i: usize = 0;
    assert(s@.take(0) =~= Seq::<char>::empty());
    assert(rows_view(fields@).push(current@) =~= split_on(s@.take(0), sep));
    while i < s.len()
        invariant
            i <= s.len(),
            rows_view(fields@).push(current@) == split_on(s@.take(i as int), sep),
        decreases s.len() - i,
    {
        let ghost before = rows_view(fields@).push(current@);
        let ghost seen = s@.take(i as int + 1);
        assert(seen.drop_last() =~= s@.take(i as int));
        assert(seen.last() == s@[i as int]);
        let c = s[i];
        if c == sep {
            fields.push(current);
            current = Vec::new();
            assert(rows_view(fields@).push(current@) =~= before.push(Seq::<char>::empty()));
        } else {
            current.push(c);
            assert(rows_view(fields@).push(current@) =~= before.update(
                before.len() - 1,
                before.last().push(c),
            ));
        }
        i += 1;
    }
    assert(s@.take(i as int) =~= s@);
    let ghost before = rows_view(fields@).push(current@);
    fields.push(current);
    assert(rows_view(fields@) =~= before);
    fields
}

/// The length of a text without the white space at its end.
pub fn trimmed_end(s: &Vec<char>) -> (end: usize)
    ensures
        end <= s.len(),
        s@.take(end as int) == trim_end(s@),
{
    let mut end: usize = s.len();
    assert(s@.take(end as int) =~= s@);
    while end > 0 && is_space(s[end - 1])
        invariant
            end <= s.len(),
            trim_end(s@.take(end as int)) == trim_end(s@),
        decreases end,
    {
        assert(s@.take(end as int).drop_last() =~= s@.take(end as int - 1));
        end -= 1;
    }
    end
}

/// Where the first `end` characters of a text start, but for the white
/// space in front.
pub fn trimmed_start(s: &Vec<char>, end: usize) -> (start: usize)
    requires
        end <= s.len(),
    ensures
        start <= end,
        s@.subrange(start as int, end as int) == trim_start(s@.take(end as int)),
{
    let mut start: usize = 0;
    assert(s@.subrange(0, end as int) =~= s@.take(end as int));
    while start < end && is_space(s[start])
        invariant
            start <= end <= s.len(),
            trim_start(s@.subrange(start as int, end as int)) == trim_start(s@.take(end as int)),
        decreases end - start,
    {
        assert(s@.subrange(start as int, end as int).drop_first() =~= s@.subrange(
            start as int + 1,
            end as int,
        ));
        start += 1;
    }
    start
}

/// A copy of the characters from `from` up to `to`.
pub fn copy_range(s: &Vec<char>, from: usize, to: usize) -> (out: Vec<char>)
    requires
        from <= to <= s.len(),
    ensures
        out@ == s@.subrange(from as int, to as int),
{
    let mut out: Vec<char> = Vec::new();
    let mut i: usize = from;
    while i < to
        invariant
            from <= i <= to <= s.len(),
            out@ == s@.subrange(from as int, i as int),
        decreases to - i,
    {
        out.push(s[i]);
        i += 1;
        assert(s@.subrange(from as int, i as int) =~= s@.subrange(from as int, i as int - 1).push(
            s@[i as int - 1],
        ));
    }
    out
}

/// Appends the characters of `more`.
pub fn push_all(out: &mut Vec<char>, more: &Vec<char>)
    ensures
        final(out)@ == old(out)@ + more@,
{
    let mut i: usize = 0;
    assert(old(out)@ + more@.take(0) =~= old(out)@);
    while i < more.len()
        invariant
            i <= more.len(),
            out@ == old(out)@ + more@.take(i as int),
        decreases more.len() - i,
    {
        out.push(more[i]);
        i += 1;
        assert(old(out)@ + more@.take(i as int) =~= (old(out)@ + more@.take(i as int - 1)).push(
            more@[i as int - 1],
        ));
    }
    assert(more@.take(i as int) =~= more@);
}

/// The strings of a list of character vectors.
pub fn strings_of(rows: &Vec<Vec<char>>) -> (out: Vec<String>)
    ensures
        text_views(out@) == rows_view(rows@),
{
    let mut out: Vec<String> = Vec::new();
    let mut i: usize = 0;
    while i < rows.len()
        invariant
            i <= rows.len(),
            out@.len() == i,
            forall|k: int| 0 <= k < i ==> (#[trigger] out@[k])@ == rows@[k]@,
        decreases rows.len() - i,
    {
        out.push(string_of(&rows[i]));
        i += 1;
    }
    assert(text_views(out@) =~= rows_view(rows@));
    out
}

} // verus!
