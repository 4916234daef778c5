use crate::analysis::WordIndex;
use crate::error::SnipError;
use crate::numbers::{
    decimal, digit_value, lemma_decimal_value, lemma_parse_decimal, parse_u64, push_decimal,
    read_u64,
};
use crate::text::{chars_of, join_with, rows_view, split_chars, split_on, string_of};
use vstd::prelude::*;
use vstd::string::*;

verus! {

/// The decimal numerals of a list of positions.
pub open spec fn numerals(positions: Seq<u64>) -> Seq<Seq<char>> {
    Seq::new(positions.len(), |i: int| decimal(positions[i] as nat))
}

/// The stored form of a list of positions: their numerals with a comma
/// between each two.
pub open spec fn positions_text(positions: Seq<u64>) -> Seq<char> {
    join_with(numerals(positions), seq![','])
}

/// The numbers that a list of fields denotes; none where a field is no
/// numeral.
pub open spec fn parse_fields(fields: Seq<Seq<char>>) -> Option<Seq<u64>>
    decreases fields.len(),
{
    if fields.len() == 0 {
        Some(Seq::<u64>::empty())
    } else {
        match (parse_fields(fields.drop_last()), parse_u64(fields.last())) {
            (Some(front), Some(last)) => Some(front.push(last)),
            _ => None,
        }
    }
}

/// The positions that a stored text denotes; none where a field between two
/// commas is no numeral.
pub open spec fn parse_positions(text: Seq<char>) -> Option<Seq<u64>> {
    parse_fields(split_on(text, ','))
}

/// Writes a list of positions in its stored form.
pub fn positions_to_text(positions: &Vec<u64>) -> (out: String)
    ensures
        out@ == positions_text(positions@),
{
    let mut out: Vec<char> = Vec::new();
    let mut i: usize = 0;
    assert(numerals(positions@).take(0) =~= Seq::<Seq<char>>::empty());
    while i < positions.len()
        invariant
            i <= positions.len(),
            out@ == join_with(numerals(positions@).take(i as int), seq![',']),
        decreases positions.len() - i,
    {
        let ghost parts = numerals(positions@).take(i as int + 1);
        assert(parts.drop_last() =~= numerals(positions@).take(i as int));
        assert(parts.last() == decimal(positions@[i as int] as nat));
        if i > 0 {
            out.push(',');
        }
        let ghost before = out@;
        push_decimal(&mut out, positions[i]);
        proof {
            if i == 0 {
                assert(before =~= Seq::<char>::empty());
                assert(out@ =~= parts[0]);
            } else {
                assert(out@ =~= join_with(parts.drop_last(), seq![',']) + seq![','] + parts.last());
            }
        }
        i += 1;
    }
    assert(numerals(positions@).take(i as int) =~= numerals(positions@));
    string_of(&out)
}

/// Reads a list of positions from its stored form: `None` where a field is
/// no numeral.
pub fn positions_from_text(text: &str) -> (out: Option<Vec<u64>>)
    ensures
        match parse_positions(text@) {
            Some(positions) => out matches Some(v) && v@ == positions,
            None => out is None,
        },
{
    let chars = chars_of(text);
    let fields = split_chars(&chars, ',');
    let ghost all = split_on(text@, ',');
    let mut out: Vec<u64> = Vec::new();
    let mut i: usize = 0;
    assert(all.take(0) =~= Seq::<Seq<char>>::empty());
    while i < fields.len()
        invariant
            i <= fields.len(),
            rows_view(fields@) == all,
            all == split_on(text@, ','),
            parse_fields(all.take(i as int)) == Some(out@),
        decreases fields.len() - i,
    {
        let ghost seen = all.take(i as int + 1);
        assert(seen.drop_last() =~= all.take(i as int));
        assert(seen.last() == fields@[i as int]@);
        match read_u64(&fields[i]) {
            Some(value) => out.push(value),
            None => {
                proof {
                    assert(parse_fields(seen) is None);
                    lemma_parse_fields_front(all, i as int + 1);
                }
                return None;
            },
        }
        i += 1;
    }
    assert(all.take(i as int) =~= all);
    Some(out)
}

impl WordIndex {
    /// The positions in their stored form.
    pub fn positions_to_string(&self) -> (out: String)
        ensures
            out@ == positions_text(self.positions@),
    {
        positions_to_text(&self.positions)
    }

    /// The positions that a stored text denotes. Fails where a field between
    /// two commas is no numeral.
    pub fn positions_to_u64(pos: String) -> (out: Result<Vec<u64>, SnipError>)
        ensures
            match parse_positions(pos@) {
                Some(positions) => out matches Ok(v) && v@ == positions,
                None => out matches Err(e) && e is General && e.detail()
                    == "a stored position is not a number"@,
            },
    {
        match positions_from_text(pos.as_str()) {
            Some(v) => Ok(v),
            None => Err(SnipError::General("a stored position is not a number".to_owned())),
        }
    }
}

/// Where all fields are numerals, so are the first `k` of them.
proof fn lemma_parse_fields_front(fields: Seq<Seq<char>>, k: int)
    requires
        0 <= k <= fields.len(),
    ensures
        parse_fields(fields) is Some ==> parse_fields(fields.take(k)) is Some,
    decreases fields.len() - k,
{
    if k == fields.len() {
        assert(fields.take(k) =~= fields);
    } else {
        assert(fields.drop_last().take(k) =~= fields.take(k));
        lemma_parse_fields_front(fields.drop_last(), k);
    }
}

/// A text that holds no separator is its own single piece.
proof fn lemma_split_plain(s: Seq<char>, sep: char)
    requires
        forall|i: int| 0 <= i < s.len() ==> s[i] != sep,
    ensures
        split_on(s, sep) == seq![s],
    decreases s.len(),
{
    if s.len() == 0 {
        assert(s =~= Seq::<char>::empty());
    } else {
        lemma_split_plain(s.drop_last(), sep);
        assert(s.drop_last().push(s.last()) =~= s);
        assert(seq![s.drop_last()].update(0, s.drop_last().push(s.last())) =~= seq![s]);
    }
}

/// Behind a separator, a text that holds none adds one piece.
proof fn lemma_split_appended(a: Seq<char>, d: Seq<char>, sep: char)
    requires
        forall|i: int| 0 <= i < d.len() ==> d[i] != sep,
    ensures
        split_on(a + seq![sep] + d, sep) == split_on(a, sep).push(d),
    decreases d.len(),
{
    let whole = a + seq![sep] + d;
    if d.len() == 0 {
        assert(whole.drop_last() =~= a);
        assert(d =~= Seq::<char>::empty());
    } else {
        lemma_split_appended(a, d.drop_last(), sep);
        assert(whole.drop_last() =~= a + seq![sep] + d.drop_last());
        assert(whole.last() == d.last());
        let fields = split_on(a, sep).push(d.drop_last());
        assert(d.drop_last().push(d.last()) =~= d);
        assert(fields.update(fields.len() - 1, fields.last().push(d.last())) =~= split_on(
            a,
            sep,
        ).push(d));
    }
}

/// Splitting what was joined gives the parts back, where there is a part and
/// none holds the separator.
pub proof fn lemma_split_joined(parts: Seq<Seq<char>>, sep: char)
    requires
        parts.len() > 0,
        forall|k: int, i: int|
            0 <= k < parts.len() && 0 <= i < parts[k].len() ==> (#[trigger] parts[k][i]) != sep,
    ensures
        split_on(join_with(parts, seq![sep]), sep) == parts,
    decreases parts.len(),
{
    if parts.len() == 1 {
        lemma_split_plain(parts[0], sep);
        assert(seq![parts[0]] =~= parts);
    } else {
        lemma_split_joined(parts.drop_last(), sep);
        lemma_split_appended(join_with(parts.drop_last(), seq![sep]), parts.last(), sep);
        assert(parts.drop_last().push(parts.last()) =~= parts);
    }
}

/// The numerals of a list of positions denote the positions.
proof fn lemma_parse_numerals(positions: Seq<u64>)
    ensures
        parse_fields(numerals(positions)) == Some(positions),
    decreases positions.len(),
{
    if positions.len() == 0 {
        assert(positions =~= Seq::<u64>::empty());
    } else {
        lemma_parse_numerals(positions.drop_last());
        assert(numerals(positions).drop_last() =~= numerals(positions.drop_last()));
        lemma_parse_decimal(positions.last());
        assert(positions.drop_last().push(positions.last()) =~= positions);
    }
}

/// The stored form loses nothing: reading what was written for a list of
/// positions that is not empty gives the list back.
pub proof fn lemma_positions_round_trip(positions: Seq<u64>)
    requires
        positions.len() > 0,
    ensures
        parse_positions(positions_text(positions)) == Some(positions),
{
    let parts = numerals(positions);
    assert forall|k: int, i: int| 0 <= k < parts.len() && 0 <= i < parts[k].len() implies (
    #[trigger] parts[k][i]) != ',' by {
        lemma_decimal_value(positions[k] as nat);
        assert(digit_value(decimal(positions[k] as nat)[i]) is Some);
    }
    lemma_split_joined(parts, ',');
    lemma_parse_numerals(positions);
}

} // verus!
