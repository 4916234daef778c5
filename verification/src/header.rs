use crate::attachment::Timestamp;
use crate::error::SnipError;
use crate::ids::{parse_uuid, uuid_of_text};
use crate::time::{parse_timestamp, rfc3339_instant};
use crate::naming::same_chars;
use crate::text::{
    chars_of, copy_range, join_with, push_all, rows_view, split_chars, split_on, string_of, trim,
    trimmed_end, trimmed_start,
};
use vstd::prelude::*;
use vstd::string::*;

verus! {

/// Where, at or behind `start`, a colon followed by a space stands first.
pub open spec fn delimiter_from(line: Seq<char>, start: int) -> Option<int>
    decreases line.len() - start,
{
    if start < 0 || start + 1 >= line.len() {
        None
    } else if line[start] == ':' && line[start + 1] == ' ' {
        Some(start)
    } else {
        delimiter_from(line, start + 1)
    }
}

/// The value of the field that a line holds under a key: the text behind
/// the first colon and space, without the white space around it, where the
/// text in front, without the white space around it, is the key.
pub open spec fn field_value(key: Seq<char>, line: Seq<char>) -> Option<Seq<char>> {
    match delimiter_from(line, 0) {
        Some(at) => if trim(line.take(at)) == key {
            Some(trim(line.skip(at + 2)))
        } else {
            None
        },
        None => None,
    }
}

/// A copy of the characters without the white space at either end.
pub fn trim_chars(s: &Vec<char>) -> (out: Vec<char>)
    ensures
        out@ == trim(s@),
{
    let start = trimmed_start(s, s.len());
    assert(s@.take(s@.len() as int) =~= s@);
    let rest = copy_range(s, start, s.len());
    let end = trimmed_end(&rest);
    let out = copy_range(&rest, 0, end);
    assert(rest@.subrange(0, end as int) =~= rest@.take(end as int));
    out
}

/// Parses the value of a field from a line of the form `key: value`. Fails
/// where the line holds no colon followed by a space, or another key.
pub fn parse_field(key_name: &str, line: &str) -> (out: Result<String, SnipError>)
    ensures
        match field_value(key_name@, line@) {
            Some(value) => out matches Ok(v) && v@ == value,
            None => out matches Err(e) && e is General,
        },
        delimiter_from(line@, 0) is None ==> (out matches Err(e) && e.detail()
            == "could not find delimiting characters in line: "@ + line@),
        delimiter_from(line@, 0) matches Some(at) ==> (out matches Err(e) ==> e.detail()
            == "parsed key: "@ + trim(line@.take(at)) + " does not match requested key: "@
            + key_name@),
{
    let chars = chars_of(line);
    let mut at: usize = 0;
    let mut found = false;
    while chars.len() - at > 1
        invariant_except_break
            !found,
        invariant
            at <= chars.len(),
            chars@ == line@,
            delimiter_from(line@, 0) == delimiter_from(line@, at as int),
        ensures
            found ==> delimiter_from(line@, 0) == Some(at as int) && at + 1 < chars.len(),
            !found ==> delimiter_from(line@, 0) is None,
        decreases chars.len() - at,
    {
        if chars[at] == ':' && chars[at + 1] == ' ' {
            found = true;
            break ;
        }
        at += 1;
    }
    if !found {
        return Err(
            SnipError::General(
                "could not find delimiting characters in line: ".to_owned().concat(line),
            ),
        );
    }
    let front = copy_range(&chars, 0, at);
    assert(chars@.subrange(0, at as int) =~= line@.take(at as int));
    let key = trim_chars(&front);
    let wanted = chars_of(key_name);
    if !same_chars(&key, &wanted) {
        let found_key = string_of(&key);
        return Err(
            SnipError::General(
                "parsed key: ".to_owned().concat(found_key.as_str()).concat(
                    " does not match requested key: ",
                ).concat(key_name),
            ),
        );
    }
    let back = copy_range(&chars, at + 2, chars.len());
    assert(chars@.subrange(at as int + 2, chars@.len() as int) =~= line@.skip(at as int + 2));
    let value = trim_chars(&back);
    Ok(string_of(&value))
}

/// The line that separates the header and the attachments of a document
/// file from its text.
pub open spec fn rule() -> Seq<char> {
    seq!['-', '-', '-', '-']
}

/// The index of the first rule at or behind `start`.
pub open spec fn first_rule_from(lines: Seq<Seq<char>>, start: int) -> Option<int>
    decreases lines.len() - start,
{
    if start < 0 || start >= lines.len() {
        None
    } else if lines[start] == rule() {
        Some(start)
    } else {
        first_rule_from(lines, start + 1)
    }
}

/// The index of the last rule in front of `end`.
pub open spec fn last_rule_before(lines: Seq<Seq<char>>, end: int) -> Option<int>
    decreases end,
{
    if end <= 0 || end > lines.len() {
        None
    } else if lines[end - 1] == rule() {
        Some(end - 1)
    } else {
        last_rule_before(lines, end - 1)
    }
}

/// The line behind the first rule, where the text of a document file
/// starts; the first line where there is no rule.
pub open spec fn text_start(lines: Seq<Seq<char>>) -> int {
    match first_rule_from(lines, 0) {
        Some(at) => at + 1,
        None => 0,
    }
}

/// The last rule, in front of which the text of a document file ends; the
/// first line where there is no rule.
pub open spec fn text_end(lines: Seq<Seq<char>>) -> int {
    match last_rule_before(lines, lines.len() as int) {
        Some(at) => at,
        None => 0,
    }
}

/// The text of a document file: the lines between its first and its last
/// rule, each ended by a line feed but that a text without lines is one line
/// feed. None where one line is both the first and the last rule.
pub open spec fn file_text(data: Seq<char>) -> Option<Seq<char>> {
    let lines = split_on(data, '\n');
    if text_start(lines) <= text_end(lines) {
        Some(join_with(lines.subrange(text_start(lines), text_end(lines)), seq!['\n']).push('\n'))
    } else {
        None
    }
}

fn is_rule(line: &Vec<char>) -> (b: bool)
    ensures
        b == (line@ == rule()),
{
    let b = line.len() == 4 && line[0] == '-' && line[1] == '-' && line[2] == '-' && line[3]
        == '-';
    proof {
        if b {
            assert(line@ =~= rule());
        }
    }
    b
}

/// Extracts the text of a document from the content of its file. Fails
/// where the file holds a single rule.
pub fn parse_text(data: &str) -> (out: Result<String, SnipError>)
    ensures
        match file_text(data@) {
            Some(text) => out matches Ok(v) && v@ == text,
            None => out matches Err(e) && e is General && e.detail()
                == "parsing document text from file"@,
        },
{
    let chars = chars_of(data);
    let lines = split_chars(&chars, '\n');
    let ghost all = split_on(data@, '\n');
    let mut start: usize = 0;
    let mut i: usize = 0;
    while i < lines.len()
        invariant_except_break
            start == 0,
            first_rule_from(all, 0) == first_rule_from(all, i as int),
        invariant
            i <= lines.len(),
            rows_view(lines@) == all,
        ensures
            start == text_start(all),
            start <= lines.len(),
        decreases lines.len() - i,
    {
        assert(all[i as int] == lines@[i as int]@);
        if is_rule(&lines[i]) {
            start = i + 1;
            break ;
        }
        i += 1;
    }
    let mut end: usize = 0;
    let mut k: usize = lines.len();
    while k > 0
        invariant_except_break
            end == 0,
            last_rule_before(all, all.len() as int) == last_rule_before(all, k as int),
        invariant
            k <= lines.len(),
            rows_view(lines@) == all,
        ensures
            end == text_end(all),
            end <= lines.len(),
        decreases k,
    {
        assert(all[k as int - 1] == lines@[k as int - 1]@);
        if is_rule(&lines[k - 1]) {
            end = k - 1;
            break ;
        }
        k -= 1;
    }
    if start > end {
        return Err(SnipError::General("parsing document text from file".to_owned()));
    }
    let ghost body = all.subrange(start as int, end as int);
    let mut text: Vec<char> = Vec::new();
    let mut j: usize = start;
    assert(body.take(0) =~= Seq::<Seq<char>>::empty());
    while j < end
        invariant
            start <= j <= end <= lines.len(),
            rows_view(lines@) == all,
            body == all.subrange(start as int, end as int),
            text@ == join_with(body.take(j - start), seq!['\n']),
        decreases end - j,
    {
        let ghost parts = body.take(j - start + 1);
        assert(parts.drop_last() =~= body.take(j - start));
        assert(parts.last() == lines@[j as int]@);
        if j > start {
            text.push('\n');
        }
        push_all(&mut text, &lines[j]);
        proof {
            if j == start {
                assert(text@ =~= parts[0]);
            } else {
                assert(text@ =~= join_with(parts.drop_last(), seq!['\n']) + seq!['\n']
                    + parts.last());
            }
        }
        j += 1;
    }
    assert(body.take(j - start) =~= body);
    text.push('\n');
    Ok(string_of(&text))
}

/// The head of a document file: what is known of the document but its text.
#[derive(Debug)]
pub struct SnipHeader {
    pub uuid: u128,
    pub name: String,
    pub timestamp: Timestamp,
}

/// The header that the content of a document file holds: the fields `uuid`,
/// `name` and `timestamp` of its first three lines, where there are four
/// lines at least and the fields denote a UUID and a point in time. The time
/// is taken to UTC.
pub open spec fn header_of(data: Seq<char>) -> Option<(u128, Seq<char>, (i64, u32, i32))> {
    let lines = split_on(data, '\n');
    if lines.len() < 4 {
        None
    } else {
        match (
            field_value("uuid"@, lines[0]),
            field_value("name"@, lines[1]),
            field_value("timestamp"@, lines[2]),
        ) {
            (Some(id), Some(name), Some(time)) => match (uuid_of_text(id), rfc3339_instant(time)) {
                (Some(uuid), Some(parts)) => Some((uuid, name, (parts.0, parts.1, 0i32))),
                _ => None,
            },
            _ => None,
        }
    }
}

/// Parses the header of a document from the content of its file. Fails
/// where a field is missing or malformed.
pub fn parse_header(data: &str) -> (out: Result<SnipHeader, SnipError>)
    ensures
        match header_of(data@) {
            Some(head) => out matches Ok(h) && h.uuid == head.0 && h.name@ == head.1
                && h.timestamp.parts() == head.2,
            None => out matches Err(e) && e is General,
        },
{
    let chars = chars_of(data);
    let lines = split_chars(&chars, '\n');
    let ghost all = split_on(data@, '\n');
    if lines.len() < 4 {
        return Err(SnipError::General("malformed header: ".to_owned().concat(data)));
    }
    assert(all[0] == lines@[0]@ && all[1] == lines@[1]@ && all[2] == lines@[2]@);
    let first = string_of(&lines[0]);
    let second = string_of(&lines[1]);
    let third = string_of(&lines[2]);
    let uuid_parsed = match parse_field("uuid", first.as_str()) {
        Ok(v) => v,
        Err(e) => {
            return Err(e);
        },
    };
    let name = match parse_field("name", second.as_str()) {
        Ok(v) => v,
        Err(e) => {
            return Err(e);
        },
    };
    let timestamp_parsed = match parse_field("timestamp", third.as_str()) {
        Ok(v) => v,
        Err(e) => {
            return Err(e);
        },
    };
    let uuid = match parse_uuid(uuid_parsed.as_str()) {
        Ok(v) => v,
        Err(e) => {
            return Err(e);
        },
    };
    let timestamp = match parse_timestamp(timestamp_parsed.as_str()) {
        Ok(v) => v.to_utc(),
        Err(e) => {
            return Err(e);
        },
    };
    Ok(SnipHeader { uuid, name, timestamp })
}

} // verus!
