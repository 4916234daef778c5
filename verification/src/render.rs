use crate::attachment::Attachment;
use crate::doc::Snip;
use crate::error::SnipError;
use crate::ids::{uuid_text, uuid_to_string};
use crate::listing::{pad_left, pad_right, push_padded_left, push_padded_right};
use crate::numbers::{decimal, push_decimal};
use crate::text::chars_of;
use crate::time::{format_timestamp, rfc3339_text};
use vstd::prelude::*;
use vstd::string::*;

verus! {

/// The line that shows one attachment: its identifier, its size in ten
/// columns and its name.
pub open spec fn attachment_line(attachment: Attachment) -> Seq<char> {
    uuid_text(attachment.uuid) + " "@ + pad_left(decimal(attachment.size as nat), 10) + " "@
        + attachment.name@ + "\n"@
}

/// The lines that show some attachments.
pub open spec fn attachment_lines(attachments: Seq<Attachment>) -> Seq<char>
    decreases attachments.len(),
{
    if attachments.len() == 0 {
        Seq::<char>::empty()
    } else {
        attachment_lines(attachments.drop_last()) + attachment_line(attachments.last())
    }
}

/// What is shown of the attachments of a document: nothing where there are
/// none, else a title, a heading and their lines.
pub open spec fn attachments_text(attachments: Seq<Attachment>) -> Seq<char> {
    if attachments.len() == 0 {
        Seq::<char>::empty()
    } else {
        "attachments:\n"@ + pad_right("uuid"@, 36) + " "@ + pad_left("bytes"@, 10) + " name\n"@
            + attachment_lines(attachments)
    }
}

/// The text of a document ended by a line feed, which is added where the
/// text lacks it.
pub open spec fn closed_text(text: Seq<char>) -> Seq<char> {
    if text.len() > 0 && text.last() == '\n' {
        text
    } else {
        text + "\n"@
    }
}

/// A document as it is shown and stored in a file: the header, the text
/// between two rules, and the attachments. `time` is the document's time as
/// text.
pub open spec fn document_text(doc: Snip, time: Seq<char>) -> Seq<char> {
    "uuid: "@ + uuid_text(doc.uuid) + "\nname: "@ + doc.name@ + "\ntimestamp: "@ + time
        + "\n----\n"@ + closed_text(doc.text@) + "----\n"@ + attachments_text(doc.attachments@)
}

/// Appends the line that shows one attachment.
fn push_attachment_line(out: &mut String, attachment: &Attachment)
    ensures
        final(out)@ == old(out)@ + attachment_line(*attachment),
{
    let id = uuid_to_string(attachment.uuid);
    out.append(id.as_str());
    out.append(" ");
    let mut size: Vec<char> = Vec::new();
    push_decimal(&mut size, attachment.size as u64);
    assert(size@ =~= decimal(attachment.size as nat));
    push_padded_left(out, &size, 10);
    out.append(" ");
    out.append(attachment.name.as_str());
    out.append("\n");
    assert(out@ =~= old(out)@ + attachment_line(*attachment));
}

/// Appends what is shown of the attachments of a document.
fn push_attachments(out: &mut String, attachments: &Vec<Attachment>)
    ensures
        final(out)@ == old(out)@ + attachments_text(attachments@),
{
    if attachments.len() == 0 {
        assert(out@ =~= old(out)@ + attachments_text(attachments@));
        return ;
    }
    out.append("attachments:\n");
    let uuid = chars_of("uuid");
    push_padded_right(out, &uuid, 36);
    out.append(" ");
    let bytes = chars_of("bytes");
    push_padded_left(out, &bytes, 10);
    out.append(" name\n");
    let ghost head = out@;
    assert(head =~= old(out)@ + ("attachments:\n"@ + pad_right("uuid"@, 36) + " "@ + pad_left(
        "bytes"@,
        10,
    ) + " name\n"@));
    let mut i: usize = 0;
    assert(attachments@.take(0) =~= Seq::<Attachment>::empty());
    assert(head + attachment_lines(attachments@.take(0)) =~= head);
    while i < attachments.len()
        invariant
            i <= attachments.len(),
            out@ == head + attachment_lines(attachments@.take(i as int)),
        decreases attachments.len() - i,
    {
        assert(attachments@.take(i as int + 1).drop_last() =~= attachments@.take(i as int));
        assert(attachments@.take(i as int + 1).last() == attachments@[i as int]);
        push_attachment_line(out, &attachments[i]);
        i += 1;
        assert(out@ =~= head + attachment_lines(attachments@.take(i as int)));
    }
    assert(attachments@.take(i as int) =~= attachments@);
    assert(out@ =~= old(out)@ + attachments_text(attachments@));
}

impl Snip {
    /// The document as it is shown to a user and stored in a file. Fails
    /// where the calendar cannot represent the document's time.
    pub fn render(&self) -> (out: Result<String, SnipError>)
        ensures
            match rfc3339_text(self.timestamp.seconds, self.timestamp.nanos, self.timestamp.offset) {
                Some(time) => out matches Ok(text) && text@ == document_text(*self, time),
                None => out matches Err(e) && e is General && e.detail()
                    == "the time is out of the calendar's range"@,
            },
    {
        let time = match format_timestamp(&self.timestamp) {
            Ok(v) => v,
            Err(e) => {
                return Err(e);
            },
        };
        let id = uuid_to_string(self.uuid);
        let mut out = "uuid: ".to_owned();
        out.append(id.as_str());
        out.append("\nname: ");
        out.append(self.name.as_str());
        out.append("\ntimestamp: ");
        out.append(time.as_str());
        out.append("\n----\n");
        out.append(self.text.as_str());
        let text = chars_of(self.text.as_str());
        if !(text.len() > 0 && text[text.len() - 1] == '\n') {
            out.append("\n");
        }
        out.append("----\n");
        let ghost head = out@;
        assert(head =~= "uuid: "@ + uuid_text(self.uuid) + "\nname: "@ + self.name@
            + "\ntimestamp: "@ + time@ + "\n----\n"@ + closed_text(self.text@) + "----\n"@);
        push_attachments(&mut out, &self.attachments);
        Ok(out)
    }
}

} // verus!
