//! What is stored of a message: the envelope in front of the data as it was received.
use crate::bytes::{
    append_bytes, append_text, are_lines, headers_and_body, is_line, lemma_empty_line_ends_headers,
    lemma_lines_grow,
};
use crate::headers::{
    has_envelope, headers_in_lines, keeps_header, law_dropped_headers, lemma_header_on_line,
    with_header_line,
};
use crate::text::{lemma_find_char, lines, lower, starts_with, texts, trim};
use crate::utf8::{
    is_one_line, lemma_crlf, lemma_encode_both, lemma_no_line_feed, lemma_one_more_line,
    lemma_small_scalar,
};
use vstd::prelude::*;
use vstd::utf8::encode_utf8;

verus! {

/// One line of the envelope.
pub open spec fn envelope_line(name: Seq<char>, value: Seq<char>) -> Seq<u8> {
    encode_utf8(name) + encode_utf8(value) + encode_utf8("\r\n"@)
}

/// One line for each recipient.
pub open spec fn recipient_lines(recipients: Seq<Seq<char>>) -> Seq<u8>
    decreases recipients.len(),
{
    if recipients.len() == 0 {
        Seq::empty()
    } else {
        recipient_lines(recipients.drop_last()) + envelope_line(
            "X-SMTP-Receiver-Envelope-To: "@,
            recipients.last(),
        )
    }
}

/// The lines in front of a message that name its sender and its recipients.
pub open spec fn envelope_lines(sender: Seq<char>, recipients: Seq<Seq<char>>) -> Seq<u8> {
    envelope_line("X-SMTP-Receiver-Envelope-From: "@, sender) + recipient_lines(recipients)
}

/// What is stored of a message: the envelope, an empty line, and the data as it was
/// received.
pub open spec fn stored_content(
    sender: Seq<char>,
    recipients: Seq<Seq<char>>,
    data: Seq<u8>,
) -> Seq<u8> {
    envelope_lines(sender, recipients) + encode_utf8("\r\n"@) + data
}

/// What is stored of a message.
pub fn message_content(sender: &str, recipients: &[String], data: &[u8]) -> (r: Vec<u8>)
    ensures
        r@ == stored_content(sender@, texts(recipients@), data@),
{
    let ghost all = texts(recipients@);
    let mut out: Vec<u8> = Vec::new();
    append_text(&mut out, "X-SMTP-Receiver-Envelope-From: ");
    append_text(&mut out, sender);
    append_text(&mut out, "\r\n");
    let ghost first = envelope_line("X-SMTP-Receiver-Envelope-From: "@, sender@);
    assert(out@ =~= first + recipient_lines(all.take(0)));
    let mut i: usize = 0;
    while i < recipients.len()
        invariant
            i <= recipients@.len(),
            all == texts(recipients@),
            out@ == first + recipient_lines(all.take(i as int)),
        decreases recipients@.len() - i,
    {
        proof {
            assert(all.take(i + 1).drop_last() =~= all.take(i as int));
        }
        append_text(&mut out, "X-SMTP-Receiver-Envelope-To: ");
        append_text(&mut out, recipients[i].as_str());
        append_text(&mut out, "\r\n");
        assert(out@ =~= first + recipient_lines(all.take(i + 1)));
        i = i + 1;
    }
    assert(all.take(all.len() as int) =~= all);
    append_text(&mut out, "\r\n");
    append_bytes(&mut out, data);
    assert(out@ =~= stored_content(sender@, all, data@));
    out
}

// ---------------------------------------------------------------------------
// Laws
// ---------------------------------------------------------------------------
/// A stored message can be taken apart again: its headers are the envelope's lines,
/// and its body is the data as it was received.
pub proof fn law_data_is_read_back(sender: Seq<char>, recipients: Seq<Seq<char>>, data: Seq<u8>)
    requires
        is_one_line(sender),
        forall|i: int| 0 <= i < recipients.len() ==> is_one_line(#[trigger] recipients[i]),
    ensures
        ({
            let lines = envelope_lines(sender, recipients);
            headers_and_body(stored_content(sender, recipients, data)) == (
                lines.take(lines.len() - 2),
                data,
            )
        }),
{
    let lines = envelope_lines(sender, recipients);
    lemma_envelope_lines(sender, recipients);
    lemma_crlf();
    lemma_empty_line_ends_headers(lines, data);
}

proof fn lemma_envelope_line(name: Seq<char>, value: Seq<char>)
    requires
        is_one_line(name),
        is_one_line(value),
        name.len() >= 2,
        name[0] < '\u{80}',
        name[1] < '\u{80}',
    ensures
        is_line(envelope_line(name, value)),
{
    lemma_crlf();
    lemma_no_line_feed(name);
    lemma_no_line_feed(value);
    let line = envelope_line(name, value);
    let a = encode_utf8(name);
    let b = encode_utf8(value);
    reveal_with_fuel(encode_utf8, 3);
    lemma_small_scalar(name[0]);
    lemma_small_scalar(name[1]);
    assert(name.drop_first()[0] == name[1]);
    assert(a.len() >= 2);
    assert(line =~= a + b + seq![13u8, 10u8]);
}

proof fn lemma_envelope_lines(sender: Seq<char>, recipients: Seq<Seq<char>>)
    requires
        is_one_line(sender),
        forall|i: int| 0 <= i < recipients.len() ==> is_one_line(#[trigger] recipients[i]),
    ensures
        are_lines(envelope_lines(sender, recipients)),
    decreases recipients.len(),
{
    reveal_strlit("X-SMTP-Receiver-Envelope-From: ");
    reveal_strlit("X-SMTP-Receiver-Envelope-To: ");
    let lines = envelope_lines(sender, recipients);
    if recipients.len() == 0 {
        lemma_envelope_line("X-SMTP-Receiver-Envelope-From: "@, sender);
        lemma_lines_grow(Seq::empty(), envelope_line("X-SMTP-Receiver-Envelope-From: "@, sender));
        assert(lines =~= Seq::empty() + envelope_line("X-SMTP-Receiver-Envelope-From: "@, sender));
    } else {
        let before = envelope_lines(sender, recipients.drop_last());
        let line = envelope_line("X-SMTP-Receiver-Envelope-To: "@, recipients.last());
        assert(lines =~= before + line);
        assert forall|i: int| 0 <= i < recipients.drop_last().len() implies is_one_line(
            #[trigger] recipients.drop_last()[i],
        ) by {
            assert(recipients.drop_last()[i] == recipients[i]);
        }
        lemma_envelope_lines(sender, recipients.drop_last());
        assert(is_one_line(recipients[recipients.len() - 1]));
        lemma_envelope_line("X-SMTP-Receiver-Envelope-To: "@, recipients.last());
        lemma_lines_grow(before, line);
    }
}

/// The envelope as text: one header on each line.
pub open spec fn envelope_text(sender: Seq<char>, recipients: Seq<Seq<char>>) -> Seq<char>
    decreases recipients.len(),
{
    if recipients.len() == 0 {
        "X-SMTP-Receiver-Envelope-From: "@ + sender
    } else {
        envelope_text(sender, recipients.drop_last()) + "\r\n"@ + (
        "X-SMTP-Receiver-Envelope-To: "@ + recipients.last())
    }
}

/// The headers of an envelope.
pub open spec fn envelope_headers(sender: Seq<char>, recipients: Seq<Seq<char>>) -> Seq<
    (Seq<char>, Seq<char>),
>
    decreases recipients.len(),
{
    if recipients.len() == 0 {
        seq![("X-SMTP-Receiver-Envelope-From"@, trim(sender))]
    } else {
        envelope_headers(sender, recipients.drop_last()).push(
            ("X-SMTP-Receiver-Envelope-To"@, trim(recipients.last())),
        )
    }
}

/// The envelope in front of a stored message is text, and the headers in that text
/// are the sender and the recipients, in their order.
pub proof fn law_envelope_is_read_back(sender: Seq<char>, recipients: Seq<Seq<char>>)
    requires
        is_one_line(sender),
        forall|i: int| 0 <= i < recipients.len() ==> is_one_line(#[trigger] recipients[i]),
    ensures
        ({
            let bytes = envelope_lines(sender, recipients);
            bytes.take(bytes.len() - 2) == encode_utf8(envelope_text(sender, recipients))
        }),
        headers_in_lines(lines(envelope_text(sender, recipients))) == envelope_headers(
            sender,
            recipients,
        ),
{
    lemma_crlf();
    lemma_envelope_bytes(sender, recipients);
    let text = encode_utf8(envelope_text(sender, recipients));
    assert((text + seq![13u8, 10u8]).take(text.len() as int) =~= text);
    lemma_envelope_headers(sender, recipients);
}

proof fn lemma_envelope_bytes(sender: Seq<char>, recipients: Seq<Seq<char>>)
    ensures
        envelope_lines(sender, recipients) == encode_utf8(envelope_text(sender, recipients))
            + encode_utf8("\r\n"@),
    decreases recipients.len(),
{
    let from = "X-SMTP-Receiver-Envelope-From: "@;
    let to = "X-SMTP-Receiver-Envelope-To: "@;
    let crlf = "\r\n"@;
    let all = encode_utf8(envelope_text(sender, recipients)) + encode_utf8(crlf);
    if recipients.len() == 0 {
        lemma_encode_both(from, sender);
        assert(envelope_lines(sender, recipients) =~= all);
    } else {
        let before = envelope_text(sender, recipients.drop_last());
        lemma_envelope_bytes(sender, recipients.drop_last());
        lemma_encode_both(before, crlf);
        lemma_encode_both(before + crlf, to + recipients.last());
        lemma_encode_both(to, recipients.last());
        assert(envelope_lines(sender, recipients) =~= all);
    }
}

proof fn lemma_envelope_headers(sender: Seq<char>, recipients: Seq<Seq<char>>)
    requires
        is_one_line(sender),
        forall|i: int| 0 <= i < recipients.len() ==> is_one_line(#[trigger] recipients[i]),
    ensures
        headers_in_lines(lines(envelope_text(sender, recipients))) == envelope_headers(
            sender,
            recipients,
        ),
        envelope_text(sender, recipients).len() > 0,
        envelope_text(sender, recipients).last() != '\n',
    decreases recipients.len(),
{
    reveal_strlit("X-SMTP-Receiver-Envelope-From: ");
    reveal_strlit("X-SMTP-Receiver-Envelope-From");
    reveal_strlit("X-SMTP-Receiver-Envelope-To: ");
    reveal_strlit("X-SMTP-Receiver-Envelope-To");
    reveal_strlit(": ");
    let from = "X-SMTP-Receiver-Envelope-From"@;
    let to = "X-SMTP-Receiver-Envelope-To"@;
    assert("X-SMTP-Receiver-Envelope-From: "@ =~= from + ": "@);
    assert("X-SMTP-Receiver-Envelope-To: "@ =~= to + ": "@);
    let text = envelope_text(sender, recipients);
    let none: Seq<(Seq<char>, Seq<char>)> = Seq::empty();
    if recipients.len() == 0 {
        assert(is_one_line(text));
        lemma_find_char(text, '\n');
        assert(lines(text) =~= seq![text]);
        assert(lines(text).drop_last() =~= Seq::empty());
        assert(text == from + ": "@ + sender);
        lemma_header_on_line(none, from, sender);
        assert(headers_in_lines(Seq::empty()) =~= none);
        assert(headers_in_lines(lines(text)) == with_header_line(none, text));
        assert(none.push((from, trim(sender))) =~= envelope_headers(sender, recipients));
        assert(text.last() != '\n');
    } else {
        let fewer = recipients.drop_last();
        let line = "X-SMTP-Receiver-Envelope-To: "@ + recipients.last();
        assert forall|i: int| 0 <= i < fewer.len() implies is_one_line(#[trigger] fewer[i]) by {
            assert(fewer[i] == recipients[i]);
        }
        lemma_envelope_headers(sender, fewer);
        assert(is_one_line(recipients[recipients.len() - 1]));
        assert(is_one_line(line));
        lemma_one_more_line(envelope_text(sender, fewer), line);
        let before = lines(envelope_text(sender, fewer));
        assert(before.push(line).drop_last() =~= before);
        lemma_header_on_line(headers_in_lines(before), to, recipients.last());
        assert(text.last() == line.last());
    }
}

/// The sender stands on the first line of what is stored, each recipient on one more, then
/// an empty line, and then the data, byte for byte.
pub proof fn law_stored_lines(
    sender: Seq<char>,
    recipients: Seq<Seq<char>>,
    recipient: Seq<char>,
    data: Seq<u8>,
)
    ensures
        stored_content(sender, Seq::empty(), data) == encode_utf8(
            "X-SMTP-Receiver-Envelope-From: "@ + sender + seq!['\r', '\n'],
        ) + seq![13u8, 10u8] + data,
        stored_content(sender, recipients, data) == stored_content(
            sender,
            recipients,
            Seq::empty(),
        ) + data,
        stored_content(sender, recipients.push(recipient), data) == envelope_lines(
            sender,
            recipients,
        ) + encode_utf8("X-SMTP-Receiver-Envelope-To: "@ + recipient + seq!['\r', '\n']) + seq![
            13u8,
            10u8,
        ] + data,
{
    reveal_strlit("\r\n");
    lemma_crlf();
    let crlf = "\r\n"@;
    assert(crlf =~= seq!['\r', '\n']);
    let from = "X-SMTP-Receiver-Envelope-From: "@;
    let to = "X-SMTP-Receiver-Envelope-To: "@;
    lemma_encode_both(from, sender);
    lemma_encode_both(from + sender, crlf);
    lemma_encode_both(to, recipient);
    lemma_encode_both(to + recipient, crlf);
    assert(recipients.push(recipient).drop_last() =~= recipients);
    assert(stored_content(sender, Seq::empty(), data) =~= encode_utf8(from + sender + crlf) + seq![
        13u8,
        10u8,
    ] + data);
    assert(stored_content(sender, recipients, data) =~= stored_content(
        sender,
        recipients,
        Seq::empty(),
    ) + data);
    assert(stored_content(sender, recipients.push(recipient), data) =~= envelope_lines(
        sender,
        recipients,
    ) + encode_utf8(to + recipient + crlf) + seq![13u8, 10u8] + data);
}

/// The headers of an envelope are the sender's, and one for each recipient in their order;
/// they mark it as one, and a cleaned copy keeps them.
pub proof fn law_envelope_headers(sender: Seq<char>, recipients: Seq<Seq<char>>)
    ensures
        envelope_headers(sender, recipients).len() == recipients.len() + 1,
        envelope_headers(sender, recipients)[0] == (
            "X-SMTP-Receiver-Envelope-From"@,
            trim(sender),
        ),
        forall|i: int|
            0 <= i < recipients.len() ==> #[trigger] envelope_headers(sender, recipients)[i + 1] == (
                "X-SMTP-Receiver-Envelope-To"@,
                trim(recipients[i]),
            ),
        has_envelope(envelope_headers(sender, recipients)),
        keeps_header("X-SMTP-Receiver-Envelope-From"@),
        keeps_header("X-SMTP-Receiver-Envelope-To"@),
    decreases recipients.len(),
{
    lemma_envelope_names();
    let headers = envelope_headers(sender, recipients);
    if recipients.len() > 0 {
        let fewer = recipients.drop_last();
        law_envelope_headers(sender, fewer);
        let before = envelope_headers(sender, fewer);
        assert forall|i: int| 0 <= i < recipients.len() implies #[trigger] headers[i + 1] == (
            "X-SMTP-Receiver-Envelope-To"@,
            trim(recipients[i]),
        ) by {
            if i < fewer.len() {
                assert(headers[i + 1] == before[i + 1]);
                assert(fewer[i] == recipients[i]);
            }
        }
        assert(headers[0] == before[0]);
    }
    assert(starts_with(lower(headers[0].0), "x-smtp-receiver-"@));
}

proof fn lemma_envelope_names()
    ensures
        starts_with(lower("X-SMTP-Receiver-Envelope-From"@), "x-smtp-receiver-"@),
        keeps_header("X-SMTP-Receiver-Envelope-From"@),
        keeps_header("X-SMTP-Receiver-Envelope-To"@),
{
    reveal_strlit("X-SMTP-Receiver-Envelope-From");
    reveal_strlit("X-SMTP-Receiver-Envelope-To");
    reveal_strlit("x-smtp-receiver-");
    let from = "X-SMTP-Receiver-Envelope-From"@;
    let to = "X-SMTP-Receiver-Envelope-To"@;
    law_dropped_headers(from);
    law_dropped_headers(to);
    assert(lower(from)[0] == 'x' && lower(from)[1] == '-' && lower(from)[2] == 's');
    assert(lower(from)[3] == 'm' && lower(from)[4] == 't' && lower(from)[5] == 'p');
    assert(lower(to)[0] == 'x' && lower(to)[1] == '-' && lower(to)[2] == 's');
    assert(lower(to)[3] == 'm' && lower(to)[4] == 't' && lower(to)[5] == 'p');
    assert(lower(from).take(16) =~= "x-smtp-receiver-"@);
}

} // verus!
