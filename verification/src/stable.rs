//! Cleaning a cleaned copy of plain text: nothing changes any more.
use crate::bytes::{
    are_lines, headers_and_body, is_line, lemma_empty_line_ends_headers, lemma_lines_grow,
};
use crate::clean::{
    all_headers, assembled, cleaned_headers, cleaned_message, cleaned_parts, describes_content,
    law_cleaned_copy_keeps_other_headers, needs_boundary, part_blocks, parts_body, read_message,
    received_message, without_content_headers,
};
use crate::envelope::{
    envelope_headers, envelope_text, law_data_is_read_back, law_envelope_headers,
    law_envelope_is_read_back, stored_content,
};
use crate::headers::{
    attachment_like, first_value, has_envelope, header_block, header_line, header_text,
    headers_in_lines, headers_without, is_plain_header, keeps_header, kept_headers,
    law_dropped_headers, law_written_headers_are_read_back, media_type_of, with_header_line,
};
use crate::mime::{
    content_type_of, decoded_text, encoding_of, kept_leaf, llm_parts, llm_parts_in,
    multipart_boundary, multipart_parts, transfer_decoded, KeptPartView, TransferEncoding,
};
use crate::outside::utf8_lossy;
use crate::text::{
    contains, lemma_find_char, lemma_find_char_is, lemma_trim_end_is, lemma_trim_keeps,
    lemma_trim_start_is, lines, lower, occurs_at, same_ignoring_case, split, split_once,
    starts_with, trim,
};
use crate::utf8::{
    is_one_line, lemma_crlf, lemma_encode_both, lemma_last_ending_is_optional,
    lemma_lines_are_lines, lemma_no_line_feed, lemma_trim_stays_on_line,
};
use vstd::prelude::*;
use vstd::utf8::{
    decode_utf8, decode_utf8_encode_utf8, encode_utf8, encode_utf8_decode_utf8,
    encode_utf8_first_scalar, encode_utf8_valid_utf8, valid_utf8,
};

verus! {

/// Whether bytes that are UTF-8 are read as the text that they encode.
pub open spec fn is_read_exactly(bytes: Seq<u8>) -> bool {
    valid_utf8(bytes) ==> utf8_lossy(bytes) == decode_utf8(bytes)
}

/// Whether headers say that a message is an attachment.
pub open spec fn says_attachment(headers: Seq<(Seq<char>, Seq<char>)>) -> bool {
    first_value(headers, "content-disposition"@) matches Some(value) && (starts_with(
        lower(value),
        "attachment"@,
    ) || contains(lower(value), "filename="@))
}

/// The header that the cleaned copy of plain text has.
pub open spec fn plain_text_header() -> (Seq<char>, Seq<char>) {
    ("Content-Type"@, "text/plain; charset=utf-8"@)
}

// ---------------------------------------------------------------------------
// Headers that were read
// ---------------------------------------------------------------------------
/// Whether a header's name and value can be written on a line of their own.
spec fn is_written_plainly(header: (Seq<char>, Seq<char>)) -> bool {
    &&& header.0.len() > 0
    &&& trim(header.0) == header.0
    &&& is_one_line(header.0)
    &&& forall|i: int| 0 <= i < header.0.len() ==> #[trigger] header.0[i] != ':'
    &&& is_one_line(header.1)
}

proof fn lemma_read_headers(lines: Seq<Seq<char>>)
    requires
        forall|i: int| 0 <= i < lines.len() ==> is_one_line(#[trigger] lines[i]),
    ensures
        forall|i: int|
            0 <= i < headers_in_lines(lines).len() ==> is_written_plainly(
                #[trigger] headers_in_lines(lines)[i],
            ),
    decreases lines.len(),
{
    if lines.len() > 0 {
        let fewer = lines.drop_last();
        assert forall|i: int| 0 <= i < fewer.len() implies is_one_line(#[trigger] fewer[i]) by {
            assert(fewer[i] == lines[i]);
        }
        lemma_read_headers(fewer);
        let line = lines.last();
        assert(is_one_line(lines[lines.len() - 1]));
        let before = headers_in_lines(fewer);
        let after = with_header_line(before, line);
        lemma_trim_stays_on_line(line);
        if line.len() > 0 && (line[0] == ' ' || line[0] == '\t') {
            if before.len() > 0 {
                let (name, value) = before.last();
                assert(is_written_plainly(before[before.len() - 1]));
                let longer = value.push(' ') + trim(line);
                assert(is_one_line(longer));
                assert forall|i: int| 0 <= i < after.len() implies is_written_plainly(
                    #[trigger] after[i],
                ) by {
                    if i < before.len() - 1 {
                        assert(after[i] == before[i]);
                    } else {
                        assert(after[i] == (name, longer));
                    }
                }
            }
        } else {
            lemma_header_of_line(line);
            assert forall|i: int| 0 <= i < after.len() implies is_written_plainly(
                #[trigger] after[i],
            ) by {
                if i < before.len() {
                    assert(after[i] == before[i]);
                }
            }
        }
    }
}

proof fn lemma_header_of_line(line: Seq<char>)
    requires
        is_one_line(line),
    ensures
        split_once(line, ':') matches Some((name, value)) ==> (trim(name).len() > 0
            ==> is_written_plainly((trim(name), trim(value)))) && trim(trim(value)) == trim(value),
{
    if let Some((name, value)) = split_once(line, ':') {
        lemma_find_char(line, ':');
        assert(is_one_line(name));
        assert(is_one_line(value));
        lemma_trim_stays_on_line(name);
        lemma_trim_stays_on_line(value);
        lemma_trim_keeps(name, ':');
        let short = trim(name);
        assert forall|i: int| 0 <= i < short.len() implies #[trigger] short[i] != ':' by {
            assert(short.contains(short[i]));
        }
    }
}

/// Whether a line continues the header before it.
pub open spec fn is_continuation(line: Seq<char>) -> bool {
    line.len() > 0 && (line[0] == ' ' || line[0] == '\t')
}

/// Where no line continues the one before it, no value has white space around it.
pub proof fn law_unfolded_values_are_trimmed(lines: Seq<Seq<char>>, i: int)
    requires
        forall|k: int| 0 <= k < lines.len() ==> !is_continuation(#[trigger] lines[k]),
        0 <= i < headers_in_lines(lines).len(),
    ensures
        trim(headers_in_lines(lines)[i].1) == headers_in_lines(lines)[i].1,
    decreases lines.len(),
{
    if lines.len() > 0 {
        let fewer = lines.drop_last();
        let line = lines.last();
        assert(!is_continuation(lines[lines.len() - 1]));
        let before = headers_in_lines(fewer);
        if i < before.len() {
            assert forall|k: int| 0 <= k < fewer.len() implies !is_continuation(
                #[trigger] fewer[k],
            ) by {
                assert(fewer[k] == lines[k]);
            }
            law_unfolded_values_are_trimmed(fewer, i);
        } else if let Some((name, value)) = split_once(line, ':') {
            lemma_trim_stays_on_line(value);
        }
    }
}

// ---------------------------------------------------------------------------
// The copy
// ---------------------------------------------------------------------------
proof fn lemma_first_value_of_more(
    headers: Seq<(Seq<char>, Seq<char>)>,
    last: (Seq<char>, Seq<char>),
    name: Seq<char>,
)
    ensures
        first_value(headers.push(last), name) == match first_value(headers, name) {
            Some(value) => Some(value),
            None => if same_ignoring_case(last.0, name) {
                Some(last.1)
            } else {
                None
            },
        },
    decreases headers.len(),
{
    let more = headers.push(last);
    if headers.len() == 0 {
        assert(more.skip(1) =~= Seq::empty());
        assert(first_value(more.skip(1), name) is None);
    } else {
        assert(more.skip(1) =~= headers.skip(1).push(last));
        lemma_first_value_of_more(headers.skip(1), last, name);
    }
}

proof fn lemma_no_first_value(headers: Seq<(Seq<char>, Seq<char>)>, name: Seq<char>)
    requires
        forall|i: int|
            0 <= i < headers.len() ==> !same_ignoring_case((#[trigger] headers[i]).0, name),
    ensures
        first_value(headers, name) is None,
    decreases headers.len(),
{
    if headers.len() > 0 {
        let rest = headers.skip(1);
        assert forall|i: int| 0 <= i < rest.len() implies !same_ignoring_case(
            (#[trigger] rest[i]).0,
            name,
        ) by {
            assert(rest[i] == headers[i + 1]);
        }
        lemma_no_first_value(rest, name);
    }
}

proof fn lemma_filter_all(
    headers: Seq<(Seq<char>, Seq<char>)>,
    pred: spec_fn((Seq<char>, Seq<char>)) -> bool,
)
    requires
        forall|i: int| 0 <= i < headers.len() ==> pred(#[trigger] headers[i]),
    ensures
        headers.filter(pred) == headers,
    decreases headers.len(),
{
    reveal(Seq::filter);
    if headers.len() > 0 {
        let fewer = headers.drop_last();
        assert forall|i: int| 0 <= i < fewer.len() implies pred(#[trigger] fewer[i]) by {
            assert(fewer[i] == headers[i]);
        }
        lemma_filter_all(fewer, pred);
        assert(pred(headers[headers.len() - 1]));
        assert(fewer.push(headers.last()) =~= headers);
    }
}

/// Whether headers are those of a cleaned copy: written plainly, kept, and none of
/// them describes the content.
spec fn are_cleaned(headers: Seq<(Seq<char>, Seq<char>)>) -> bool {
    forall|i: int|
        0 <= i < headers.len() ==> is_plain_header(#[trigger] headers[i]) && keeps_header(
            headers[i].0,
        ) && !describes_content(headers[i].0)
}

proof fn lemma_plain_text_header()
    ensures
        ({
            let header = plain_text_header();
            &&& is_plain_header(header)
            &&& keeps_header(header.0)
            &&& same_ignoring_case(header.0, "content-type"@)
            &&& !same_ignoring_case(header.0, "content-transfer-encoding"@)
            &&& !same_ignoring_case(header.0, "content-disposition"@)
            &&& !starts_with(lower(header.0), "x-smtp-receiver-"@)
            &&& header.1.last() != '\n'
        }),
{
    reveal_strlit("Content-Type");
    reveal_strlit("text/plain; charset=utf-8");
    reveal_strlit("content-type");
    reveal_strlit("content-transfer-encoding");
    reveal_strlit("content-disposition");
    reveal_strlit("x-smtp-receiver-");
    reveal_strlit("arc-");
    reveal_strlit("dkim");
    reveal_strlit("x-");
    let (name, value) = plain_text_header();
    lemma_trim_start_is(name, 0);
    lemma_trim_end_is(name, name.len() as int);
    assert(name.skip(0) =~= name);
    assert(name.take(name.len() as int) =~= name);
    lemma_trim_start_is(value, 0);
    lemma_trim_end_is(value, value.len() as int);
    assert(value.skip(0) =~= value);
    assert(value.take(value.len() as int) =~= value);
    assert(lower(name) =~= "content-type"@);
    assert(lower("content-type"@) =~= "content-type"@);
    assert(lower(name).len() != lower("content-transfer-encoding"@).len());
    assert(lower(name).len() != lower("content-disposition"@).len());
    let l = lower(name);
    assert(l[0] == 'c');
    assert(l.take(4)[0] == 'c');
    assert(l.take(2)[0] == 'c');
    assert("arc-"@[0] == 'a');
    assert("dkim"@[0] == 'd');
    assert("x-"@[0] == 'x');
}

/// The content type of plain text is plain text, and names no file.
proof fn lemma_plain_text_type()
    ensures
        ({
            let value = "text/plain; charset=utf-8"@;
            &&& media_type_of(value) == "text/plain"@
            &&& !contains(lower(value), "name="@)
            &&& !starts_with("text/plain"@, "multipart/"@)
            &&& starts_with("text/plain"@, "text/"@)
        }),
{
    reveal_strlit("text/plain; charset=utf-8");
    reveal_strlit("text/plain");
    reveal_strlit("multipart/");
    reveal_strlit("text/");
    reveal_strlit("name=");
    let value = "text/plain; charset=utf-8"@;
    let media = "text/plain"@;
    lemma_find_char_is(value, ';', 10);
    assert(value.take(10) =~= media);
    assert(split(value, ';')[0] == media);
    lemma_trim_start_is(media, 0);
    lemma_trim_end_is(media, media.len() as int);
    assert(media.skip(0) =~= media);
    assert(media.take(media.len() as int) =~= media);
    assert(lower(media) =~= media);
    assert(lower(value) =~= value);
    assert forall|i: int| !occurs_at(value, "name="@, i) by {
        if occurs_at(value, "name="@, i) {
            let found = value.subrange(i, i + 5);
            assert(found[0] == 'n');
            assert(found[1] == 'a');
            assert(value[i] == 'n');
            assert(value[i + 1] == 'a');
            assert(i == 9);
        }
    }
    assert(media.take(10)[0] == 't');
    assert("multipart/"@[0] == 'm');
    assert(media.take(5) =~= "text/"@);
}

proof fn lemma_header_is_line(header: (Seq<char>, Seq<char>))
    requires
        is_plain_header(header),
    ensures
        is_line(header_line(header)),
{
    reveal_strlit(": ");
    lemma_crlf();
    lemma_no_line_feed(header.0);
    lemma_no_line_feed(header.1);
    lemma_no_line_feed(": "@);
    let line = header_line(header);
    let a = encode_utf8(header.0);
    let b = encode_utf8(": "@);
    let c = encode_utf8(header.1);
    encode_utf8_first_scalar(header.0);
    assert(a.len() > 0);
    assert(line =~= a + b + c + seq![13u8, 10u8]);
}

proof fn lemma_block_is_lines(headers: Seq<(Seq<char>, Seq<char>)>)
    requires
        headers.len() > 0,
        forall|i: int|
            0 <= i < headers.len() ==> is_plain_header(#[trigger] headers[i]) && keeps_header(
                headers[i].0,
            ),
    ensures
        are_lines(header_block(headers)),
    decreases headers.len(),
{
    let fewer = headers.drop_last();
    assert forall|i: int| 0 <= i < fewer.len() implies is_plain_header(#[trigger] fewer[i])
        && keeps_header(fewer[i].0) by {
        assert(fewer[i] == headers[i]);
    }
    assert(is_plain_header(headers[headers.len() - 1]));
    if fewer.len() > 0 {
        lemma_block_is_lines(fewer);
    }
    lemma_header_is_line(headers.last());
    lemma_lines_grow(header_block(fewer), header_line(headers.last()));
}

proof fn lemma_text_of_more(
    headers: Seq<(Seq<char>, Seq<char>)>,
    last: (Seq<char>, Seq<char>),
)
    ensures
        header_text(headers.push(last)) == header_text(headers) + (last.0 + ": "@ + last.1)
            + "\r\n"@,
    decreases headers.len(),
{
    let more = headers.push(last);
    if headers.len() == 0 {
        assert(more.skip(1) =~= Seq::empty());
        assert(header_text(more.skip(1)) =~= Seq::empty());
        assert(header_text(more) =~= header_text(headers) + (last.0 + ": "@ + last.1) + "\r\n"@);
    } else {
        assert(more.skip(1) =~= headers.skip(1).push(last));
        lemma_text_of_more(headers.skip(1), last);
        assert(header_text(more) =~= header_text(headers) + (last.0 + ": "@ + last.1) + "\r\n"@);
    }
}

/// What stands in a copy of plain text after its other headers.
proof fn lemma_copy_shape()
    ensures
        encode_utf8("Content-Type: text/plain; charset=utf-8\r\n\r\n"@) == header_line(
            plain_text_header(),
        ) + seq![13u8, 10u8],
{
    reveal_strlit("Content-Type: text/plain; charset=utf-8\r\n\r\n");
    reveal_strlit("Content-Type");
    reveal_strlit(": ");
    reveal_strlit("text/plain; charset=utf-8");
    reveal_strlit("\r\n");
    let (name, value) = plain_text_header();
    let crlf = "\r\n"@;
    lemma_crlf();
    lemma_encode_both(name, ": "@);
    lemma_encode_both(name + ": "@, value);
    lemma_encode_both(name + ": "@ + value, crlf);
    lemma_encode_both(name + ": "@ + value + crlf, crlf);
    assert("Content-Type: text/plain; charset=utf-8\r\n\r\n"@ =~= name + ": "@ + value + crlf
        + crlf);
}

/// A copy of plain text is read as its headers, the one that it has for its content,
/// and its text.
proof fn lemma_copy_is_read_back(headers: Seq<(Seq<char>, Seq<char>)>, body: Seq<u8>)
    requires
        are_cleaned(headers),
    ensures
        ({
            let copy = header_block(headers) + encode_utf8(
                "Content-Type: text/plain; charset=utf-8\r\n\r\n"@,
            ) + body;
            let (header_bytes, found) = headers_and_body(copy);
            &&& found == body
            &&& is_read_exactly(header_bytes) ==> read_message(copy) == (
                headers.push(plain_text_header()),
                body,
            )
        }),
{
    let header = plain_text_header();
    let all = headers.push(header);
    let copy = header_block(headers) + encode_utf8(
        "Content-Type: text/plain; charset=utf-8\r\n\r\n"@,
    ) + body;
    let block = header_block(all);
    lemma_plain_text_header();
    lemma_copy_shape();
    assert forall|i: int| 0 <= i < all.len() implies is_plain_header(#[trigger] all[i])
        && keeps_header(all[i].0) by {
        if i < headers.len() {
            assert(all[i] == headers[i]);
        }
    }
    assert(all.drop_last() =~= headers);
    assert(block == header_block(headers) + header_line(header));
    assert(copy =~= block + seq![13u8, 10u8] + body);
    lemma_block_is_lines(all);
    lemma_empty_line_ends_headers(block, body);
    law_written_headers_are_read_back(all);
    lemma_text_of_more(headers, header);
    let line = header.0 + ": "@ + header.1;
    let text = header_text(headers) + line;
    lemma_crlf();
    lemma_encode_both(text, "\r\n"@);
    assert(block.take(block.len() - 2) =~= encode_utf8(text));
    reveal_strlit("text/plain; charset=utf-8");
    assert(text.last() == header.1.last());
    lemma_last_ending_is_optional(text);
    encode_utf8_valid_utf8(text);
    encode_utf8_decode_utf8(text);
}

/// What is kept of a copy of plain text is its text.
proof fn lemma_copy_keeps_its_text(headers: Seq<(Seq<char>, Seq<char>)>, body: Seq<u8>)
    requires
        are_cleaned(headers),
        !says_attachment(headers),
        valid_utf8(body),
        is_read_exactly(body),
    ensures
        ({
            let parts = llm_parts(headers.push(plain_text_header()), body);
            parts.len() == 1 && !parts[0].is_attachment && parts[0].body == body
        }),
{
    let header = plain_text_header();
    let all = headers.push(header);
    lemma_plain_text_header();
    lemma_plain_text_type();
    assert forall|i: int| 0 <= i < headers.len() implies !same_ignoring_case(
        (#[trigger] headers[i]).0,
        "content-type"@,
    ) && !same_ignoring_case(headers[i].0, "content-transfer-encoding"@) by {
        assert(!describes_content(headers[i].0));
    }
    lemma_no_first_value(headers, "content-type"@);
    lemma_no_first_value(headers, "content-transfer-encoding"@);
    lemma_first_value_of_more(headers, header, "content-type"@);
    lemma_first_value_of_more(headers, header, "content-transfer-encoding"@);
    lemma_first_value_of_more(headers, header, "content-disposition"@);
    assert(content_type_of(all) == header.1);
    assert(multipart_boundary(all) is None);
    assert(!attachment_like(all, "text/plain"@));
    assert(encoding_of(all) == TransferEncoding::Identity);
    decode_utf8_encode_utf8(body);
    assert(decoded_text(all, body) == body);
    assert(llm_parts(all, body) == kept_leaf(all, body));
}

/// A copy's own header for its content is taken out again.
proof fn lemma_copy_headers(headers: Seq<(Seq<char>, Seq<char>)>)
    requires
        are_cleaned(headers),
    ensures
        without_content_headers(kept_headers(headers.push(plain_text_header()))) == headers,
{
    let header = plain_text_header();
    let all = headers.push(header);
    lemma_plain_text_header();
    let keep = |h: (Seq<char>, Seq<char>)| keeps_header(h.0);
    assert forall|i: int| 0 <= i < all.len() implies keep(#[trigger] all[i]) by {
        if i < headers.len() {
            assert(all[i] == headers[i]);
        }
    }
    lemma_filter_all(all, keep);
    let first = |h: (Seq<char>, Seq<char>)| !same_ignoring_case(h.0, "content-type"@);
    let second = |h: (Seq<char>, Seq<char>)|
        !same_ignoring_case(h.0, "content-transfer-encoding"@);
    let third = |h: (Seq<char>, Seq<char>)| !same_ignoring_case(h.0, "mime-version"@);
    assert forall|i: int| 0 <= i < headers.len() implies first(#[trigger] headers[i]) && second(
        headers[i],
    ) && third(headers[i]) by {
        assert(!describes_content(headers[i].0));
    }
    lemma_filter_all(headers, first);
    lemma_filter_all(headers, second);
    lemma_filter_all(headers, third);
    assert(headers_without(all, "content-type"@) == headers) by {
        reveal(Seq::filter);
        assert(all.drop_last() =~= headers);
        assert(all.last() == header);
        assert(all.filter(first) == headers.filter(first));
    }
}

/// The text of every kept text is UTF-8.
proof fn lemma_kept_text_is_utf8(headers: Seq<(Seq<char>, Seq<char>)>, body: Seq<u8>)
    ensures
        forall|i: int|
            0 <= i < llm_parts(headers, body).len() && !llm_parts(headers, body)[i].is_attachment
                ==> valid_utf8((#[trigger] llm_parts(headers, body)[i]).body),
    decreases body.len(), 1nat, 0nat,
{
    match multipart_boundary(headers) {
        Some(boundary) => {
            let parts = multipart_parts(body, boundary);
            lemma_kept_texts_are_utf8(parts, body.len());
            assert(llm_parts(headers, body) == llm_parts_in(parts, body.len()));
        },
        None => {
            assert(llm_parts(headers, body) == kept_leaf(headers, body));
            let decoded = transfer_decoded(headers, body);
            encode_utf8_valid_utf8(utf8_lossy(decoded));
        },
    }
}

proof fn lemma_kept_texts_are_utf8(parts: Seq<Seq<u8>>, bound: nat)
    ensures
        forall|i: int|
            0 <= i < llm_parts_in(parts, bound).len() && !llm_parts_in(
                parts,
                bound,
            )[i].is_attachment ==> valid_utf8((#[trigger] llm_parts_in(parts, bound)[i]).body),
    decreases bound, 0nat, parts.len(),
{
    if parts.len() > 0 {
        lemma_kept_texts_are_utf8(parts.drop_last(), bound);
        let rest = llm_parts_in(parts.drop_last(), bound);
        let (headers, body) = read_message(parts.last());
        if body.len() < bound {
            let more = llm_parts(headers, body);
            lemma_kept_text_is_utf8(headers, body);
            assert forall|i: int|
                0 <= i < llm_parts_in(parts, bound).len() && !llm_parts_in(
                    parts,
                    bound,
                )[i].is_attachment implies valid_utf8(
                (#[trigger] llm_parts_in(parts, bound)[i]).body,
            ) by {
                if i < rest.len() {
                    assert(llm_parts_in(parts, bound)[i] == rest[i]);
                } else {
                    assert(llm_parts_in(parts, bound)[i] == more[i - rest.len()]);
                }
            }
        }
    }
}

/// The headers of a cleaned copy are cleaned.
proof fn lemma_cleaned_headers(message: Seq<u8>)
    requires
        !has_envelope(read_message(message).0),
        forall|i: int|
            0 <= i < cleaned_headers(message).len() ==> trim(
                (#[trigger] cleaned_headers(message)[i]).1,
            ) == cleaned_headers(message)[i].1,
    ensures
        are_cleaned(cleaned_headers(message)),
        !has_envelope(cleaned_headers(message).push(plain_text_header())),
{
    let headers = cleaned_headers(message);
    let all = read_message(message).0;
    let text = utf8_lossy(headers_and_body(message).0);
    lemma_lines_are_lines(text);
    lemma_read_headers(lines(text));
    lemma_plain_text_header();
    assert forall|i: int| 0 <= i < headers.len() implies is_plain_header(#[trigger] headers[i])
        && keeps_header(headers[i].0) && !describes_content(headers[i].0) && all.contains(
        headers[i],
    ) by {
        assert(headers.contains(headers[i]));
        law_cleaned_copy_keeps_other_headers(message, headers[i]);
        let k = choose|k: int| 0 <= k < all.len() && all[k] == headers[i];
        assert(is_written_plainly(all[k]));
    }
    let more = headers.push(plain_text_header());
    assert forall|i: int| 0 <= i < more.len() implies !starts_with(
        lower((#[trigger] more[i]).0),
        "x-smtp-receiver-"@,
    ) by {
        if i < headers.len() {
            assert(more[i] == headers[i]);
            assert(all.contains(headers[i]));
            let k = choose|k: int| 0 <= k < all.len() && all[k] == headers[i];
            assert(!starts_with(lower(all[k].0), "x-smtp-receiver-"@));
        }
    }
}

// ---------------------------------------------------------------------------
// Laws
// ---------------------------------------------------------------------------
/// Cleaning the cleaned copy of a message that needs no boundary changes nothing. Left
/// out are an envelope, whose body would be read as a message of its own; a copy that
/// still says that it is an attachment; and a value with white space around it, as
/// some continuation lines leave it, which would be lost. That the copy is read as the
/// text that it encodes is a premise.
pub proof fn law_cleaning_twice_changes_nothing(message: Seq<u8>, id: u64, again: u64)
    requires
        !has_envelope(read_message(message).0),
        !needs_boundary(message),
        !says_attachment(cleaned_headers(message)),
        forall|i: int|
            0 <= i < cleaned_headers(message).len() ==> trim(
                (#[trigger] cleaned_headers(message)[i]).1,
            ) == cleaned_headers(message)[i].1,
        is_read_exactly(headers_and_body(cleaned_message(message, id)).0),
        is_read_exactly(headers_and_body(cleaned_message(message, id)).1),
    ensures
        cleaned_message(cleaned_message(message, id), again) == cleaned_message(message, id),
{
    let headers = cleaned_headers(message);
    let parts = cleaned_parts(message);
    let received = received_message(message);
    let copy = cleaned_message(message, id);
    let body = if parts.len() == 0 {
        Seq::<u8>::empty()
    } else {
        parts[0].body
    };
    lemma_cleaned_headers(message);
    lemma_kept_text_is_utf8(received.0, received.1);
    assert(valid_utf8(body));
    assert(copy == header_block(headers) + encode_utf8(
        "Content-Type: text/plain; charset=utf-8\r\n\r\n"@,
    ) + body);
    lemma_copy_is_read_back(headers, body);
    lemma_copy_headers(headers);
    lemma_copy_keeps_its_text(headers, body);
    assert(read_message(copy) == (headers.push(plain_text_header()), body));
    assert(cleaned_headers(copy) == headers);
    assert(received_message(copy) == read_message(copy));
}

/// The same for a message without continuation lines and without a header on its
/// disposition.
pub proof fn law_cleaning_unfolded_text_twice_changes_nothing(
    message: Seq<u8>,
    id: u64,
    again: u64,
)
    requires
        !has_envelope(read_message(message).0),
        !needs_boundary(message),
        first_value(read_message(message).0, "content-disposition"@) is None,
        forall|i: int|
            0 <= i < lines(utf8_lossy(headers_and_body(message).0)).len() ==> !is_continuation(
                #[trigger] lines(utf8_lossy(headers_and_body(message).0))[i],
            ),
        is_read_exactly(headers_and_body(cleaned_message(message, id)).0),
        is_read_exactly(headers_and_body(cleaned_message(message, id)).1),
    ensures
        cleaned_message(cleaned_message(message, id), again) == cleaned_message(message, id),
{
    let headers = cleaned_headers(message);
    let all = read_message(message).0;
    let text = utf8_lossy(headers_and_body(message).0);
    lemma_first_value_is_none(all, "content-disposition"@);
    assert forall|i: int| 0 <= i < headers.len() implies trim((#[trigger] headers[i]).1)
        == headers[i].1 && !same_ignoring_case(headers[i].0, "content-disposition"@) by {
        assert(headers.contains(headers[i]));
        law_cleaned_copy_keeps_other_headers(message, headers[i]);
        let k = choose|k: int| 0 <= k < all.len() && all[k] == headers[i];
        law_unfolded_values_are_trimmed(lines(text), k);
        assert(!same_ignoring_case(all[k].0, "content-disposition"@));
    }
    lemma_no_first_value(headers, "content-disposition"@);
    law_cleaning_twice_changes_nothing(message, id, again);
}

proof fn lemma_first_value_is_none(headers: Seq<(Seq<char>, Seq<char>)>, name: Seq<char>)
    requires
        first_value(headers, name) is None,
    ensures
        forall|i: int|
            0 <= i < headers.len() ==> !same_ignoring_case((#[trigger] headers[i]).0, name),
    decreases headers.len(),
{
    if headers.len() > 0 {
        let rest = headers.skip(1);
        lemma_first_value_is_none(rest, name);
        assert forall|i: int| 0 <= i < headers.len() implies !same_ignoring_case(
            (#[trigger] headers[i]).0,
            name,
        ) by {
            if i > 0 {
                assert(headers[i] == rest[i - 1]);
            }
        }
    }
}

/// Headers that are written before an empty line and a body are read back, and so is the
/// body.
proof fn lemma_message_is_read_back(
    headers: Seq<(Seq<char>, Seq<char>)>,
    last: (Seq<char>, Seq<char>),
    body: Seq<u8>,
)
    requires
        forall|i: int|
            0 <= i < headers.len() ==> is_plain_header(#[trigger] headers[i]) && keeps_header(
                headers[i].0,
            ),
        is_plain_header(last),
        keeps_header(last.0),
        last.1.len() > 0,
    ensures
        ({
            let message = header_block(headers.push(last)) + seq![13u8, 10u8] + body;
            let (header_bytes, found) = headers_and_body(message);
            &&& found == body
            &&& is_read_exactly(header_bytes) ==> read_message(message) == (
                headers.push(last),
                body,
            )
        }),
{
    let all = headers.push(last);
    let block = header_block(all);
    let message = block + seq![13u8, 10u8] + body;
    assert forall|i: int| 0 <= i < all.len() implies is_plain_header(#[trigger] all[i])
        && keeps_header(all[i].0) by {
        if i < headers.len() {
            assert(all[i] == headers[i]);
        }
    }
    lemma_block_is_lines(all);
    lemma_empty_line_ends_headers(block, body);
    law_written_headers_are_read_back(all);
    lemma_text_of_more(headers, last);
    let line = last.0 + ": "@ + last.1;
    let text = header_text(headers) + line;
    lemma_crlf();
    lemma_encode_both(text, "\r\n"@);
    assert(block.take(block.len() - 2) =~= encode_utf8(text));
    assert(text.last() == last.1.last());
    assert(last.1[last.1.len() - 1] != '\n');
    lemma_last_ending_is_optional(text);
    encode_utf8_valid_utf8(text);
    encode_utf8_decode_utf8(text);
}

/// A copy with one text, or with nothing, is read as its headers, a content type of plain
/// text as UTF-8, and that text.
pub proof fn law_copy_of_text_is_read_back(
    headers: Seq<(Seq<char>, Seq<char>)>,
    parts: Seq<KeptPartView>,
    boundary: Seq<char>,
)
    requires
        forall|i: int|
            0 <= i < headers.len() ==> is_plain_header(#[trigger] headers[i]) && keeps_header(
                headers[i].0,
            ),
        parts.len() == 0 || (parts.len() == 1 && !parts[0].is_attachment),
    ensures
        ({
            let copy = assembled(headers, parts, boundary);
            let (header_bytes, body) = headers_and_body(copy);
            &&& parts.len() == 0 ==> body.len() == 0
            &&& parts.len() == 1 ==> body == parts[0].body
            &&& is_read_exactly(header_bytes) ==> read_message(copy).0 == headers.push(
                ("Content-Type"@, "text/plain; charset=utf-8"@),
            )
        }),
{
    let last = plain_text_header();
    let body = if parts.len() == 0 {
        Seq::<u8>::empty()
    } else {
        parts[0].body
    };
    lemma_plain_text_header();
    lemma_copy_shape();
    reveal_strlit("text/plain; charset=utf-8");
    lemma_message_is_read_back(headers, last, body);
    assert(headers.push(last).drop_last() =~= headers);
    assert(assembled(headers, parts, boundary) =~= header_block(headers.push(last)) + seq![
        13u8,
        10u8,
    ] + body);
}

/// A copy with parts is read as its headers, the version of MIME, a multipart content type
/// that names the boundary in quotes, and the parts between lines with that boundary.
pub proof fn law_copy_with_parts_is_read_back(
    headers: Seq<(Seq<char>, Seq<char>)>,
    parts: Seq<KeptPartView>,
    boundary: Seq<char>,
)
    requires
        forall|i: int|
            0 <= i < headers.len() ==> is_plain_header(#[trigger] headers[i]) && keeps_header(
                headers[i].0,
            ),
        parts.len() >= 2 || (parts.len() == 1 && parts[0].is_attachment),
        is_one_line(boundary),
    ensures
        ({
            let copy = assembled(headers, parts, boundary);
            let (header_bytes, body) = headers_and_body(copy);
            &&& body == parts_body(parts, boundary)
            &&& is_read_exactly(header_bytes) ==> read_message(copy).0 == headers.push(
                ("MIME-Version"@, "1.0"@),
            ).push(("Content-Type"@, "multipart/mixed; boundary=\""@ + boundary + "\""@))
        }),
{
    let version = ("MIME-Version"@, "1.0"@);
    let last = ("Content-Type"@, "multipart/mixed; boundary=\""@ + boundary + "\""@);
    let some = headers.push(version);
    let body = parts_body(parts, boundary);
    lemma_version_header();
    lemma_multipart_header(boundary);
    assert forall|i: int| 0 <= i < some.len() implies is_plain_header(#[trigger] some[i])
        && keeps_header(some[i].0) by {
        if i < headers.len() {
            assert(some[i] == headers[i]);
        }
    }
    lemma_message_is_read_back(some, last, body);
    lemma_multipart_copy(headers, parts, boundary);
}

proof fn lemma_multipart_copy(
    headers: Seq<(Seq<char>, Seq<char>)>,
    parts: Seq<KeptPartView>,
    boundary: Seq<char>,
)
    requires
        parts.len() >= 2 || (parts.len() == 1 && parts[0].is_attachment),
        is_one_line(boundary),
    ensures
        assembled(headers, parts, boundary) == header_block(
            headers.push(("MIME-Version"@, "1.0"@)).push(
                ("Content-Type"@, "multipart/mixed; boundary=\""@ + boundary + "\""@),
            ),
        ) + seq![13u8, 10u8] + parts_body(parts, boundary),
{
    let version = ("MIME-Version"@, "1.0"@);
    let last = ("Content-Type"@, "multipart/mixed; boundary=\""@ + boundary + "\""@);
    let some = headers.push(version);
    let all = some.push(last);
    lemma_version_header();
    lemma_multipart_header(boundary);
    lemma_multipart_shape(boundary);
    assert(some.drop_last() =~= headers);
    assert(some.last() == version);
    assert(all.drop_last() =~= some);
    assert(all.last() == last);
    let block = header_block(headers);
    let one = header_line(version);
    let two = header_line(last);
    let intro = encode_utf8("MIME-Version: 1.0\r\nContent-Type: multipart/mixed; boundary=\""@);
    let named = encode_utf8(boundary);
    let close = encode_utf8("\"\r\n\r\n"@);
    let blocks = part_blocks(parts, boundary);
    let dashes = encode_utf8("--"@);
    let tail = encode_utf8("--\r\n"@);
    assert(header_block(some) == block + one);
    assert(header_block(all) == block + one + two);
    assert(block + intro + named + close + blocks + dashes + named + tail =~= block + (intro + named
        + close) + (blocks + dashes + named + tail));
    assert(block + (one + two + seq![13u8, 10u8]) =~= block + one + two + seq![13u8, 10u8]);
}

proof fn lemma_version_header()
    ensures
        is_plain_header(("MIME-Version"@, "1.0"@)),
        keeps_header("MIME-Version"@),
{
    reveal_strlit("MIME-Version");
    reveal_strlit("1.0");
    let name = "MIME-Version"@;
    let value = "1.0"@;
    law_dropped_headers(name);
    assert(lower(name)[0] == 'm');
    lemma_trim_start_is(name, 0);
    lemma_trim_end_is(name, name.len() as int);
    assert(name.skip(0) =~= name);
    assert(name.take(name.len() as int) =~= name);
    lemma_trim_start_is(value, 0);
    lemma_trim_end_is(value, value.len() as int);
    assert(value.skip(0) =~= value);
    assert(value.take(value.len() as int) =~= value);
}

proof fn lemma_multipart_header(boundary: Seq<char>)
    requires
        is_one_line(boundary),
    ensures
        ({
            let value = "multipart/mixed; boundary=\""@ + boundary + "\""@;
            is_plain_header(("Content-Type"@, value)) && value.len() > 0
        }),
        keeps_header("Content-Type"@),
{
    lemma_plain_text_header();
    reveal_strlit("multipart/mixed; boundary=\"");
    reveal_strlit("\"");
    let start = "multipart/mixed; boundary=\""@;
    let value = start + boundary + "\""@;
    assert(value[0] == 'm');
    assert(value.last() == '"');
    lemma_trim_start_is(value, 0);
    lemma_trim_end_is(value, value.len() as int);
    assert(value.skip(0) =~= value);
    assert(value.take(value.len() as int) =~= value);
    assert forall|i: int| 0 <= i < value.len() implies #[trigger] value[i] != '\n' by {
        if i < start.len() {
            assert(value[i] == start[i]);
        } else if i < start.len() + boundary.len() {
            assert(value[i] == boundary[i - start.len()]);
        }
    }
}

proof fn lemma_multipart_shape(boundary: Seq<char>)
    ensures
        encode_utf8("MIME-Version: 1.0\r\nContent-Type: multipart/mixed; boundary=\""@)
            + encode_utf8(boundary) + encode_utf8("\"\r\n\r\n"@) == header_line(
            ("MIME-Version"@, "1.0"@),
        ) + header_line(
            ("Content-Type"@, "multipart/mixed; boundary=\""@ + boundary + "\""@),
        ) + seq![13u8, 10u8],
{
    let long = "MIME-Version: 1.0\r\nContent-Type: multipart/mixed; boundary=\""@;
    let start = "multipart/mixed; boundary=\""@;
    let crlf = "\r\n"@;
    let first = "MIME-Version"@ + ": "@ + "1.0"@ + crlf;
    let second = "Content-Type"@ + ": "@;
    reveal_strlit("MIME-Version: 1.0\r\nContent-Type: multipart/mixed; boundary=\"");
    reveal_strlit("multipart/mixed; boundary=\"");
    reveal_strlit("MIME-Version");
    reveal_strlit("1.0");
    reveal_strlit("Content-Type");
    reveal_strlit(": ");
    reveal_strlit("\r\n");
    reveal_strlit("\"");
    reveal_strlit("\"\r\n\r\n");
    lemma_crlf();
    assert(long =~= first + second + start);
    assert("\"\r\n\r\n"@ =~= "\""@ + crlf + crlf);
    lemma_encode_both(first, second);
    lemma_encode_both(first + second, start);
    lemma_encode_both("\""@, crlf);
    lemma_encode_both("\""@ + crlf, crlf);
    lemma_encode_both("MIME-Version"@, ": "@);
    lemma_encode_both("MIME-Version"@ + ": "@, "1.0"@);
    lemma_encode_both("MIME-Version"@ + ": "@ + "1.0"@, crlf);
    lemma_encode_both("Content-Type"@, ": "@);
    lemma_encode_both(start, boundary);
    lemma_encode_both(start + boundary, "\""@);
    let a = encode_utf8(first);
    let b = encode_utf8(second);
    let c = encode_utf8(start);
    let d = encode_utf8(boundary);
    let e = encode_utf8("\""@);
    assert(a + b + c + d + (e + seq![13u8, 10u8] + seq![13u8, 10u8]) =~= a + (b + (c + d + e)
        + seq![13u8, 10u8]) + seq![13u8, 10u8]);
}

/// A stored message is opened again where it is cleaned: what is kept of it is what is kept
/// of the data that was received, and its headers are the envelope's and those of the data.
pub proof fn law_stored_message_is_opened(
    sender: Seq<char>,
    recipients: Seq<Seq<char>>,
    data: Seq<u8>,
)
    requires
        is_one_line(sender),
        forall|i: int| 0 <= i < recipients.len() ==> is_one_line(#[trigger] recipients[i]),
        is_read_exactly(headers_and_body(stored_content(sender, recipients, data)).0),
    ensures
        ({
            let stored = stored_content(sender, recipients, data);
            let (headers, body) = read_message(data);
            &&& cleaned_parts(stored) == llm_parts(headers, body)
            &&& all_headers(stored) == envelope_headers(sender, recipients) + headers
        }),
{
    let stored = stored_content(sender, recipients, data);
    let text = envelope_text(sender, recipients);
    law_data_is_read_back(sender, recipients, data);
    law_envelope_is_read_back(sender, recipients);
    law_envelope_headers(sender, recipients);
    encode_utf8_valid_utf8(text);
    encode_utf8_decode_utf8(text);
    assert(read_message(stored) == (envelope_headers(sender, recipients), data));
}

} // verus!
