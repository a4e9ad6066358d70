//! The cleaned copy of a message: fewer headers, plain text and attachments.
use crate::bytes::{
    append_bytes, append_text, first_line_len, headers_and_body, law_line_endings,
    lemma_first_line_len,
    lemma_first_line_len_is, line_ending_len, without_line_ending,
};
use crate::headers::{
    attachment_headers, attachment_like, filter_headers, has_envelope, has_smtp_receiver_envelope,
    header_block, headers_without, keeps_header, kept_headers, media_type_of, parsed_headers,
    remove_header, write_headers,
};
use crate::ids::{next_id, IdSource};
use crate::mime::{
    closing_marker, collect_llm_parts, content_type_of, kept_leaf, kept_views, lemma_body_len,
    lemma_parts_are_shorter, line_end, llm_parts, llm_parts_in, multipart_boundary, multipart_parts,
    opening_marker, parse_message_part, part_before, parts_from, KeptPart, KeptPartView,
};
use crate::text::{
    decimal, decimal_string, lemma_decimal_digits, lemma_decimal_injective, lower, pair_texts,
    same_ignoring_case, starts_with,
};
use crate::utf8::{
    is_one_line, lemma_crlf, lemma_encode_both, lemma_no_line_feed, lemma_small_scalar,
};
use vstd::prelude::*;
use vstd::utf8::encode_utf8;

verus! {

/// The headers and the body of a message.
pub open spec fn read_message(message: Seq<u8>) -> (Seq<(Seq<char>, Seq<char>)>, Seq<u8>) {
    let (header_bytes, body) = headers_and_body(message);
    (parsed_headers(header_bytes), body)
}

/// The message that was received: what an envelope encloses, or the message
/// itself if it has no envelope.
pub open spec fn received_message(message: Seq<u8>) -> (Seq<(Seq<char>, Seq<char>)>, Seq<u8>) {
    let root = read_message(message);
    if has_envelope(root.0) {
        read_message(root.1)
    } else {
        root
    }
}

/// The headers without those that describe the content.
pub open spec fn without_content_headers(headers: Seq<(Seq<char>, Seq<char>)>) -> Seq<
    (Seq<char>, Seq<char>),
> {
    headers_without(
        headers_without(
            headers_without(headers, "content-type"@),
            "content-transfer-encoding"@,
        ),
        "mime-version"@,
    )
}

/// The headers of the cleaned copy: those of the envelope and of the received
/// message that are kept, without those that describe the content.
pub open spec fn cleaned_headers(message: Seq<u8>) -> Seq<(Seq<char>, Seq<char>)> {
    let root = read_message(message);
    without_content_headers(
        if has_envelope(root.0) {
            kept_headers(root.0) + kept_headers(read_message(root.1).0)
        } else {
            kept_headers(root.0)
        },
    )
}

/// The parts that the cleaned copy keeps.
pub open spec fn cleaned_parts(message: Seq<u8>) -> Seq<KeptPartView> {
    let received = received_message(message);
    llm_parts(received.0, received.1)
}

/// Whether these parts fit in a message without parts: one text, or nothing.
pub open spec fn is_single_text(parts: Seq<KeptPartView>) -> bool {
    parts.len() == 0 || (parts.len() == 1 && !parts[0].is_attachment)
}

/// The boundary with this number.
pub open spec fn cleaned_boundary(id: u64) -> Seq<char> {
    "smtp-receiver-cleaned-"@ + decimal(id as nat)
}

/// A kept part between the boundaries of a multipart message.
pub open spec fn part_block(part: KeptPartView, boundary: Seq<char>) -> Seq<u8> {
    encode_utf8("--"@) + encode_utf8(boundary) + encode_utf8("\r\n"@) + header_block(part.headers)
        + encode_utf8("\r\n"@) + part.body + (if part.body.len() > 0 && part.body.last() == 10 {
        Seq::<u8>::empty()
    } else {
        encode_utf8("\r\n"@)
    })
}

/// The kept parts, each between boundaries.
pub open spec fn part_blocks(parts: Seq<KeptPartView>, boundary: Seq<char>) -> Seq<u8>
    decreases parts.len(),
{
    if parts.len() == 0 {
        seq![]
    } else {
        part_blocks(parts.drop_last(), boundary) + part_block(parts.last(), boundary)
    }
}

/// A message of these headers and parts: plain text where the parts are a single
/// text, and multipart with this boundary otherwise.
pub open spec fn assembled(
    headers: Seq<(Seq<char>, Seq<char>)>,
    parts: Seq<KeptPartView>,
    boundary: Seq<char>,
) -> Seq<u8> {
    if is_single_text(parts) {
        header_block(headers) + encode_utf8("Content-Type: text/plain; charset=utf-8\r\n\r\n"@) + (
        if parts.len() == 0 {
            Seq::<u8>::empty()
        } else {
            parts[0].body
        })
    } else {
        header_block(headers) + encode_utf8(
            "MIME-Version: 1.0\r\nContent-Type: multipart/mixed; boundary=\""@,
        ) + encode_utf8(boundary) + encode_utf8("\"\r\n\r\n"@) + part_blocks(parts, boundary)
            + encode_utf8("--"@) + encode_utf8(boundary) + encode_utf8("--\r\n"@)
    }
}

/// The cleaned copy of a message, with the boundary of this number if it needs
/// one.
pub open spec fn cleaned_message(message: Seq<u8>, id: u64) -> Seq<u8> {
    assembled(cleaned_headers(message), cleaned_parts(message), cleaned_boundary(id))
}

/// Whether the cleaned copy of a message needs a boundary.
pub open spec fn needs_boundary(message: Seq<u8>) -> bool {
    !is_single_text(cleaned_parts(message))
}

/// Appends the kept parts, each between boundaries.
fn write_parts(output: &mut Vec<u8>, parts: &[KeptPart], boundary: &str)
    ensures
        final(output)@ == old(output)@ + part_blocks(kept_views(parts@), boundary@),
{
    let ghost all = kept_views(parts@);
    let mut i: usize = 0;
    assert(output@ == old(output)@ + part_blocks(all.take(0), boundary@));
    while i < parts.len()
        invariant
            i <= parts@.len(),
            all == kept_views(parts@),
            output@ == old(output)@ + part_blocks(all.take(i as int), boundary@),
        decreases parts@.len() - i,
    {
        let ghost before = output@;
        proof {
            assert(all.take(i + 1).drop_last() == all.take(i as int));
            assert(all.take(i + 1).last() == parts@[i as int]@);
        }
        append_text(output, "--");
        append_text(output, boundary);
        append_text(output, "\r\n");
        write_headers(output, parts[i].headers.as_slice());
        append_text(output, "\r\n");
        append_bytes(output, parts[i].body.as_slice());
        let n: usize = parts[i].body.len();
        if !(n > 0 && parts[i].body[n - 1] == 10) {
            append_text(output, "\r\n");
        }
        assert(output@ =~= before + part_block(all[i as int], boundary@));
        assert(before + part_block(all[i as int], boundary@) == old(output)@ + (part_blocks(
            all.take(i as int),
            boundary@,
        ) + part_block(all[i as int], boundary@)));
        i = i + 1;
    }
    assert(all.take(all.len() as int) == all);
}

/// Whether these parts fit in a message without parts.
pub fn fits_single_text(parts: &[KeptPart]) -> (r: bool)
    ensures
        r == is_single_text(kept_views(parts@)),
{
    parts.len() == 0 || (parts.len() == 1 && !parts[0].is_attachment)
}

/// A message of these headers and parts.
pub fn assemble_message(
    headers: &[(String, String)],
    parts: &[KeptPart],
    boundary: &str,
) -> (r: Vec<u8>)
    ensures
        r@ == assembled(pair_texts(headers@), kept_views(parts@), boundary@),
{
    let mut output: Vec<u8> = Vec::new();
    write_headers(&mut output, headers);
    if fits_single_text(parts) {
        append_text(&mut output, "Content-Type: text/plain; charset=utf-8\r\n\r\n");
        if parts.len() > 0 {
            append_bytes(&mut output, parts[0].body.as_slice());
        }
        assert(output@ =~= assembled(pair_texts(headers@), kept_views(parts@), boundary@));
        return output;
    }
    append_text(&mut output, "MIME-Version: 1.0\r\nContent-Type: multipart/mixed; boundary=\"");
    append_text(&mut output, boundary);
    append_text(&mut output, "\"\r\n\r\n");
    write_parts(&mut output, parts, boundary);
    append_text(&mut output, "--");
    append_text(&mut output, boundary);
    append_text(&mut output, "--\r\n");
    assert(output@ =~= assembled(pair_texts(headers@), kept_views(parts@), boundary@));
    output
}

/// The boundary with this number.
fn boundary_text(id: u64) -> (r: String)
    ensures
        r@ == cleaned_boundary(id),
{
    let mut boundary = "smtp-receiver-cleaned-".to_owned();
    boundary.append(decimal_string(id).as_str());
    boundary
}

/// The cleaned copy of a message. A number is taken from `ids` only where the
/// copy needs a boundary.
pub fn clean_message_for_llm(message: &[u8], ids: &mut IdSource) -> (r: Vec<u8>)
    ensures
        r@ == cleaned_message(message@, old(ids).next),
        final(ids).next == if needs_boundary(message@) {
            next_id(old(ids).next)
        } else {
            old(ids).next
        },
{
    let root = parse_message_part(message);
    let enveloped = has_smtp_receiver_envelope(root.headers.as_slice());
    let mut top_headers = filter_headers(root.headers.as_slice());
    let kept_parts = if enveloped {
        let content = parse_message_part(root.body);
        let ghost outer = pair_texts(top_headers@);
        let mut inner = filter_headers(content.headers.as_slice());
        let ghost inner_texts = pair_texts(inner@);
        top_headers.append(&mut inner);
        assert(pair_texts(top_headers@) =~= outer + inner_texts);
        collect_llm_parts(&content)
    } else {
        collect_llm_parts(&root)
    };
    remove_header(&mut top_headers, "content-type");
    remove_header(&mut top_headers, "content-transfer-encoding");
    remove_header(&mut top_headers, "mime-version");
    assert(pair_texts(top_headers@) == cleaned_headers(message@));
    assert(kept_views(kept_parts@) == cleaned_parts(message@));
    if fits_single_text(kept_parts.as_slice()) {
        assemble_message(top_headers.as_slice(), kept_parts.as_slice(), "")
    } else {
        let boundary = boundary_text(ids.fetch());
        assemble_message(top_headers.as_slice(), kept_parts.as_slice(), boundary.as_str())
    }
}

// ---------------------------------------------------------------------------
// Laws
// ---------------------------------------------------------------------------
/// Whether a header describes the content of a message.
pub open spec fn describes_content(name: Seq<char>) -> bool {
    same_ignoring_case(name, "content-type"@) || same_ignoring_case(
        name,
        "content-transfer-encoding"@,
    ) || same_ignoring_case(name, "mime-version"@)
}

/// The headers of the envelope, where there is one, and of the received message.
pub open spec fn all_headers(message: Seq<u8>) -> Seq<(Seq<char>, Seq<char>)> {
    let root = read_message(message);
    if has_envelope(root.0) {
        root.0 + read_message(root.1).0
    } else {
        root.0
    }
}

proof fn lemma_filter(
    headers: Seq<(Seq<char>, Seq<char>)>,
    pred: spec_fn((Seq<char>, Seq<char>)) -> bool,
    header: (Seq<char>, Seq<char>),
)
    ensures
        headers.filter(pred).contains(header) <==> headers.contains(header) && pred(header),
{
    if headers.filter(pred).contains(header) {
        headers.lemma_filter_contains_rev(pred, header);
        let i = choose|i: int|
            0 <= i < headers.filter(pred).len() && headers.filter(pred)[i] == header;
        headers.lemma_filter_pred(pred, i);
    }
    if headers.contains(header) && pred(header) {
        let i = choose|i: int| 0 <= i < headers.len() && headers[i] == header;
        headers.lemma_filter_contains(pred, i);
    }
}

/// The cleaned copy has exactly those headers of the envelope and of the received
/// message that are neither stripped nor describe the content: it writes its own of
/// those.
pub proof fn law_cleaned_copy_keeps_other_headers(message: Seq<u8>, header: (Seq<char>, Seq<char>))
    ensures
        cleaned_headers(message).contains(header) <==> all_headers(message).contains(header)
            && keeps_header(header.0) && !describes_content(header.0),
{
    let root = read_message(message);
    let inner = read_message(root.1).0;
    let keep = |h: (Seq<char>, Seq<char>)| keeps_header(h.0);
    let kept = if has_envelope(root.0) {
        kept_headers(root.0) + kept_headers(inner)
    } else {
        kept_headers(root.0)
    };
    lemma_filter(root.0, keep, header);
    lemma_filter(inner, keep, header);
    lemma_contains_either(kept_headers(root.0), kept_headers(inner), header);
    lemma_contains_either(root.0, inner, header);
    assert(kept.contains(header) <==> all_headers(message).contains(header) && keeps_header(
        header.0,
    ));
    let first = headers_without(kept, "content-type"@);
    let second = headers_without(first, "content-transfer-encoding"@);
    lemma_filter(
        kept,
        |h: (Seq<char>, Seq<char>)| !same_ignoring_case(h.0, "content-type"@),
        header,
    );
    lemma_filter(
        first,
        |h: (Seq<char>, Seq<char>)| !same_ignoring_case(h.0, "content-transfer-encoding"@),
        header,
    );
    lemma_filter(
        second,
        |h: (Seq<char>, Seq<char>)| !same_ignoring_case(h.0, "mime-version"@),
        header,
    );
}

proof fn lemma_contains_either(
    a: Seq<(Seq<char>, Seq<char>)>,
    b: Seq<(Seq<char>, Seq<char>)>,
    header: (Seq<char>, Seq<char>),
)
    ensures
        (a + b).contains(header) <==> a.contains(header) || b.contains(header),
{
    if a.contains(header) {
        let i = choose|i: int| 0 <= i < a.len() && a[i] == header;
        assert((a + b)[i] == header);
    }
    if b.contains(header) {
        let i = choose|i: int| 0 <= i < b.len() && b[i] == header;
        assert((a + b)[a.len() + i] == header);
    }
}

/// Whether a kept part is plain text as UTF-8, or an attachment with no other
/// headers than the four that it needs.
pub open spec fn is_text_or_attachment(part: KeptPartView) -> bool {
    if part.is_attachment {
        forall|i: int|
            0 <= i < part.headers.len() ==> {
                let name = (#[trigger] part.headers[i]).0;
                name == "Content-Type"@ || name == "Content-Disposition"@ || name
                    == "Content-Transfer-Encoding"@ || name == "Content-ID"@
            }
    } else {
        part.headers == seq![("Content-Type"@, "text/plain; charset=utf-8"@)]
    }
}

/// The cleaned copy keeps nothing but plain text and attachments.
pub proof fn law_only_text_and_attachments_are_kept(message: Seq<u8>, i: int)
    requires
        0 <= i < cleaned_parts(message).len(),
    ensures
        is_text_or_attachment(cleaned_parts(message)[i]),
{
    let received = received_message(message);
    lemma_kept_parts(received.0, received.1);
}

proof fn lemma_kept_parts(headers: Seq<(Seq<char>, Seq<char>)>, body: Seq<u8>)
    ensures
        forall|i: int|
            0 <= i < llm_parts(headers, body).len() ==> is_text_or_attachment(
                #[trigger] llm_parts(headers, body)[i],
            ),
    decreases body.len(), 1nat, 0nat,
{
    match multipart_boundary(headers) {
        Some(boundary) => {
            let parts = multipart_parts(body, boundary);
            lemma_kept_parts_in(parts, body.len());
            assert(llm_parts(headers, body) == llm_parts_in(parts, body.len()));
        },
        None => {
            assert forall|i: int| 0 <= i < llm_parts(headers, body).len() implies
                is_text_or_attachment(#[trigger] llm_parts(headers, body)[i]) by {
                let part = kept_leaf(headers, body)[i];
                if part.is_attachment {
                    assert(part.headers == attachment_headers(headers));
                }
            }
        },
    }
}

proof fn lemma_kept_parts_in(parts: Seq<Seq<u8>>, bound: nat)
    ensures
        forall|i: int|
            0 <= i < llm_parts_in(parts, bound).len() ==> is_text_or_attachment(
                #[trigger] llm_parts_in(parts, bound)[i],
            ),
    decreases bound, 0nat, parts.len(),
{
    if parts.len() > 0 {
        lemma_kept_parts_in(parts.drop_last(), bound);
        let rest = llm_parts_in(parts.drop_last(), bound);
        let (header_bytes, body) = headers_and_body(parts.last());
        if body.len() < bound {
            let more = llm_parts(parsed_headers(header_bytes), body);
            lemma_kept_parts(parsed_headers(header_bytes), body);
            assert forall|i: int| 0 <= i < llm_parts_in(parts, bound).len() implies
                is_text_or_attachment(#[trigger] llm_parts_in(parts, bound)[i]) by {
                if i < rest.len() {
                    assert(llm_parts_in(parts, bound)[i] == rest[i]);
                } else {
                    assert(llm_parts_in(parts, bound)[i] == more[i - rest.len()]);
                }
            }
        }
    }
}

/// Text that is neither plain nor an attachment, such as HTML, is dropped.
pub proof fn law_other_text_is_dropped(headers: Seq<(Seq<char>, Seq<char>)>, body: Seq<u8>)
    requires
        multipart_boundary(headers) is None,
        media_type_of(content_type_of(headers)) != "text/plain"@,
        !attachment_like(headers, media_type_of(content_type_of(headers))),
    ensures
        llm_parts(headers, body).len() == 0,
{
}

/// An attachment keeps its body byte for byte, and the values of its headers.
pub proof fn law_attachment_is_kept_as_it_is(headers: Seq<(Seq<char>, Seq<char>)>, body: Seq<u8>)
    requires
        multipart_boundary(headers) is None,
        attachment_like(headers, media_type_of(content_type_of(headers))),
    ensures
        llm_parts(headers, body) == seq![
            KeptPartView { headers: attachment_headers(headers), body, is_attachment: true },
        ],
{
}

/// No part of a body is passed over for its length: each is shorter than the body, so
/// that what is kept of a body is what is kept of each of its parts.
pub proof fn law_every_part_is_looked_at(body: Seq<u8>, boundary: Seq<char>, i: int)
    requires
        0 <= i < multipart_parts(body, boundary).len(),
    ensures
        headers_and_body(multipart_parts(body, boundary)[i]).1.len() < body.len(),
{
    lemma_parts_are_shorter(
        body,
        opening_marker(boundary),
        closing_marker(boundary),
        0,
        None,
    );
    lemma_body_len(multipart_parts(body, boundary)[i]);
}

/// Of a part with parts of its own, what is kept is what is kept of each of those, in
/// their order.
pub proof fn law_parts_are_cleaned_one_by_one(parts: Seq<Seq<u8>>, part: Seq<u8>, bound: nat)
    requires
        headers_and_body(part).1.len() < bound,
    ensures
        llm_parts_in(parts.push(part), bound) == llm_parts_in(parts, bound) + llm_parts(
            read_message(part).0,
            read_message(part).1,
        ),
{
    assert(parts.push(part).drop_last() =~= parts);
}

/// What stands of a kept part after the line that opens it.
pub open spec fn part_content(part: KeptPartView) -> Seq<u8> {
    header_block(part.headers) + encode_utf8("\r\n"@) + part.body + (if part.body.len() > 0
        && part.body.last() == 10 {
        Seq::<u8>::empty()
    } else {
        encode_utf8("\r\n"@)
    })
}

/// Whether none of the lines is one that opens or closes a part.
pub open spec fn has_no_marker(bytes: Seq<u8>, boundary: Seq<char>) -> bool
    decreases bytes.len(),
{
    if bytes.len() == 0 {
        true
    } else {
        let n = first_line_len(bytes) as int;
        let line = without_line_ending(bytes.take(n));
        proof {
            lemma_first_line_len(bytes);
        }
        &&& line != opening_marker(boundary)
        &&& line != closing_marker(boundary)
        &&& has_no_marker(bytes.skip(n), boundary)
    }
}

/// The body of a cleaned copy with parts.
pub open spec fn parts_body(parts: Seq<KeptPartView>, boundary: Seq<char>) -> Seq<u8> {
    part_blocks(parts, boundary) + encode_utf8("--"@) + encode_utf8(boundary) + encode_utf8(
        "--\r\n"@,
    )
}

/// The parts of a cleaned copy can be taken apart again: each comes back with its
/// headers and its body, unless one of them has a line like those between the parts.
/// The line ending before such a line is not part of what comes back.
pub proof fn law_cleaned_parts_are_split_back(parts: Seq<KeptPartView>, boundary: Seq<char>)
    requires
        is_one_line(boundary),
        forall|i: int|
            0 <= i < parts.len() ==> has_no_marker(part_content(#[trigger] parts[i]), boundary),
    ensures
        multipart_parts(parts_body(parts, boundary), boundary) == Seq::new(
            parts.len(),
            |i: int| without_line_ending(part_content(parts[i])),
        ),
{
    let whole = parts_body(parts, boundary);
    assert(parts.take(0) =~= Seq::empty());
    lemma_parts_from_block(parts, boundary, 0);
    assert(contents_from(parts, 0) =~= Seq::new(
        parts.len(),
        |i: int| without_line_ending(part_content(parts[i])),
    ));
    assert(part_before(whole, None, 0) + contents_from(parts, 0) =~= contents_from(parts, 0));
}

/// A numbered boundary stands on one line, and no two numbers have the same.
pub proof fn law_boundaries_are_distinct(id: u64, other: u64)
    ensures
        is_one_line(cleaned_boundary(id)),
        cleaned_boundary(id) == cleaned_boundary(other) ==> id == other,
{
    reveal_strlit("smtp-receiver-cleaned-");
    let prefix = "smtp-receiver-cleaned-"@;
    let boundary = cleaned_boundary(id);
    lemma_decimal_digits(id as nat);
    assert forall|i: int| 0 <= i < boundary.len() implies #[trigger] boundary[i] != '\n' by {
        if i >= prefix.len() {
            assert(boundary[i] == decimal(id as nat)[i - prefix.len()]);
        }
    }
    if boundary == cleaned_boundary(other) {
        assert(boundary.skip(prefix.len() as int) =~= decimal(id as nat));
        assert(boundary.skip(prefix.len() as int) =~= decimal(other as nat));
        lemma_decimal_injective(id as nat, other as nat);
    }
}

/// What comes back of the parts from one on.
spec fn contents_from(parts: Seq<KeptPartView>, from: int) -> Seq<Seq<u8>> {
    Seq::new(
        (parts.len() - from) as nat,
        |i: int| without_line_ending(part_content(parts[from + i])),
    )
}

/// Where the block of a part begins.
spec fn block_start(parts: Seq<KeptPartView>, boundary: Seq<char>, i: int) -> int {
    part_blocks(parts.take(i), boundary).len() as int
}

/// Where the part begins that is open at the block of a part.
spec fn open_part(parts: Seq<KeptPartView>, boundary: Seq<char>, i: int) -> Option<int> {
    if i == 0 {
        None
    } else {
        Some(block_start(parts, boundary, i - 1) + opening_marker(boundary).len() + 2)
    }
}

proof fn lemma_marker_lines(boundary: Seq<char>)
    requires
        is_one_line(boundary),
    ensures
        encode_utf8("--"@) + encode_utf8(boundary) + encode_utf8("\r\n"@) == opening_marker(
            boundary,
        ) + seq![13u8, 10u8],
        encode_utf8("--"@) + encode_utf8(boundary) + encode_utf8("--\r\n"@) == closing_marker(
            boundary,
        ) + seq![13u8, 10u8],
        opening_marker(boundary) != closing_marker(boundary),
        forall|i: int|
            0 <= i < opening_marker(boundary).len() ==> #[trigger] opening_marker(boundary)[i] != 10,
        forall|i: int|
            0 <= i < closing_marker(boundary).len() ==> #[trigger] closing_marker(boundary)[i] != 10,
{
    reveal_strlit("--");
    reveal_strlit("\r\n");
    reveal_strlit("--\r\n");
    lemma_crlf();
    lemma_encode_both("--"@, boundary);
    lemma_encode_both("--"@ + boundary, "--"@);
    lemma_encode_both("--"@, "\r\n"@);
    assert("--\r\n"@ =~= "--"@ + "\r\n"@);
    assert(is_one_line("--"@ + boundary));
    assert(is_one_line("--"@ + boundary + "--"@));
    lemma_no_line_feed("--"@ + boundary);
    lemma_no_line_feed("--"@ + boundary + "--"@);
    lemma_dashes();
    assert(encode_utf8("--"@) + encode_utf8(boundary) + encode_utf8("--\r\n"@)
        =~= closing_marker(boundary) + seq![13u8, 10u8]);
    assert(closing_marker(boundary).len() == opening_marker(boundary).len() + 2);
}

proof fn lemma_dashes()
    ensures
        encode_utf8("--"@).len() == 2,
        encode_utf8("--"@).last() == 45,
{
    reveal_strlit("--");
    reveal_with_fuel(encode_utf8, 3);
    lemma_small_scalar('-');
    assert("--"@.drop_first() =~= seq!['-']);
    assert("--"@.drop_first().drop_first() =~= Seq::empty());
}

/// A line that is a marker, in a body.
proof fn lemma_marker_at(body: Seq<u8>, at: int, marker: Seq<u8>)
    requires
        0 <= at,
        at + marker.len() + 2 <= body.len(),
        body.subrange(at, at + marker.len() + 2) == marker + seq![13u8, 10u8],
        forall|i: int| 0 <= i < marker.len() ==> #[trigger] marker[i] != 10,
    ensures
        line_end(body, at) == at + marker.len() + 2,
        without_line_ending(body.subrange(at, line_end(body, at))) == marker,
{
    let line = marker + seq![13u8, 10u8];
    let rest = body.skip(at);
    let n = line.len() as int;
    assert(rest.take(n) =~= line);
    assert forall|j: int| 0 <= j < n - 1 implies rest[j] != 10 by {
        assert(rest[j] == line[j]);
    }
    assert(rest[n - 1] == line[n - 1]);
    lemma_first_line_len_is(rest, n);
    assert(without_line_ending(line) =~= marker);
}

/// Lines without markers are passed over.
proof fn lemma_lines_are_passed(
    body: Seq<u8>,
    boundary: Seq<char>,
    at: int,
    text: Seq<u8>,
    start: Option<int>,
)
    requires
        0 <= at,
        at + text.len() <= body.len(),
        body.subrange(at, at + text.len()) == text,
        text.len() > 0 ==> text.last() == 10,
        has_no_marker(text, boundary),
    ensures
        parts_from(body, opening_marker(boundary), closing_marker(boundary), at, start)
            == parts_from(
            body,
            opening_marker(boundary),
            closing_marker(boundary),
            at + text.len(),
            start,
        ),
    decreases text.len(),
{
    if text.len() > 0 {
        let n = first_line_len(text) as int;
        lemma_first_line_len(text);
        let rest = body.skip(at);
        assert forall|j: int| 0 <= j < n - 1 implies rest[j] != 10 by {
            assert(rest[j] == text[j]);
        }
        assert(text[n - 1] == 10);
        assert(rest[n - 1] == text[n - 1]);
        lemma_first_line_len_is(rest, n);
        assert(body.subrange(at, at + n) =~= text.take(n));
        assert(body.subrange(at + n, at + text.len()) =~= text.skip(n));
        if n < text.len() {
            assert(text.skip(n).last() == text.last());
        }
        lemma_lines_are_passed(body, boundary, at + n, text.skip(n), start);
    }
}

/// A block stands where it begins.
proof fn lemma_block_at(parts: Seq<KeptPartView>, boundary: Seq<char>, i: int)
    requires
        0 <= i < parts.len(),
    ensures
        block_start(parts, boundary, i + 1) == block_start(parts, boundary, i) + part_block(
            parts[i],
            boundary,
        ).len(),
        block_start(parts, boundary, i + 1) <= part_blocks(parts, boundary).len(),
        part_blocks(parts, boundary).subrange(
            block_start(parts, boundary, i),
            block_start(parts, boundary, i + 1),
        ) == part_block(parts[i], boundary),
    decreases parts.len(),
{
    let all = part_blocks(parts, boundary);
    let from = block_start(parts, boundary, i);
    let to = block_start(parts, boundary, i + 1);
    assert(parts.take(i + 1).drop_last() =~= parts.take(i));
    assert(parts.take(i + 1).last() == parts[i]);
    if i == parts.len() - 1 {
        assert(parts.take(i + 1) =~= parts);
        assert(all.subrange(from, to) =~= part_block(parts[i], boundary));
    } else {
        let fewer = parts.drop_last();
        lemma_block_at(fewer, boundary, i);
        assert(fewer.take(i) =~= parts.take(i));
        assert(fewer.take(i + 1) =~= parts.take(i + 1));
        assert(all.subrange(from, to) =~= part_blocks(fewer, boundary).subrange(from, to));
    }
}

/// A block is the line that opens a part, and the part.
proof fn lemma_block_shape(parts: Seq<KeptPartView>, boundary: Seq<char>, i: int)
    requires
        is_one_line(boundary),
        0 <= i < parts.len(),
    ensures
        ({
            let whole = parts_body(parts, boundary);
            let opening = opening_marker(boundary);
            let content = part_content(parts[i]);
            let at = block_start(parts, boundary, i);
            let next = block_start(parts, boundary, i + 1);
            let inner = at + opening.len() + 2;
            &&& next == inner + content.len()
            &&& next <= whole.len()
            &&& whole.subrange(at, inner) == opening + seq![13u8, 10u8]
            &&& whole.subrange(inner, next) == content
            &&& content.len() >= 2
            &&& content.last() == 10
        }),
{
    let whole = parts_body(parts, boundary);
    let blocks = part_blocks(parts, boundary);
    let opening = opening_marker(boundary);
    let at = block_start(parts, boundary, i);
    let next = block_start(parts, boundary, i + 1);
    let block = part_block(parts[i], boundary);
    let content = part_content(parts[i]);
    let inner = at + opening.len() + 2;
    lemma_marker_lines(boundary);
    lemma_crlf();
    lemma_block_at(parts, boundary, i);
    assert(block =~= (opening + seq![13u8, 10u8]) + content);
    assert(whole.subrange(at, next) =~= blocks.subrange(at, next));
    assert(whole.subrange(at, inner) =~= whole.subrange(at, next).take(inner - at));
    assert(whole.subrange(inner, next) =~= whole.subrange(at, next).skip(inner - at));
    assert(block.take(inner - at) =~= opening + seq![13u8, 10u8]);
    assert(block.skip(inner - at) =~= content);
}

/// A marker gives back the part before it, without the line ending in between.
proof fn lemma_part_before(body: Seq<u8>, start: int, offset: int, content: Seq<u8>)
    requires
        0 <= start <= offset <= body.len(),
        body.subrange(start, offset) == content,
        content.len() >= 2,
    ensures
        part_before(body, Some(start), offset) == seq![without_line_ending(content)],
{
    let before = body.take(offset);
    assert(before[offset - 1] == content[content.len() - 1]);
    assert(before[offset - 2] == content[content.len() - 2]);
    assert(line_ending_len(before) == line_ending_len(content));
    let end = offset - line_ending_len(before);
    assert(body.subrange(start, end) =~= without_line_ending(content));
}

proof fn lemma_parts_from_end(parts: Seq<KeptPartView>, boundary: Seq<char>)
    requires
        is_one_line(boundary),
    ensures
        ({
            let whole = parts_body(parts, boundary);
            let at = block_start(parts, boundary, parts.len() as int);
            let start = open_part(parts, boundary, parts.len() as int);
            parts_from(whole, opening_marker(boundary), closing_marker(boundary), at, start)
                == part_before(whole, start, at)
        }),
{
    let whole = parts_body(parts, boundary);
    let closing = closing_marker(boundary);
    let at = block_start(parts, boundary, parts.len() as int);
    lemma_marker_lines(boundary);
    assert(parts.take(parts.len() as int) =~= parts);
    assert(whole =~= part_blocks(parts, boundary) + (closing + seq![13u8, 10u8]));
    assert(whole.subrange(at, at + closing.len() + 2) =~= closing + seq![13u8, 10u8]);
    lemma_marker_at(whole, at, closing);
}

proof fn lemma_parts_from_block(parts: Seq<KeptPartView>, boundary: Seq<char>, i: int)
    requires
        is_one_line(boundary),
        0 <= i <= parts.len(),
        forall|k: int|
            0 <= k < parts.len() ==> has_no_marker(part_content(#[trigger] parts[k]), boundary),
    ensures
        ({
            let whole = parts_body(parts, boundary);
            let at = block_start(parts, boundary, i);
            let start = open_part(parts, boundary, i);
            parts_from(whole, opening_marker(boundary), closing_marker(boundary), at, start)
                == part_before(whole, start, at) + contents_from(parts, i)
        }),
    decreases parts.len() - i,
{
    let whole = parts_body(parts, boundary);
    let opening = opening_marker(boundary);
    let closing = closing_marker(boundary);
    let at = block_start(parts, boundary, i);
    let start = open_part(parts, boundary, i);
    let before = part_before(whole, start, at);
    if i == parts.len() {
        lemma_parts_from_end(parts, boundary);
        assert(before + contents_from(parts, i) =~= before);
    } else {
        let content = part_content(parts[i]);
        let text = without_line_ending(content);
        let inner = at + opening.len() + 2;
        let next = block_start(parts, boundary, i + 1);
        lemma_block_shape(parts, boundary, i);
        lemma_marker_lines(boundary);
        lemma_marker_at(whole, at, opening);
        lemma_lines_are_passed(whole, boundary, inner, content, Some(inner));
        lemma_parts_from_block(parts, boundary, i + 1);
        lemma_part_before(whole, inner, next, content);
        let rest = parts_from(whole, opening, closing, inner, Some(inner));
        assert(rest == seq![text] + contents_from(parts, i + 1));
        assert(seq![text] + contents_from(parts, i + 1) =~= contents_from(parts, i));
        assert(parts_from(whole, opening, closing, at, start) == before + rest);
    }
}

/// The headers of a cleaned copy are those of the envelope, where there is one, and of the
/// received message, in their order, without those that are stripped and without
/// `Content-Type`, `Content-Transfer-Encoding` and `MIME-Version`.
pub proof fn law_cleaned_headers_stay_in_order(message: Seq<u8>)
    ensures
        cleaned_headers(message) == all_headers(message).filter(
            |h: (Seq<char>, Seq<char>)|
                {
                    &&& keeps_header(h.0)
                    &&& lower(h.0) != lower("content-type"@)
                    &&& lower(h.0) != lower("content-transfer-encoding"@)
                    &&& lower(h.0) != lower("mime-version"@)
                },
        ),
{
    let root = read_message(message);
    let inner = read_message(root.1).0;
    let keep = |h: (Seq<char>, Seq<char>)| keeps_header(h.0);
    let all = all_headers(message);
    if has_envelope(root.0) {
        Seq::filter_distributes_over_add(root.0, inner, keep);
    }
    assert(cleaned_headers(message) == without_content_headers(all.filter(keep)));
    lemma_filters(all);
}

proof fn lemma_filters(headers: Seq<(Seq<char>, Seq<char>)>)
    ensures
        without_content_headers(
            headers.filter(|h: (Seq<char>, Seq<char>)| keeps_header(h.0)),
        ) == headers.filter(
            |h: (Seq<char>, Seq<char>)|
                {
                    &&& keeps_header(h.0)
                    &&& lower(h.0) != lower("content-type"@)
                    &&& lower(h.0) != lower("content-transfer-encoding"@)
                    &&& lower(h.0) != lower("mime-version"@)
                },
        ),
    decreases headers.len(),
{
    let keep = |h: (Seq<char>, Seq<char>)| keeps_header(h.0);
    let whole = |h: (Seq<char>, Seq<char>)|
        {
            &&& keeps_header(h.0)
            &&& lower(h.0) != lower("content-type"@)
            &&& lower(h.0) != lower("content-transfer-encoding"@)
            &&& lower(h.0) != lower("mime-version"@)
        };
    if headers.len() == 0 {
        let none: Seq<(Seq<char>, Seq<char>)> = Seq::empty();
        reveal(Seq::filter);
        assert(headers =~= none);
    } else {
        let fewer = headers.drop_last();
        let last = headers.last();
        lemma_filters(fewer);
        assert(headers =~= fewer.push(last));
        lemma_filter_push(fewer, last, keep);
        lemma_filter_push(fewer, last, whole);
        if keep(last) {
            let first = fewer.filter(keep);
            let a = |h: (Seq<char>, Seq<char>)| !same_ignoring_case(h.0, "content-type"@);
            let b = |h: (Seq<char>, Seq<char>)|
                !same_ignoring_case(h.0, "content-transfer-encoding"@);
            let c = |h: (Seq<char>, Seq<char>)| !same_ignoring_case(h.0, "mime-version"@);
            lemma_filter_push(first, last, a);
            lemma_filter_push(first.filter(a), last, b);
            lemma_filter_push(first.filter(a).filter(b), last, c);
        }
    }
}

proof fn lemma_filter_push(
    headers: Seq<(Seq<char>, Seq<char>)>,
    header: (Seq<char>, Seq<char>),
    pred: spec_fn((Seq<char>, Seq<char>)) -> bool,
)
    ensures
        headers.push(header).filter(pred) == if pred(header) {
            headers.filter(pred).push(header)
        } else {
            headers.filter(pred)
        },
{
    reveal(Seq::filter);
    assert(headers.push(header).drop_last() =~= headers);
}

/// Where a header names this receiver's envelope, the message is what the envelope encloses,
/// and its own headers and body decide what is kept; otherwise it is the whole.
pub proof fn law_envelope_is_opened(message: Seq<u8>)
    ensures
        ({
            let (outer_bytes, enclosed) = headers_and_body(message);
            let (inner_bytes, body) = headers_and_body(enclosed);
            let outer = parsed_headers(outer_bytes);
            let inner = parsed_headers(inner_bytes);
            let enveloped = exists|i: int|
                0 <= i < outer.len() && starts_with(
                    lower((#[trigger] outer[i]).0),
                    "x-smtp-receiver-"@,
                );
            &&& enveloped ==> cleaned_parts(message) == llm_parts(inner, body)
                && all_headers(message) == outer + inner
            &&& !enveloped ==> cleaned_parts(message) == llm_parts(outer, enclosed)
                && all_headers(message) == outer
        }),
{
}

/// The lines between parts are two dashes and the boundary, and behind the last part two
/// more dashes.
pub proof fn law_markers(boundary: Seq<char>)
    ensures
        opening_marker(boundary) == encode_utf8(seq!['-', '-'] + boundary),
        closing_marker(boundary) == encode_utf8(seq!['-', '-'] + boundary + seq!['-', '-']),
{
    reveal_strlit("--");
    assert("--"@ =~= seq!['-', '-']);
}

/// A line that is a marker, whatever ends it.
proof fn lemma_marker_with_ending(body: Seq<u8>, at: int, marker: Seq<u8>, ending: Seq<u8>)
    requires
        0 <= at,
        at + marker.len() + ending.len() <= body.len(),
        body.subrange(at, at + marker.len() + ending.len()) == marker + ending,
        marker.len() > 0,
        ending == seq![13u8, 10u8] || (ending == seq![10u8] && marker.last() != 13) || (
        ending.len() == 0 && at + marker.len() == body.len()),
        forall|i: int| 0 <= i < marker.len() ==> #[trigger] marker[i] != 10,
    ensures
        line_end(body, at) == at + marker.len() + ending.len(),
        without_line_ending(body.subrange(at, line_end(body, at))) == marker,
{
    let line = marker + ending;
    let rest = body.skip(at);
    let n = line.len() as int;
    assert(rest.take(n) =~= line);
    assert forall|j: int| 0 <= j < n - 1 implies rest[j] != 10 by {
        assert(rest[j] == line[j]);
    }
    assert(rest[n - 1] == line[n - 1]);
    lemma_first_line_len_is(rest, n);
    assert(without_line_ending(line) =~= marker);
}

/// A part that is open behind its opening line and content.
proof fn lemma_open_part(
    body: Seq<u8>,
    preamble: Seq<u8>,
    content: Seq<u8>,
    boundary: Seq<char>,
    ending: Seq<u8>,
)
    requires
        is_one_line(boundary),
        ending == seq![13u8, 10u8] || (ending == seq![10u8] && opening_marker(boundary).last()
            != 13),
        preamble.len() > 0 ==> preamble.last() == 10,
        content.len() > 0 ==> content.last() == 10,
        has_no_marker(preamble, boundary),
        has_no_marker(content, boundary),
        body.len() >= preamble.len() + opening_marker(boundary).len() + ending.len()
            + content.len(),
        body.take(
            (preamble.len() + opening_marker(boundary).len() + ending.len() + content.len()) as int,
        ) == preamble + opening_marker(boundary) + ending + content,
    ensures
        ({
            let opening = opening_marker(boundary);
            let closing = closing_marker(boundary);
            let inner = preamble.len() + opening.len() + ending.len();
            parts_from(body, opening, closing, 0, None) == parts_from(
                body,
                opening,
                closing,
                inner as int + content.len(),
                Some(inner as int),
            )
        }),
{
    let opening = opening_marker(boundary);
    let closing = closing_marker(boundary);
    let m = preamble.len() as int;
    let inner = m + opening.len() + ending.len();
    let offset = inner + content.len();
    let known = preamble + opening + ending + content;
    assert(body.take(offset) == known);
    lemma_marker_lines(boundary);
    lemma_dashes();
    lemma_encode_both("--"@, boundary);
    assert(body.subrange(0, m) =~= known.subrange(0, m));
    assert(known.subrange(0, m) =~= preamble);
    assert(body.subrange(m, inner) =~= known.subrange(m, inner));
    assert(known.subrange(m, inner) =~= opening + ending);
    assert(body.subrange(inner, offset) =~= known.subrange(inner, offset));
    assert(known.subrange(inner, offset) =~= content);
    lemma_lines_are_passed(body, boundary, 0, preamble, None);
    lemma_marker_with_ending(body, m, opening, ending);
    lemma_lines_are_passed(body, boundary, inner, content, Some(inner));
    let rest = parts_from(body, opening, closing, inner, Some(inner));
    assert(part_before(body, None, m) + rest =~= rest);
}

/// A marker gives back the content behind an opening line, without the line ending between
/// them, and nothing where there is none.
proof fn lemma_content_before(body: Seq<u8>, start: int, offset: int, content: Seq<u8>)
    requires
        1 <= start <= offset <= body.len(),
        body[start - 1] == 10,
        body.subrange(start, offset) == content,
        content.len() > 0 ==> content.last() == 10,
    ensures
        content.len() == 0 ==> part_before(body, Some(start), offset).len() == 0,
        content.len() > 0 ==> part_before(body, Some(start), offset) == seq![
            without_line_ending(content),
        ],
{
    let before = body.take(offset);
    if content.len() == 0 {
        assert(before[offset - 1] == 10);
    } else if content.len() == 1 {
        assert(before[offset - 1] == content[0]);
        assert(before[offset - 2] == 10);
        assert(body.subrange(start, start) =~= without_line_ending(content));
    } else {
        lemma_part_before(body, start, offset, content);
    }
}

/// Without a marker there is no part, and what an opening line begins is none until another
/// marker ends it.
pub proof fn law_a_part_has_to_be_closed(
    preamble: Seq<u8>,
    content: Seq<u8>,
    boundary: Seq<char>,
    ending: Seq<u8>,
)
    requires
        is_one_line(boundary),
        ending == seq![13u8, 10u8] || (ending == seq![10u8] && opening_marker(boundary).last()
            != 13),
        preamble.len() > 0 ==> preamble.last() == 10,
        content.len() > 0 ==> content.last() == 10,
        has_no_marker(preamble, boundary),
        has_no_marker(content, boundary),
    ensures
        multipart_parts(preamble, boundary).len() == 0,
        multipart_parts(preamble + opening_marker(boundary) + ending + content, boundary).len()
            == 0,
{
    let opened = preamble + opening_marker(boundary) + ending + content;
    assert(preamble.subrange(0, preamble.len() as int) =~= preamble);
    lemma_lines_are_passed(preamble, boundary, 0, preamble, None);
    assert(opened.take(opened.len() as int) =~= opened);
    lemma_open_part(opened, preamble, content, boundary, ending);
}

/// What stands between an opening line and the next closing line is a part, without the
/// line ending before the latter. What stands before the one and behind the other is none.
pub proof fn law_a_part_stands_between_markers(
    preamble: Seq<u8>,
    content: Seq<u8>,
    epilogue: Seq<u8>,
    boundary: Seq<char>,
    ending: Seq<u8>,
)
    requires
        is_one_line(boundary),
        ending == seq![13u8, 10u8] || (ending == seq![10u8] && opening_marker(boundary).last()
            != 13),
        preamble.len() > 0 ==> preamble.last() == 10,
        content.len() > 0 ==> content.last() == 10,
        has_no_marker(preamble, boundary),
        has_no_marker(content, boundary),
    ensures
        ({
            let body = preamble + opening_marker(boundary) + ending + content + closing_marker(
                boundary,
            ) + ending + epilogue;
            &&& content.len() == 0 ==> multipart_parts(body, boundary).len() == 0
            &&& content.len() > 0 ==> multipart_parts(body, boundary) == seq![
                without_line_ending(content),
            ]
        }),
{
    let opening = opening_marker(boundary);
    let closing = closing_marker(boundary);
    let opened = preamble + opening + ending + content;
    let body = opened + closing + ending + epilogue;
    let inner = preamble.len() + opening.len() + ending.len();
    let offset = inner as int + content.len();
    lemma_closing_line(boundary);
    assert(body.take(offset) =~= opened);
    lemma_open_part(body, preamble, content, boundary, ending);
    assert(body.subrange(offset, offset + closing.len() + ending.len()) =~= closing + ending);
    lemma_marker_with_ending(body, offset, closing, ending);
    assert(body.subrange(inner as int, offset) =~= content);
    assert(body[inner - 1] == ending.last());
    lemma_content_before(body, inner as int, offset, content);
    assert(multipart_parts(body, boundary) == part_before(body, Some(inner as int), offset));
}

proof fn lemma_closing_line(boundary: Seq<char>)
    requires
        is_one_line(boundary),
    ensures
        closing_marker(boundary).len() > 0,
        closing_marker(boundary).last() == 45,
        closing_marker(boundary) != opening_marker(boundary),
        forall|i: int|
            0 <= i < closing_marker(boundary).len() ==> #[trigger] closing_marker(boundary)[i] != 10,
{
    lemma_marker_lines(boundary);
    lemma_encode_both("--"@ + boundary, "--"@);
    lemma_dashes();
}

/// A kept part is written as its headers, an empty line and its body, and ends with a line
/// ending: the body's own, or one more where that has none.
pub proof fn law_part_is_written_whole(part: KeptPartView, boundary: Seq<char>)
    ensures
        part_block(part, boundary) == encode_utf8(
            seq!['-', '-'] + boundary + seq!['\r', '\n'],
        ) + header_block(part.headers) + seq![13u8, 10u8] + part.body + (if part.body.len() > 0
            && part.body.last() == 10 {
            Seq::<u8>::empty()
        } else {
            seq![13u8, 10u8]
        }),
        part_block(part, boundary) == encode_utf8(
            seq!['-', '-'] + boundary + seq!['\r', '\n'],
        ) + part_content(part),
{
    reveal_strlit("--");
    reveal_strlit("\r\n");
    assert("--"@ =~= seq!['-', '-']);
    assert("\r\n"@ =~= seq!['\r', '\n']);
    lemma_crlf();
    lemma_encode_both("--"@, boundary);
    lemma_encode_both("--"@ + boundary, "\r\n"@);
    assert(part_block(part, boundary) =~= encode_utf8("--"@ + boundary + "\r\n"@) + part_content(
        part,
    ));
}

/// The parts of a copy are written in their order, and behind them the closing line.
pub proof fn law_parts_are_written_in_order(
    parts: Seq<KeptPartView>,
    part: KeptPartView,
    boundary: Seq<char>,
)
    ensures
        parts_body(Seq::empty(), boundary) == encode_utf8(
            seq!['-', '-'] + boundary + seq!['-', '-', '\r', '\n'],
        ),
        parts_body(parts.push(part), boundary) == part_blocks(parts, boundary) + part_block(
            part,
            boundary,
        ) + encode_utf8(seq!['-', '-'] + boundary + seq!['-', '-', '\r', '\n']),
{
    reveal_strlit("--");
    reveal_strlit("--\r\n");
    assert("--"@ =~= seq!['-', '-']);
    assert("--\r\n"@ =~= seq!['-', '-', '\r', '\n']);
    lemma_encode_both("--"@, boundary);
    lemma_encode_both("--"@ + boundary, "--\r\n"@);
    let closing = encode_utf8(seq!['-', '-'] + boundary + seq!['-', '-', '\r', '\n']);
    assert(part_blocks(Seq::empty(), boundary) =~= Seq::empty());
    assert(parts_body(Seq::empty(), boundary) =~= closing);
    assert(parts.push(part).drop_last() =~= parts);
    assert(parts_body(parts.push(part), boundary) =~= part_blocks(parts, boundary) + part_block(
        part,
        boundary,
    ) + closing);
}

/// A copy has parts exactly where there is more to keep than one text: an attachment, or
/// two parts or more. Its boundary is made of its number.
pub proof fn law_when_a_copy_has_parts(message: Seq<u8>, id: u64)
    ensures
        needs_boundary(message) <==> cleaned_parts(message).len() >= 2 || (cleaned_parts(
            message,
        ).len() == 1 && cleaned_parts(message)[0].is_attachment),
        cleaned_message(message, id) == assembled(
            cleaned_headers(message),
            cleaned_parts(message),
            "smtp-receiver-cleaned-"@ + decimal(id as nat),
        ),
{
}

/// A line is a marker where it is exactly that, whatever ends it; each line is looked at by
/// itself.
pub proof fn law_markers_are_whole_lines(
    line: Seq<u8>,
    ending: Seq<u8>,
    rest: Seq<u8>,
    boundary: Seq<char>,
)
    requires
        forall|i: int| 0 <= i < line.len() ==> #[trigger] line[i] != 10,
        ending == seq![13u8, 10u8] || (ending == seq![10u8] && (line.len() == 0 || line.last()
            != 13)),
    ensures
        has_no_marker(Seq::empty(), boundary),
        has_no_marker(line + ending + rest, boundary) <==> line != encode_utf8(
            seq!['-', '-'] + boundary,
        ) && line != encode_utf8(seq!['-', '-'] + boundary + seq!['-', '-']) && has_no_marker(
            rest,
            boundary,
        ),
{
    law_markers(boundary);
    let whole = line + ending;
    let all = whole + rest;
    let n = whole.len() as int;
    assert forall|j: int| 0 <= j < n - 1 implies all[j] != 10 by {
        assert(all[j] == whole[j]);
        if j < line.len() {
            assert(whole[j] == line[j]);
        }
    }
    assert(all[n - 1] == 10);
    lemma_first_line_len_is(all, n);
    assert(all.take(n) =~= whole);
    assert(all.skip(n) =~= rest);
    law_line_endings(line);
}

/// The headers of a copy stand in front of what it holds, and change nothing in that.
pub proof fn law_headers_stand_in_front(
    headers: Seq<(Seq<char>, Seq<char>)>,
    parts: Seq<KeptPartView>,
    boundary: Seq<char>,
)
    ensures
        assembled(headers, parts, boundary) == header_block(headers) + assembled(
            Seq::empty(),
            parts,
            boundary,
        ),
{
    let none: Seq<(Seq<char>, Seq<char>)> = Seq::empty();
    assert(header_block(none) =~= Seq::empty());
    assert(assembled(headers, parts, boundary) =~= header_block(headers) + assembled(
        none,
        parts,
        boundary,
    ));
}

/// A body behind other bytes has the same parts, from one of its opening lines on.
proof fn lemma_shifted_parts(
    front: Seq<u8>,
    body: Seq<u8>,
    opening: Seq<u8>,
    closing: Seq<u8>,
    offset: int,
    start: int,
)
    requires
        2 <= start <= offset <= body.len(),
    ensures
        parts_from(
            front + body,
            opening,
            closing,
            front.len() + offset,
            Some(front.len() + start),
        ) == parts_from(body, opening, closing, offset, Some(start)),
    decreases body.len() - offset,
{
    let all = front + body;
    let n = front.len() as int;
    if offset < body.len() {
        assert(all.skip(n + offset) =~= body.skip(offset));
        lemma_first_line_len(body.skip(offset));
        let next = line_end(body, offset);
        assert(line_end(all, n + offset) == n + next);
        assert(all.subrange(n + offset, n + next) =~= body.subrange(offset, next));
        assert(all.take(n + offset)[n + offset - 1] == body.take(offset)[offset - 1]);
        assert(all.take(n + offset)[n + offset - 2] == body.take(offset)[offset - 2]);
        let end = offset - line_ending_len(body.take(offset));
        assert(line_ending_len(all.take(n + offset)) == line_ending_len(body.take(offset)));
        if end >= start {
            assert(all.subrange(n + start, n + end) =~= body.subrange(start, end));
        }
        assert(part_before(all, Some(n + start), n + offset) == part_before(
            body,
            Some(start),
            offset,
        ));
        lemma_shifted_parts(front, body, opening, closing, next, start);
        lemma_shifted_parts(front, body, opening, closing, next, next);
    }
}

/// Parts follow each other: a part that the opening line of the next one ends comes first,
/// and then those that the rest has by itself.
pub proof fn law_parts_follow_each_other(
    preamble: Seq<u8>,
    content: Seq<u8>,
    more: Seq<u8>,
    boundary: Seq<char>,
    ending: Seq<u8>,
)
    requires
        is_one_line(boundary),
        ending == seq![13u8, 10u8] || (ending == seq![10u8] && opening_marker(boundary).last()
            != 13),
        preamble.len() > 0 ==> preamble.last() == 10,
        content.len() > 0 ==> content.last() == 10,
        has_no_marker(preamble, boundary),
        has_no_marker(content, boundary),
    ensures
        ({
            let first = preamble + opening_marker(boundary) + ending + content;
            let rest = opening_marker(boundary) + ending + more;
            multipart_parts(first + rest, boundary) == (if content.len() > 0 {
                seq![without_line_ending(content)]
            } else {
                Seq::<Seq<u8>>::empty()
            }) + multipart_parts(rest, boundary)
        }),
{
    let opening = opening_marker(boundary);
    let closing = closing_marker(boundary);
    let first = preamble + opening + ending + content;
    let rest = opening + ending + more;
    let body = first + rest;
    let inner = preamble.len() as int + opening.len() + ending.len();
    let offset = inner + content.len();
    let n = opening.len() + ending.len();
    lemma_closing_line(boundary);
    lemma_opening_line(boundary);
    assert(body.take(offset) =~= first);
    lemma_open_part(body, preamble, content, boundary, ending);
    assert(body.subrange(offset, offset + opening.len() + ending.len()) =~= opening + ending);
    lemma_marker_with_ending(body, offset, opening, ending);
    assert(rest.subrange(0, opening.len() as int + ending.len()) =~= opening + ending);
    lemma_marker_with_ending(rest, 0, opening, ending);
    assert(body.subrange(inner, offset) =~= content);
    assert(body[inner - 1] == ending.last());
    lemma_content_before(body, inner, offset, content);
    lemma_shifted_parts(first, rest, opening, closing, n as int, n as int);
    let later = parts_from(rest, opening, closing, n as int, Some(n as int));
    assert(part_before(rest, None, 0) + later =~= later);
    assert(multipart_parts(rest, boundary) == later);
    let found = part_before(body, Some(inner), offset);
    if content.len() == 0 {
        assert(found =~= Seq::empty());
    }
    assert(multipart_parts(body, boundary) == found + later);
}

proof fn lemma_opening_line(boundary: Seq<char>)
    requires
        is_one_line(boundary),
    ensures
        opening_marker(boundary).len() >= 2,
        forall|i: int|
            0 <= i < opening_marker(boundary).len() ==> #[trigger] opening_marker(boundary)[i] != 10,
{
    lemma_marker_lines(boundary);
    lemma_encode_both("--"@, boundary);
    lemma_dashes();
}

} // verus!
