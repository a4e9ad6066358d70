//! Messages and their parts: multipart bodies, and the parts worth keeping.
use crate::bytes::{
    copy_bytes, first_line_len, headers_and_body, is_ascii_space, lemma_first_bytes,
    lemma_first_line_len, lemma_first_line_len_is, line_ending_len, previous_line_ending_len,
    same_bytes, split_headers_body, trim_line_ending, without_ascii_whitespace, without_line_ending,
};
use crate::headers::{
    attachment_headers, attachment_like, boundary_parameter, first_value, header_value,
    is_attachment_like, law_media_type, lemma_content_names, lemma_first_value_in_any_case,
    media_type, media_type_of, minimal_attachment_headers, parameter_of, parse_headers,
    parsed_headers,
};
use crate::outside::{
    base64_decode, base64_decoded, decode_lossy, quoted_printable_decode, quoted_printable_decoded,
    utf8_lossy,
};
use crate::text::{begins_with, chars_of, lower, lower_string, pair_texts, same_text, starts_with};
use vstd::prelude::*;
use vstd::utf8::{decode_utf8_encode_utf8, encode_utf8, valid_utf8};

verus! {

// ---------------------------------------------------------------------------
// Multipart bodies
// ---------------------------------------------------------------------------
/// Where the line that begins at `offset` ends, its line feed included.
pub open spec fn line_end(body: Seq<u8>, offset: int) -> int {
    offset + first_line_len(body.skip(offset))
}

/// The line that opens a part.
pub open spec fn opening_marker(boundary: Seq<char>) -> Seq<u8> {
    encode_utf8("--"@ + boundary)
}

/// The line that closes the last part.
pub open spec fn closing_marker(boundary: Seq<char>) -> Seq<u8> {
    encode_utf8("--"@ + boundary + "--"@)
}

/// The part that began at `start` and that a marker at `offset` ends. The line
/// ending before the marker belongs to the marker.
pub open spec fn part_before(body: Seq<u8>, start: Option<int>, offset: int) -> Seq<Seq<u8>> {
    match start {
        Some(s) => {
            let end = offset - line_ending_len(body.take(offset));
            if end >= s {
                seq![body.subrange(s, end)]
            } else {
                seq![]
            }
        },
        None => seq![],
    }
}

/// The parts that end at a marker line from `offset` on, where `start` says
/// where the part that is open there began.
pub open spec fn parts_from(
    body: Seq<u8>,
    opening: Seq<u8>,
    closing: Seq<u8>,
    offset: int,
    start: Option<int>,
) -> Seq<Seq<u8>>
    decreases body.len() - offset,
{
    if offset < 0 || offset >= body.len() {
        seq![]
    } else {
        proof {
            lemma_first_line_len(body.skip(offset));
        }
        let next = line_end(body, offset);
        let line = without_line_ending(body.subrange(offset, next));
        if line == closing {
            part_before(body, start, offset)
        } else if line == opening {
            part_before(body, start, offset) + parts_from(body, opening, closing, next, Some(next))
        } else {
            parts_from(body, opening, closing, next, start)
        }
    }
}

/// The parts of a multipart body: what stands between its marker lines. What
/// comes before the first marker, and after the last, is no part.
pub open spec fn multipart_parts(body: Seq<u8>, boundary: Seq<char>) -> Seq<Seq<u8>> {
    parts_from(body, opening_marker(boundary), closing_marker(boundary), 0, None)
}

/// The bytes that a sequence of slices holds.
pub open spec fn slice_bytes(v: Seq<&[u8]>) -> Seq<Seq<u8>> {
    Seq::new(v.len(), |i: int| v[i]@)
}

/// Every part is shorter than the body.
pub proof fn lemma_parts_are_shorter(
    body: Seq<u8>,
    opening: Seq<u8>,
    closing: Seq<u8>,
    offset: int,
    start: Option<int>,
)
    requires
        0 <= offset <= body.len(),
        start matches Some(s) ==> 0 <= s <= offset,
    ensures
        forall|i: int|
            0 <= i < parts_from(body, opening, closing, offset, start).len() ==> (
            #[trigger] parts_from(body, opening, closing, offset, start)[i]).len() < body.len(),
    decreases body.len() - offset,
{
    if offset < body.len() {
        lemma_first_line_len(body.skip(offset));
        let next = line_end(body, offset);
        let line = without_line_ending(body.subrange(offset, next));
        let found = part_before(body, start, offset);
        assert forall|i: int| 0 <= i < found.len() implies (#[trigger] found[i]).len()
            < body.len() by {
            assert(found[i].len() == offset - line_ending_len(body.take(offset)) - start->0);
        }
        if line == closing {
            assert(parts_from(body, opening, closing, offset, start) == found);
        } else if line == opening {
            lemma_parts_are_shorter(body, opening, closing, next, Some(next));
            let rest = parts_from(body, opening, closing, next, Some(next));
            let all = parts_from(body, opening, closing, offset, start);
            assert(all == found + rest);
            assert forall|i: int| 0 <= i < all.len() implies (#[trigger] all[i]).len()
                < body.len() by {
                if i < found.len() {
                    assert(all[i] == found[i]);
                } else {
                    assert(all[i] == rest[i - found.len()]);
                }
            }
        } else {
            lemma_parts_are_shorter(body, opening, closing, next, start);
            assert(parts_from(body, opening, closing, offset, start) == parts_from(
                body,
                opening,
                closing,
                next,
                start,
            ));
        }
    } else {
        assert(parts_from(body, opening, closing, offset, start).len() == 0);
    }
}

/// Where the line that begins at `offset` ends.
fn end_of_line(body: &[u8], offset: usize) -> (r: usize)
    requires
        offset < body@.len(),
    ensures
        r == line_end(body@, offset as int),
        offset < r <= body@.len(),
{
    let mut i: usize = offset;
    while i < body.len() && body[i] != 10
        invariant
            offset <= i <= body@.len(),
            forall|j: int| offset <= j < i ==> body@[j] != 10,
        decreases body@.len() - i,
    {
        i = i + 1;
    }
    if i < body.len() {
        i = i + 1;
    }
    proof {
        let rest = body@.skip(offset as int);
        assert forall|j: int| 0 <= j < i - offset - 1 implies rest[j] != 10 by {
            assert(rest[j] == body@[offset + j]);
        }
        lemma_first_line_len_is(rest, i - offset);
    }
    i
}

/// The marker lines for a boundary.
fn marker_lines(boundary: &str) -> (r: (String, String))
    ensures
        encode_utf8(r.0@) == opening_marker(boundary@),
        encode_utf8(r.1@) == closing_marker(boundary@),
{
    let mut opening = "--".to_owned();
    opening.append(boundary);
    let mut closing = opening.clone();
    closing.append("--");
    (opening, closing)
}

/// The parts of a multipart body.
pub fn split_multipart_body<'a>(body: &'a [u8], boundary: &str) -> (r: Vec<&'a [u8]>)
    ensures
        slice_bytes(r@) == multipart_parts(body@, boundary@),
{
    let (opening, closing) = marker_lines(boundary);
    let opening_bytes = opening.as_str().as_bytes();
    let closing_bytes = closing.as_str().as_bytes();
    let ghost all = multipart_parts(body@, boundary@);
    let mut parts: Vec<&'a [u8]> = Vec::new();
    let mut current_start: Option<usize> = None;
    let mut offset: usize = 0;
    assert(slice_bytes(parts@) + all == all);
    while offset < body.len()
        invariant
            offset <= body@.len(),
            current_start matches Some(s) ==> s <= offset,
            opening_bytes@ == opening_marker(boundary@),
            closing_bytes@ == closing_marker(boundary@),
            all == slice_bytes(parts@) + parts_from(
                body@,
                opening_bytes@,
                closing_bytes@,
                offset as int,
                match current_start {
                    Some(s) => Some(s as int),
                    None => None,
                },
            ),
            all == multipart_parts(body@, boundary@),
        decreases body@.len() - offset,
    {
        let next: usize = end_of_line(body, offset);
        let line = trim_line_ending(&body[offset..next]);
        let is_closing = same_bytes(line, closing_bytes);
        let ghost start = match current_start {
            Some(s) => Some(s as int),
            None => None,
        };
        if is_closing || same_bytes(line, opening_bytes) {
            let ghost before = slice_bytes(parts@);
            if let Some(start_at) = current_start {
                let end: usize = offset - previous_line_ending_len(body, offset);
                if end >= start_at {
                    let part: &'a [u8] = &body[start_at..end];
                    parts.push(part);
                }
            }
            assert(slice_bytes(parts@) == before + part_before(body@, start, offset as int));
            if is_closing {
                return parts;
            }
            assert(before + (part_before(body@, start, offset as int) + parts_from(
                body@,
                opening_bytes@,
                closing_bytes@,
                next as int,
                Some(next as int),
            )) == slice_bytes(parts@) + parts_from(
                body@,
                opening_bytes@,
                closing_bytes@,
                next as int,
                Some(next as int),
            ));
            current_start = Some(next);
        }
        offset = next;
    }
    assert(slice_bytes(parts@) + Seq::<Seq<u8>>::empty() == slice_bytes(parts@));
    parts
}

// ---------------------------------------------------------------------------
// Parts
// ---------------------------------------------------------------------------
/// A message, or a part of one: its headers and its body.
#[derive(Debug, Clone)]
pub struct MessagePart<'a> {
    pub headers: Vec<(String, String)>,
    pub body: &'a [u8],
}

/// A part that the cleaned copy of a message keeps.
#[derive(Debug, Clone)]
pub struct KeptPart {
    pub headers: Vec<(String, String)>,
    pub body: Vec<u8>,
    pub is_attachment: bool,
}

/// What a kept part holds.
#[verifier::ext_equal]
pub struct KeptPartView {
    pub headers: Seq<(Seq<char>, Seq<char>)>,
    pub body: Seq<u8>,
    pub is_attachment: bool,
}

impl View for KeptPart {
    type V = KeptPartView;

    open spec fn view(&self) -> KeptPartView {
        KeptPartView {
            headers: pair_texts(self.headers@),
            body: self.body@,
            is_attachment: self.is_attachment,
        }
    }
}

/// What a sequence of kept parts holds.
pub open spec fn kept_views(v: Seq<KeptPart>) -> Seq<KeptPartView> {
    Seq::new(v.len(), |i: int| v[i]@)
}

/// How a body was encoded for transfer.
#[derive(Debug, Clone, Copy, PartialEq, Eq, Structural)]
pub enum TransferEncoding {
    Base64,
    QuotedPrintable,
    Identity,
}

/// The transfer encoding that a part's headers name. Only the exact names of the
/// two encodings count, in any case; everything else is the identity.
pub open spec fn encoding_of(headers: Seq<(Seq<char>, Seq<char>)>) -> TransferEncoding {
    match first_value(headers, "content-transfer-encoding"@) {
        Some(value) => if lower(value) == "base64"@ {
            TransferEncoding::Base64
        } else if lower(value) == "quoted-printable"@ {
            TransferEncoding::QuotedPrintable
        } else {
            TransferEncoding::Identity
        },
        None => TransferEncoding::Identity,
    }
}

/// What was decoded, or the body itself where nothing could be.
pub open spec fn decoded_or(decoded: Option<Seq<u8>>, body: Seq<u8>) -> Seq<u8> {
    match decoded {
        Some(bytes) => bytes,
        None => body,
    }
}

/// A part's body with its transfer encoding undone.
pub open spec fn transfer_decoded(headers: Seq<(Seq<char>, Seq<char>)>, body: Seq<u8>) -> Seq<u8> {
    match encoding_of(headers) {
        TransferEncoding::Base64 => decoded_or(
            base64_decoded(body.filter(|b: u8| !is_ascii_space(b))),
            body,
        ),
        TransferEncoding::QuotedPrintable => quoted_printable_decoded(body),
        TransferEncoding::Identity => body,
    }
}

/// The text of a part as UTF-8.
pub open spec fn decoded_text(headers: Seq<(Seq<char>, Seq<char>)>, body: Seq<u8>) -> Seq<u8> {
    encode_utf8(utf8_lossy(transfer_decoded(headers, body)))
}

/// The content type that a part has, or that one without has.
pub open spec fn content_type_of(headers: Seq<(Seq<char>, Seq<char>)>) -> Seq<char> {
    match first_value(headers, "content-type"@) {
        Some(value) => value,
        None => "text/plain"@,
    }
}

/// The boundary of a part that has parts of its own.
pub open spec fn multipart_boundary(headers: Seq<(Seq<char>, Seq<char>)>) -> Option<Seq<char>> {
    if starts_with(media_type_of(content_type_of(headers)), "multipart/"@) {
        parameter_of(content_type_of(headers), "boundary"@)
    } else {
        None
    }
}

/// What is kept of a part without parts of its own: an attachment as it is with
/// few headers, plain text decoded, and nothing else.
pub open spec fn kept_leaf(headers: Seq<(Seq<char>, Seq<char>)>, body: Seq<u8>) -> Seq<
    KeptPartView,
> {
    let media = media_type_of(content_type_of(headers));
    if attachment_like(headers, media) {
        seq![
            KeptPartView { headers: attachment_headers(headers), body: body, is_attachment: true },
        ]
    } else if media == "text/plain"@ {
        seq![
            KeptPartView {
                headers: seq![("Content-Type"@, "text/plain; charset=utf-8"@)],
                body: decoded_text(headers, body),
                is_attachment: false,
            },
        ]
    } else {
        seq![]
    }
}

/// What is kept of a part: of one with parts of its own, what is kept of those.
pub open spec fn llm_parts(headers: Seq<(Seq<char>, Seq<char>)>, body: Seq<u8>) -> Seq<
    KeptPartView,
>
    decreases body.len(), 1nat, 0nat,
{
    match multipart_boundary(headers) {
        Some(boundary) => llm_parts_in(multipart_parts(body, boundary), body.len()),
        None => kept_leaf(headers, body),
    }
}

/// What is kept of these parts. `bound` exceeds the length of each of their
/// bodies where they are the parts of a body of that length.
pub open spec fn llm_parts_in(parts: Seq<Seq<u8>>, bound: nat) -> Seq<KeptPartView>
    decreases bound, 0nat, parts.len(),
{
    if parts.len() == 0 {
        seq![]
    } else {
        let rest = llm_parts_in(parts.drop_last(), bound);
        let (header_bytes, body) = headers_and_body(parts.last());
        if body.len() < bound {
            rest + llm_parts(parsed_headers(header_bytes), body)
        } else {
            rest
        }
    }
}

/// A body is no longer than its message.
pub proof fn lemma_body_len(message: Seq<u8>)
    ensures
        headers_and_body(message).1.len() <= message.len(),
{
    lemma_first_bytes(message, crate::bytes::crlf_crlf());
    lemma_first_bytes(message, crate::bytes::lf_lf());
}

/// The transfer encoding that a part's headers name.
pub fn transfer_encoding(headers: &[(String, String)]) -> (r: TransferEncoding)
    ensures
        r == encoding_of(pair_texts(headers@)),
{
    match header_value(headers, "content-transfer-encoding") {
        Some(value) => {
            let lowered = lower_string(value);
            if same_text(lowered.as_str(), "base64") {
                TransferEncoding::Base64
            } else if same_text(lowered.as_str(), "quoted-printable") {
                TransferEncoding::QuotedPrintable
            } else {
                TransferEncoding::Identity
            }
        },
        None => TransferEncoding::Identity,
    }
}

/// What was decoded, or the body itself where nothing could be.
pub fn decoded_or_body(decoded: Option<Vec<u8>>, body: &[u8]) -> (r: Vec<u8>)
    ensures
        r@ == decoded_or(
            match decoded {
                Some(v) => Some(v@),
                None => None,
            },
            body@,
        ),
{
    match decoded {
        Some(bytes) => bytes,
        None => copy_bytes(body),
    }
}

/// The text of a part as UTF-8.
pub fn decode_text_body(headers: &[(String, String)], body: &[u8]) -> (r: Vec<u8>)
    ensures
        r@ == decoded_text(pair_texts(headers@), body@),
        encoding_of(pair_texts(headers@)) == TransferEncoding::Identity && valid_utf8(body@)
            ==> r@ == body@,
        encoding_of(pair_texts(headers@)) == TransferEncoding::Identity ==> r@ == encode_utf8(
            utf8_lossy(body@),
        ),
        encoding_of(pair_texts(headers@)) == TransferEncoding::QuotedPrintable ==> r@
            == encode_utf8(utf8_lossy(quoted_printable_decoded(body@))),
        encoding_of(pair_texts(headers@)) == TransferEncoding::Base64 ==> r@ == encode_utf8(
            utf8_lossy(
                match base64_decoded(
                    body@.filter(|b: u8| b != 9 && b != 10 && b != 12 && b != 13 && b != 32),
                ) {
                    Some(bytes) => bytes,
                    None => body@,
                },
            ),
        ),
{
    proof {
        law_white_space_in_base64(body@);
    }
    let decoded = match transfer_encoding(headers) {
        TransferEncoding::Base64 => {
            let packed = without_ascii_whitespace(body);
            match base64_decode(packed.as_slice()) {
                Ok(bytes) => decoded_or_body(Some(bytes), body),
                Err(_) => decoded_or_body(None, body),
            }
        },
        TransferEncoding::QuotedPrintable => match quoted_printable_decode(body) {
            Ok(bytes) => decoded_or_body(Some(bytes), body),
            Err(_) => decoded_or_body(None, body),
        },
        TransferEncoding::Identity => copy_bytes(body),
    };
    let text = decode_lossy(decoded.as_slice());
    proof {
        if valid_utf8(decoded@) {
            decode_utf8_encode_utf8(decoded@);
        }
    }
    text.as_str().as_bytes_vec()
}

/// Reads a message, or a part of one.
pub fn parse_message_part(message: &[u8]) -> (r: MessagePart<'_>)
    ensures
        pair_texts(r.headers@) == parsed_headers(headers_and_body(message@).0),
        r.body@ == headers_and_body(message@).1,
{
    let (header_bytes, body) = split_headers_body(message);
    MessagePart { headers: parse_headers(header_bytes), body }
}

/// The parts worth keeping.
pub fn collect_llm_parts(part: &MessagePart<'_>) -> (r: Vec<KeptPart>)
    ensures
        kept_views(r@) == llm_parts(pair_texts(part.headers@), part.body@),
    decreases part.body@.len(),
{
    let ghost headers = pair_texts(part.headers@);
    let content_type: &str = match header_value(part.headers.as_slice(), "content-type") {
        Some(value) => value,
        None => "text/plain",
    };
    let media = media_type(content_type);
    if begins_with(chars_of(media.as_str()).as_slice(), "multipart/") {
        if let Some(boundary) = boundary_parameter(content_type) {
            let children = split_multipart_body(part.body, boundary.as_str());
            let ghost all = multipart_parts(part.body@, boundary@);
            let mut kept: Vec<KeptPart> = Vec::new();
            let mut i: usize = 0;
            proof {
                lemma_parts_are_shorter(
                    part.body@,
                    opening_marker(boundary@),
                    closing_marker(boundary@),
                    0,
                    None,
                );
            }
            assert(kept_views(kept@) == llm_parts_in(all.take(0), part.body@.len()));
            while i < children.len()
                invariant
                    i <= children@.len(),
                    slice_bytes(children@) == all,
                    forall|j: int| 0 <= j < all.len() ==> (#[trigger] all[j]).len()
                        < part.body@.len(),
                    kept_views(kept@) == llm_parts_in(all.take(i as int), part.body@.len()),
                decreases children@.len() - i,
            {
                let ghost before = kept_views(kept@);
                assert(all[i as int] == children@[i as int]@);
                proof {
                    lemma_body_len(all[i as int]);
                    assert(all.take(i + 1).drop_last() == all.take(i as int));
                    assert(all.take(i + 1).last() == all[i as int]);
                }
                let child = parse_message_part(children[i]);
                let mut found = collect_llm_parts(&child);
                let ghost found_views = kept_views(found@);
                kept.append(&mut found);
                assert(kept_views(kept@) == before + found_views);
                i = i + 1;
            }
            assert(all.take(all.len() as int) == all);
            return kept;
        }
    }
    let mut kept: Vec<KeptPart> = Vec::new();
    if is_attachment_like(part.headers.as_slice(), media.as_str()) {
        kept.push(
            KeptPart {
                headers: minimal_attachment_headers(part.headers.as_slice()),
                body: copy_bytes(part.body),
                is_attachment: true,
            },
        );
    } else if same_text(media.as_str(), "text/plain") {
        let mut plain: Vec<(String, String)> = Vec::new();
        plain.push(("Content-Type".to_owned(), "text/plain; charset=utf-8".to_owned()));
        assert(pair_texts(plain@) == seq![("Content-Type"@, "text/plain; charset=utf-8"@)]);
        kept.push(
            KeptPart {
                headers: plain,
                body: decode_text_body(part.headers.as_slice(), part.body),
                is_attachment: false,
            },
        );
    }
    assert(kept_views(kept@) =~= kept_leaf(headers, part.body@));
    kept
}

// ---------------------------------------------------------------------------
// Laws
// ---------------------------------------------------------------------------
/// White space that is taken out of base64 is tab, line feed, form feed, carriage return
/// and space.
pub proof fn law_white_space_in_base64(body: Seq<u8>)
    ensures
        body.filter(|b: u8| !is_ascii_space(b)) == body.filter(
            |b: u8| b != 9 && b != 10 && b != 12 && b != 13 && b != 32,
        ),
    decreases body.len(),
{
    reveal(Seq::filter);
    if body.len() > 0 {
        law_white_space_in_base64(body.drop_last());
    }
}

/// The encoding is base64 or quoted-printable where the header says just that, in any
/// case; everything else, and no header, is the identity.
pub proof fn law_encodings(headers: Seq<(Seq<char>, Seq<char>)>)
    ensures
        ({
            let named = first_value(headers, "Content-Transfer-Encoding"@);
            let base64 = seq!['b', 'a', 's', 'e', '6', '4'];
            let quoted = seq![
                'q', 'u', 'o', 't', 'e', 'd', '-', 'p', 'r', 'i', 'n', 't', 'a', 'b', 'l', 'e',
            ];
            &&& encoding_of(headers) == TransferEncoding::Base64 <==> (named is Some && lower(
                named->0,
            ) == base64)
            &&& encoding_of(headers) == TransferEncoding::QuotedPrintable <==> (named is Some
                && lower(named->0) == quoted)
        }),
{
    reveal_strlit("base64");
    reveal_strlit("quoted-printable");
    let base64 = seq!['b', 'a', 's', 'e', '6', '4'];
    let quoted = seq![
        'q', 'u', 'o', 't', 'e', 'd', '-', 'p', 'r', 'i', 'n', 't', 'a', 'b', 'l', 'e',
    ];
    assert("base64"@ =~= base64);
    assert("quoted-printable"@ =~= quoted);
    assert(base64.len() != quoted.len());
    lemma_content_names();
    lemma_first_value_in_any_case(
        headers,
        "Content-Transfer-Encoding"@,
        "content-transfer-encoding"@,
    );
}

/// The text of a part is what its bytes say once the encoding that its header names is
/// undone: of quoted-printable all the bytes received, of base64 all but white space, and
/// otherwise the bytes themselves. Base64 that cannot be decoded is left as it is.
pub proof fn law_text_is_decoded(headers: Seq<(Seq<char>, Seq<char>)>, body: Seq<u8>)
    ensures
        encoding_of(headers) == TransferEncoding::Identity ==> decoded_text(headers, body)
            == encode_utf8(utf8_lossy(body)),
        encoding_of(headers) == TransferEncoding::QuotedPrintable ==> decoded_text(headers, body)
            == encode_utf8(utf8_lossy(quoted_printable_decoded(body))),
        encoding_of(headers) == TransferEncoding::Base64 ==> {
            let packed = body.filter(
                |b: u8| b != 9 && b != 10 && b != 12 && b != 13 && b != 32,
            );
            decoded_text(headers, body) == encode_utf8(
                utf8_lossy(
                    match base64_decoded(packed) {
                        Some(bytes) => bytes,
                        None => body,
                    },
                ),
            )
        },
{
    law_white_space_in_base64(body);
}

/// A part has parts of its own exactly where its content type is a multipart one that names
/// a boundary.
pub proof fn law_multipart_needs_a_boundary(headers: Seq<(Seq<char>, Seq<char>)>)
    ensures
        match first_value(headers, "Content-Type"@) {
            None => multipart_boundary(headers) is None,
            Some(value) => if starts_with(
                media_type_of(value),
                seq!['m', 'u', 'l', 't', 'i', 'p', 'a', 'r', 't', '/'],
            ) {
                multipart_boundary(headers) == parameter_of(
                    value,
                    seq!['b', 'o', 'u', 'n', 'd', 'a', 'r', 'y'],
                )
            } else {
                multipart_boundary(headers) is None
            },
        },
{
    reveal_strlit("multipart/");
    reveal_strlit("boundary");
    reveal_strlit("text/plain");
    assert("multipart/"@ =~= seq!['m', 'u', 'l', 't', 'i', 'p', 'a', 'r', 't', '/']);
    assert("boundary"@ =~= seq!['b', 'o', 'u', 'n', 'd', 'a', 'r', 'y']);
    lemma_content_names();
    lemma_first_value_in_any_case(headers, "Content-Type"@, "content-type"@);
    lemma_plain_media();
    assert("text/plain"@.take(10)[0] == 't');
}

proof fn lemma_plain_media()
    ensures
        media_type_of("text/plain"@) == "text/plain"@,
{
    reveal_strlit("text/plain");
    let media = "text/plain"@;
    let none: Seq<char> = Seq::empty();
    assert(!media.contains(';'));
    law_media_type(none, media, none, none);
    assert(none + media + none =~= media);
    assert(lower(media) =~= media);
}

/// Of a part without parts of its own an attachment is kept as it is, with the headers that
/// describe it; plain text, which is also what a part without a content type holds, is kept
/// decoded; and nothing is kept of any other.
pub proof fn law_what_is_kept_of_a_part(headers: Seq<(Seq<char>, Seq<char>)>, body: Seq<u8>)
    requires
        multipart_boundary(headers) is None,
    ensures
        ({
            let plain = seq!['t', 'e', 'x', 't', '/', 'p', 'l', 'a', 'i', 'n'];
            let media = match first_value(headers, "Content-Type"@) {
                Some(value) => media_type_of(value),
                None => plain,
            };
            let kept = llm_parts(headers, body);
            if attachment_like(headers, media) {
                &&& kept.len() == 1
                &&& kept[0].is_attachment
                &&& kept[0].headers == attachment_headers(headers)
                &&& kept[0].body == body
            } else if media == plain {
                &&& kept.len() == 1
                &&& !kept[0].is_attachment
                &&& kept[0].headers == seq![("Content-Type"@, "text/plain; charset=utf-8"@)]
                &&& kept[0].body == decoded_text(headers, body)
            } else {
                kept.len() == 0
            }
        }),
{
    reveal_strlit("text/plain");
    assert("text/plain"@ =~= seq!['t', 'e', 'x', 't', '/', 'p', 'l', 'a', 'i', 'n']);
    lemma_content_names();
    lemma_first_value_in_any_case(headers, "Content-Type"@, "content-type"@);
    lemma_plain_media();
}

/// Of a part with parts of its own, what is kept is what is kept of those.
pub proof fn law_what_is_kept_of_a_multipart(
    headers: Seq<(Seq<char>, Seq<char>)>,
    body: Seq<u8>,
    boundary: Seq<char>,
)
    requires
        multipart_boundary(headers) == Some(boundary),
    ensures
        ({
            let parts = multipart_parts(body, boundary);
            &&& parts.len() == 0 ==> llm_parts(headers, body).len() == 0
            &&& parts.len() > 0 ==> llm_parts(headers, body) == llm_parts_in(
                parts.drop_last(),
                body.len(),
            ) + llm_parts(
                parsed_headers(headers_and_body(parts.last()).0),
                headers_and_body(parts.last()).1,
            )
        }),
{
    let parts = multipart_parts(body, boundary);
    lemma_parts_are_shorter(
        body,
        opening_marker(boundary),
        closing_marker(boundary),
        0,
        None,
    );
    if parts.len() > 0 {
        assert(parts[parts.len() - 1].len() < body.len());
        lemma_body_len(parts.last());
    }
}

} // verus!
