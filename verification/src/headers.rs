//! Message headers: reading them, choosing which to keep, and the values that
//! describe a part's content.
use crate::bytes::append_bytes;
use crate::outside::{decode_lossy, utf8_lossy};
use crate::text::{
    begins_with, chars_of, contains, contains_text, is_white_space, law_quotes, law_split_at_first,
    law_trim_takes_off_white_space, lemma_find_char_is,
    lemma_trim_end_is, lemma_trim_start_is, lemma_trimmed, lines, lines_of, lower, pair_texts,
    position_of, same_ignoring_case, same_text, same_text_ignoring_case, slice_texts, split,
    split_chars, split_once, starts_with, string_of, to_lower, trim, trim_chars, trim_start,
    unquoted,
};
use crate::utf8::{is_one_line, lemma_encode_both, lemma_line_in_front};
use vstd::prelude::*;
use vstd::utf8::{decode_utf8, encode_utf8, valid_utf8};

verus! {

// ---------------------------------------------------------------------------
// Reading headers
// ---------------------------------------------------------------------------
/// The headers after one more line. A line that begins with a space or a tab
/// continues the last header, if there is one; any other line is a header if a
/// colon parts it and its name is not empty.
pub open spec fn with_header_line(
    headers: Seq<(Seq<char>, Seq<char>)>,
    line: Seq<char>,
) -> Seq<(Seq<char>, Seq<char>)> {
    if line.len() > 0 && (line[0] == ' ' || line[0] == '\t') {
        if headers.len() > 0 {
            let (name, value) = headers.last();
            headers.drop_last().push((name, value.push(' ') + trim(line)))
        } else {
            headers
        }
    } else {
        match split_once(line, ':') {
            Some((name, value)) => if trim(name).len() > 0 {
                headers.push((trim(name), trim(value)))
            } else {
                headers
            },
            None => headers,
        }
    }
}

/// The headers in these lines.
pub open spec fn headers_in_lines(lines: Seq<Seq<char>>) -> Seq<(Seq<char>, Seq<char>)>
    decreases lines.len(),
{
    if lines.len() == 0 {
        seq![]
    } else {
        with_header_line(headers_in_lines(lines.drop_last()), lines.last())
    }
}

/// The headers in these bytes.
pub open spec fn parsed_headers(bytes: Seq<u8>) -> Seq<(Seq<char>, Seq<char>)> {
    headers_in_lines(lines(utf8_lossy(bytes)))
}

/// The headers in a text.
pub fn parse_header_text(text: &str) -> (r: Vec<(String, String)>)
    ensures
        pair_texts(r@) == headers_in_lines(lines(text@)),
{
    let chars = chars_of(text);
    let all = lines_of(chars.as_slice());
    let ghost texts = lines(text@);
    let mut headers: Vec<(String, String)> = Vec::new();
    let mut i: usize = 0;
    assert(pair_texts(headers@) == headers_in_lines(texts.take(0)));
    while i < all.len()
        invariant
            i <= all@.len(),
            slice_texts(all@) == texts,
            pair_texts(headers@) == headers_in_lines(texts.take(i as int)),
        decreases all@.len() - i,
    {
        let line = all[i];
        let ghost before = pair_texts(headers@);
        assert(line@ == texts[i as int]);
        proof {
            assert(texts.take(i + 1).drop_last() == texts.take(i as int));
            assert(texts.take(i + 1).last() == line@);
        }
        if line.len() > 0 && (line[0] == ' ' || line[0] == '\t') {
            if headers.len() > 0 {
                let ghost old_headers = headers@;
                let (name, mut value) = headers.pop().unwrap();
                value.push(' ');
                let rest = string_of(trim_chars(line));
                value.append(rest.as_str());
                assert(before.last() == (old_headers.last().0@, old_headers.last().1@));
                assert(pair_texts(headers@) == before.drop_last());
                headers.push((name, value));
                assert(pair_texts(headers@) == with_header_line(before, line@));
            }
        } else {
            let colon: usize = position_of(line, ':');
            if colon < line.len() {
                let name = trim_chars(&line[0..colon]);
                let value = trim_chars(&line[colon + 1..line.len()]);
                assert(split_once(line@, ':') == Some(
                    (line@.take(colon as int), line@.skip(colon + 1)),
                ));
                if name.len() > 0 {
                    let header = (string_of(name), string_of(value));
                    headers.push(header);
                    assert(pair_texts(headers@) == before.push((name@, value@)));
                }
            }
        }
        i = i + 1;
    }
    assert(texts.take(texts.len() as int) == texts);
    headers
}

/// The headers in these bytes.
pub fn parse_headers(header_bytes: &[u8]) -> (r: Vec<(String, String)>)
    ensures
        pair_texts(r@) == parsed_headers(header_bytes@),
        valid_utf8(header_bytes@) ==> pair_texts(r@) == headers_in_lines(
            lines(decode_utf8(header_bytes@)),
        ),
{
    let text = decode_lossy(header_bytes);
    parse_header_text(text.as_str())
}

// ---------------------------------------------------------------------------
// Choosing headers
// ---------------------------------------------------------------------------
/// Whether a cleaned message keeps a header of this name: not those that begin
/// with `ARC-` or `DKIM`, and of those that begin with `X-` only `X-Received`
/// and those that begin with `X-SMTP`. Case does not matter.
pub open spec fn keeps_header(name: Seq<char>) -> bool {
    let l = lower(name);
    &&& !starts_with(l, "arc-"@)
    &&& !starts_with(l, "dkim"@)
    &&& starts_with(l, "x-"@) ==> l == "x-received"@ || starts_with(l, "x-smtp"@)
}

/// The headers that a cleaned message keeps, in their order.
pub open spec fn kept_headers(headers: Seq<(Seq<char>, Seq<char>)>) -> Seq<
    (Seq<char>, Seq<char>),
> {
    headers.filter(|h: (Seq<char>, Seq<char>)| keeps_header(h.0))
}

/// The headers without those of this name.
pub open spec fn headers_without(
    headers: Seq<(Seq<char>, Seq<char>)>,
    name: Seq<char>,
) -> Seq<(Seq<char>, Seq<char>)> {
    headers.filter(|h: (Seq<char>, Seq<char>)| !same_ignoring_case(h.0, name))
}

/// Whether a header names the envelope that this receiver wrote.
pub open spec fn has_envelope(headers: Seq<(Seq<char>, Seq<char>)>) -> bool {
    exists|i: int|
        0 <= i < headers.len() && starts_with(
            lower((#[trigger] headers[i]).0),
            "x-smtp-receiver-"@,
        )
}

/// A header as a line of the message.
pub open spec fn header_line(header: (Seq<char>, Seq<char>)) -> Seq<u8> {
    encode_utf8(header.0) + encode_utf8(": "@) + encode_utf8(header.1) + encode_utf8("\r\n"@)
}

/// The lines of those headers that are kept.
pub open spec fn header_block(headers: Seq<(Seq<char>, Seq<char>)>) -> Seq<u8>
    decreases headers.len(),
{
    if headers.len() == 0 {
        seq![]
    } else {
        let rest = header_block(headers.drop_last());
        if keeps_header(headers.last().0) {
            rest + header_line(headers.last())
        } else {
            rest
        }
    }
}

/// The value of the first header of this name.
pub open spec fn first_value(
    headers: Seq<(Seq<char>, Seq<char>)>,
    name: Seq<char>,
) -> Option<Seq<char>>
    decreases headers.len(),
{
    if headers.len() == 0 {
        None
    } else if same_ignoring_case(headers[0].0, name) {
        Some(headers[0].1)
    } else {
        first_value(headers.skip(1), name)
    }
}

/// Whether a cleaned message keeps a header of this name.
pub fn should_keep_header(name: &str) -> (r: bool)
    ensures
        r == keeps_header(name@),
{
    let lowered = to_lower(chars_of(name).as_slice());
    let l = lowered.as_slice();
    if begins_with(l, "arc-") || begins_with(l, "dkim") {
        return false;
    }
    if begins_with(l, "x-") {
        let text = string_of(l);
        return same_text(text.as_str(), "x-received") || begins_with(l, "x-smtp");
    }
    true
}

/// A copy of a header.
fn copy_header(header: &(String, String)) -> (r: (String, String))
    ensures
        r == *header,
{
    (header.0.clone(), header.1.clone())
}

/// The headers that a cleaned message keeps.
pub fn filter_headers(headers: &[(String, String)]) -> (r: Vec<(String, String)>)
    ensures
        pair_texts(r@) == kept_headers(pair_texts(headers@)),
{
    let ghost all = pair_texts(headers@);
    let ghost keep = |h: (Seq<char>, Seq<char>)| keeps_header(h.0);
    let mut out: Vec<(String, String)> = Vec::new();
    let mut i: usize = 0;
    assert(pair_texts(out@) == all.take(0).filter(keep)) by {
        reveal(Seq::filter);
    }
    while i < headers.len()
        invariant
            i <= headers@.len(),
            all == pair_texts(headers@),
            keep == |h: (Seq<char>, Seq<char>)| keeps_header(h.0),
            pair_texts(out@) == all.take(i as int).filter(keep),
        decreases headers@.len() - i,
    {
        let ghost before = pair_texts(out@);
        proof {
            reveal(Seq::filter);
            assert(all.take(i + 1).drop_last() == all.take(i as int));
        }
        if should_keep_header(headers[i].0.as_str()) {
            out.push(copy_header(&headers[i]));
            assert(pair_texts(out@) == before.push(all[i as int]));
        }
        i = i + 1;
    }
    assert(all.take(all.len() as int) == all);
    out
}

/// Removes the headers of this name.
pub fn remove_header(headers: &mut Vec<(String, String)>, name: &str)
    ensures
        pair_texts(final(headers)@) == headers_without(pair_texts(old(headers)@), name@),
{
    let ghost all = pair_texts(headers@);
    let ghost keep = |h: (Seq<char>, Seq<char>)| !same_ignoring_case(h.0, name@);
    let mut out: Vec<(String, String)> = Vec::new();
    let mut i: usize = 0;
    assert(pair_texts(out@) == all.take(0).filter(keep)) by {
        reveal(Seq::filter);
    }
    while i < headers.len()
        invariant
            i <= headers@.len(),
            all == pair_texts(headers@),
            all == pair_texts(old(headers)@),
            keep == |h: (Seq<char>, Seq<char>)| !same_ignoring_case(h.0, name@),
            pair_texts(out@) == all.take(i as int).filter(keep),
        decreases headers@.len() - i,
    {
        let ghost before = pair_texts(out@);
        proof {
            reveal(Seq::filter);
            assert(all.take(i + 1).drop_last() == all.take(i as int));
        }
        if !same_text_ignoring_case(headers[i].0.as_str(), name) {
            out.push(copy_header(&headers[i]));
            assert(pair_texts(out@) == before.push(all[i as int]));
        }
        i = i + 1;
    }
    assert(all.take(all.len() as int) == all);
    *headers = out;
}

/// Appends the lines of those headers that are kept.
pub fn write_headers(output: &mut Vec<u8>, headers: &[(String, String)])
    ensures
        final(output)@ == old(output)@ + header_block(pair_texts(headers@)),
{
    let ghost all = pair_texts(headers@);
    let mut i: usize = 0;
    assert(output@ == old(output)@ + header_block(all.take(0)));
    while i < headers.len()
        invariant
            i <= headers@.len(),
            all == pair_texts(headers@),
            output@ == old(output)@ + header_block(all.take(i as int)),
        decreases headers@.len() - i,
    {
        proof {
            assert(all.take(i + 1).drop_last() == all.take(i as int));
            assert(all.take(i + 1).last() == (headers@[i as int].0@, headers@[i as int].1@));
        }
        let ghost before = output@;
        if should_keep_header(headers[i].0.as_str()) {
            append_bytes(output, headers[i].0.as_str().as_bytes());
            append_bytes(output, ": ".as_bytes());
            append_bytes(output, headers[i].1.as_str().as_bytes());
            append_bytes(output, "\r\n".as_bytes());
            assert(output@ == before + header_line(all[i as int]));
            assert(before + header_line(all[i as int]) == old(output)@ + (header_block(
                all.take(i as int),
            ) + header_line(all[i as int])));
        }
        i = i + 1;
    }
    assert(all.take(all.len() as int) == all);
}

/// The value of the first header of this name.
pub fn header_value<'a>(headers: &'a [(String, String)], name: &str) -> (r: Option<&'a str>)
    ensures
        match r {
            Some(value) => first_value(pair_texts(headers@), name@) == Some(value@),
            None => first_value(pair_texts(headers@), name@) is None,
        },
{
    let ghost all = pair_texts(headers@);
    let mut i: usize = 0;
    assert(all.skip(0) == all);
    while i < headers.len()
        invariant
            i <= headers@.len(),
            all == pair_texts(headers@),
            first_value(all, name@) == first_value(all.skip(i as int), name@),
        decreases headers@.len() - i,
    {
        if same_text_ignoring_case(headers[i].0.as_str(), name) {
            return Some(headers[i].1.as_str());
        }
        assert(all.skip(i as int).skip(1) == all.skip(i + 1));
        i = i + 1;
    }
    None
}

/// Whether a header names the envelope that this receiver wrote.
pub fn has_smtp_receiver_envelope(headers: &[(String, String)]) -> (r: bool)
    ensures
        r == has_envelope(pair_texts(headers@)),
{
    let ghost all = pair_texts(headers@);
    let mut i: usize = 0;
    while i < headers.len()
        invariant
            i <= headers@.len(),
            all == pair_texts(headers@),
            forall|j: int|
                0 <= j < i ==> !starts_with(lower((#[trigger] all[j]).0), "x-smtp-receiver-"@),
        decreases headers@.len() - i,
    {
        let lowered = to_lower(chars_of(headers[i].0.as_str()).as_slice());
        assert(all[i as int].0 == headers@[i as int].0@);
        if begins_with(lowered.as_slice(), "x-smtp-receiver-") {
            return true;
        }
        i = i + 1;
    }
    false
}

// ---------------------------------------------------------------------------
// Content descriptions
// ---------------------------------------------------------------------------
/// The media type of a content type: what stands before its parameters, trimmed
/// and in lower case.
pub open spec fn media_type_of(content_type: Seq<char>) -> Seq<char> {
    lower(trim(split(content_type, ';')[0]))
}

/// The text without the double quotes around it.
pub open spec fn without_quotes(value: Seq<char>) -> Seq<char> {
    match unquoted(value, '"') {
        Some(inner) => inner,
        None => value,
    }
}

/// The value of the first of these parameters that has this name.
pub open spec fn first_parameter(
    parameters: Seq<Seq<char>>,
    name: Seq<char>,
) -> Option<Seq<char>>
    decreases parameters.len(),
{
    if parameters.len() == 0 {
        None
    } else {
        match split_once(parameters[0], '=') {
            Some((n, value)) if same_ignoring_case(trim(n), name) => Some(
                without_quotes(trim(value)),
            ),
            _ => first_parameter(parameters.skip(1), name),
        }
    }
}

/// The value of a header's parameter of this name.
pub open spec fn parameter_of(header: Seq<char>, name: Seq<char>) -> Option<Seq<char>> {
    first_parameter(split(header, ';').skip(1), name)
}

/// Whether a part is handled as an attachment.
pub open spec fn attachment_like(
    headers: Seq<(Seq<char>, Seq<char>)>,
    media_type: Seq<char>,
) -> bool {
    ||| first_value(headers, "content-disposition"@) matches Some(v) && (starts_with(
        lower(v),
        "attachment"@,
    ) || contains(lower(v), "filename="@))
    ||| first_value(headers, "content-type"@) matches Some(v) && contains(lower(v), "name="@)
    ||| !starts_with(media_type, "text/"@) && media_type != "message/rfc822"@
}

/// The header of this name, spelled so, if the part has one.
pub open spec fn header_named(
    headers: Seq<(Seq<char>, Seq<char>)>,
    name: Seq<char>,
) -> Seq<(Seq<char>, Seq<char>)> {
    match first_value(headers, name) {
        Some(value) => seq![(name, value)],
        None => seq![],
    }
}

/// The headers that an attachment keeps.
pub open spec fn attachment_headers(headers: Seq<(Seq<char>, Seq<char>)>) -> Seq<
    (Seq<char>, Seq<char>),
> {
    header_named(headers, "Content-Type"@) + header_named(headers, "Content-Disposition"@)
        + header_named(headers, "Content-Transfer-Encoding"@) + header_named(headers, "Content-ID"@)
}

/// A split text has at least one piece.
pub proof fn lemma_split_nonempty(s: Seq<char>, c: char)
    ensures
        split(s, c).len() > 0,
{
}

/// The media type of a content type.
pub fn media_type(content_type: &str) -> (r: String)
    ensures
        r@ == media_type_of(content_type@),
{
    let chars = chars_of(content_type);
    let pieces = split_chars(chars.as_slice(), ';');
    proof {
        lemma_split_nonempty(content_type@, ';');
        assert(slice_texts(pieces@)[0] == pieces@[0]@);
    }
    let lowered = to_lower(trim_chars(pieces[0]));
    string_of(lowered.as_slice())
}

/// The boundary that a multipart content type names.
pub fn boundary_parameter(content_type: &str) -> (r: Option<String>)
    ensures
        match r {
            Some(boundary) => parameter_of(content_type@, "boundary"@) == Some(boundary@),
            None => parameter_of(content_type@, "boundary"@) is None,
        },
{
    parameter_value(content_type, "boundary")
}

/// The value of a header's parameter.
pub fn parameter_value(header: &str, wanted_name: &str) -> (r: Option<String>)
    ensures
        match r {
            Some(value) => parameter_of(header@, wanted_name@) == Some(value@),
            None => parameter_of(header@, wanted_name@) is None,
        },
{
    let chars = chars_of(header);
    let pieces = split_chars(chars.as_slice(), ';');
    let ghost all = split(header@, ';');
    let mut i: usize = 1;
    proof {
        lemma_split_nonempty(header@, ';');
    }
    while i < pieces.len()
        invariant
            1 <= i <= pieces@.len(),
            slice_texts(pieces@) == all,
            all == split(header@, ';'),
            parameter_of(header@, wanted_name@) == first_parameter(
                all.skip(i as int),
                wanted_name@,
            ),
        decreases pieces@.len() - i,
    {
        let piece = pieces[i];
        assert(all[i as int] == piece@);
        assert(all.skip(i as int)[0] == piece@);
        assert(all.skip(i as int).skip(1) == all.skip(i + 1));
        let equals: usize = position_of(piece, '=');
        if equals < piece.len() {
            let name = string_of(trim_chars(&piece[0..equals]));
            assert(split_once(piece@, '=') == Some(
                (piece@.take(equals as int), piece@.skip(equals + 1)),
            ));
            if same_text_ignoring_case(name.as_str(), wanted_name) {
                let value = string_of(trim_chars(&piece[equals + 1..piece.len()]));
                return Some(trim_quotes(value.as_str()).to_owned());
            }
        }
        i = i + 1;
    }
    None
}

/// The text without the double quotes around it.
pub fn trim_quotes(value: &str) -> (r: &str)
    ensures
        r@ == without_quotes(value@),
{
    let chars = chars_of(value);
    let n: usize = chars.len();
    if n >= 2 && chars[0] == '"' && chars[n - 1] == '"' {
        value.substring_char(1, n - 1)
    } else {
        value
    }
}

/// Whether a part is handled as an attachment.
pub fn is_attachment_like(headers: &[(String, String)], media_type: &str) -> (r: bool)
    ensures
        r == attachment_like(pair_texts(headers@), media_type@),
{
    if let Some(value) = header_value(headers, "content-disposition") {
        let lowered = to_lower(chars_of(value).as_slice());
        if begins_with(lowered.as_slice(), "attachment") || contains_text(
            lowered.as_slice(),
            "filename=",
        ) {
            return true;
        }
    }
    if let Some(value) = header_value(headers, "content-type") {
        let lowered = to_lower(chars_of(value).as_slice());
        if contains_text(lowered.as_slice(), "name=") {
            return true;
        }
    }
    !begins_with(chars_of(media_type).as_slice(), "text/") && !same_text(
        media_type,
        "message/rfc822",
    )
}

/// Adds the header of this name, spelled so, if the part has one.
fn keep_header(
    kept: &mut Vec<(String, String)>,
    headers: &[(String, String)],
    wanted: &str,
)
    ensures
        pair_texts(final(kept)@) == pair_texts(old(kept)@) + header_named(
            pair_texts(headers@),
            wanted@,
        ),
{
    if let Some(value) = header_value(headers, wanted) {
        kept.push((wanted.to_owned(), value.to_owned()));
    }
    assert(pair_texts(kept@) =~= pair_texts(old(kept)@) + header_named(
        pair_texts(headers@),
        wanted@,
    ));
}

/// The headers that an attachment keeps.
pub fn minimal_attachment_headers(headers: &[(String, String)]) -> (r: Vec<(String, String)>)
    ensures
        pair_texts(r@) == attachment_headers(pair_texts(headers@)),
{
    let mut kept: Vec<(String, String)> = Vec::new();
    keep_header(&mut kept, headers, "Content-Type");
    keep_header(&mut kept, headers, "Content-Disposition");
    keep_header(&mut kept, headers, "Content-Transfer-Encoding");
    keep_header(&mut kept, headers, "Content-ID");
    assert(pair_texts(kept@) =~= attachment_headers(pair_texts(headers@)));
    kept
}

// ---------------------------------------------------------------------------
// Laws
// ---------------------------------------------------------------------------
/// A header on a line of its own.
pub proof fn lemma_header_on_line(
    headers: Seq<(Seq<char>, Seq<char>)>,
    name: Seq<char>,
    value: Seq<char>,
)
    requires
        name.len() > 0,
        forall|i: int| 0 <= i < name.len() ==> #[trigger] name[i] != ':',
        !is_white_space(name[0]),
        !is_white_space(name.last()),
    ensures
        with_header_line(headers, name + ": "@ + value) == headers.push((name, trim(value))),
{
    reveal_strlit(": ");
    let line = name + ": "@ + value;
    let n = name.len() as int;
    assert forall|j: int| 0 <= j < n implies line[j] != ':' by {
        assert(line[j] == name[j]);
    }
    lemma_find_char_is(line, ':', n);
    assert(line.take(n) =~= name);
    assert(line.skip(n + 1) =~= seq![' '] + value);
    lemma_trim_start_is(name, 0);
    lemma_trim_end_is(name, n);
    assert(name.skip(0) =~= name);
    assert(name.take(n) =~= name);
    let spaced = seq![' '] + value;
    assert(spaced.skip(1) =~= value);
    assert(trim_start(spaced) == trim_start(value));
}

/// Whether a header can stand on a line of its own: a name without colons, and no
/// white space around it or its value.
pub open spec fn is_plain_header(header: (Seq<char>, Seq<char>)) -> bool {
    &&& header.0.len() > 0
    &&& trim(header.0) == header.0
    &&& is_one_line(header.0)
    &&& forall|i: int| 0 <= i < header.0.len() ==> #[trigger] header.0[i] != ':'
    &&& trim(header.1) == header.1
    &&& is_one_line(header.1)
}

/// The lines of headers as text.
pub open spec fn header_text(headers: Seq<(Seq<char>, Seq<char>)>) -> Seq<char>
    decreases headers.len(),
{
    if headers.len() == 0 {
        Seq::empty()
    } else {
        headers[0].0 + ": "@ + headers[0].1 + "\r\n"@ + header_text(headers.skip(1))
    }
}

/// Headers that are written are text, and are read back from it.
pub proof fn law_written_headers_are_read_back(headers: Seq<(Seq<char>, Seq<char>)>)
    requires
        forall|i: int|
            0 <= i < headers.len() ==> is_plain_header(#[trigger] headers[i]) && keeps_header(
                headers[i].0,
            ),
    ensures
        header_block(headers) == encode_utf8(header_text(headers)),
        headers_in_lines(lines(header_text(headers))) == headers,
{
    lemma_block_is_text(headers);
    lemma_lines_of_headers(headers);
    lemma_headers_of_lines(headers, Seq::empty());
    let none: Seq<(Seq<char>, Seq<char>)> = Seq::empty();
    assert(headers_in_lines(Seq::empty()) =~= none);
    assert(none + headers =~= headers);
    assert(Seq::<Seq<char>>::empty() + own_lines(headers) =~= own_lines(headers));
}

/// One line for each header.
spec fn own_lines(headers: Seq<(Seq<char>, Seq<char>)>) -> Seq<Seq<char>> {
    Seq::new(headers.len(), |i: int| headers[i].0 + ": "@ + headers[i].1)
}

proof fn lemma_block_is_text(headers: Seq<(Seq<char>, Seq<char>)>)
    requires
        forall|i: int| 0 <= i < headers.len() ==> keeps_header((#[trigger] headers[i]).0),
    ensures
        header_block(headers) == encode_utf8(header_text(headers)),
    decreases headers.len(),
{
    if headers.len() > 0 {
        let first = headers[0];
        let rest = headers.skip(1);
        assert forall|i: int| 0 <= i < rest.len() implies keeps_header((#[trigger] rest[i]).0) by {
            assert(rest[i] == headers[i + 1]);
        }
        lemma_block_is_text(rest);
        lemma_block_from_front(headers);
        let start = first.0 + ": "@ + first.1;
        lemma_encode_both(first.0, ": "@);
        lemma_encode_both(first.0 + ": "@, first.1);
        lemma_encode_both(start, "\r\n"@);
        lemma_encode_both(start + "\r\n"@, header_text(rest));
        assert(encode_utf8(header_text(headers)) =~= header_line(first) + header_block(rest));
    } else {
        assert(encode_utf8(Seq::<char>::empty()) =~= Seq::<u8>::empty());
    }
}

proof fn lemma_block_from_front(headers: Seq<(Seq<char>, Seq<char>)>)
    requires
        headers.len() > 0,
        forall|i: int| 0 <= i < headers.len() ==> keeps_header((#[trigger] headers[i]).0),
    ensures
        header_block(headers) == header_line(headers[0]) + header_block(headers.skip(1)),
    decreases headers.len(),
{
    let rest = headers.skip(1);
    assert(keeps_header(headers[headers.len() - 1].0));
    if headers.len() == 1 {
        assert(headers.drop_last() =~= Seq::empty());
        assert(rest =~= Seq::empty());
        assert(header_block(headers) =~= header_line(headers[0]) + header_block(rest));
    } else {
        let before = headers.drop_last();
        assert forall|i: int| 0 <= i < before.len() implies keeps_header((#[trigger] before[i]).0) by {
            assert(before[i] == headers[i]);
        }
        lemma_block_from_front(before);
        assert(before.skip(1) =~= rest.drop_last());
        assert(rest.last() == headers.last());
        assert(header_block(headers) =~= header_line(headers[0]) + header_block(rest));
    }
}

proof fn lemma_lines_of_headers(headers: Seq<(Seq<char>, Seq<char>)>)
    requires
        forall|i: int| 0 <= i < headers.len() ==> is_plain_header(#[trigger] headers[i]),
    ensures
        lines(header_text(headers)) == own_lines(headers),
    decreases headers.len(),
{
    if headers.len() > 0 {
        let first = headers[0];
        let rest = headers.skip(1);
        let line = first.0 + ": "@ + first.1;
        assert forall|i: int| 0 <= i < rest.len() implies is_plain_header(#[trigger] rest[i]) by {
            assert(rest[i] == headers[i + 1]);
        }
        lemma_lines_of_headers(rest);
        reveal_strlit(": ");
        assert forall|i: int| 0 <= i < line.len() implies #[trigger] line[i] != '\n' by {
            let n = first.0.len() as int;
            if i < n {
                assert(line[i] == first.0[i]);
            } else if i >= n + 2 {
                assert(line[i] == first.1[i - n - 2]);
            }
        }
        lemma_line_in_front(line, header_text(rest));
        assert(own_lines(headers) =~= seq![line] + own_lines(rest));
    } else {
        assert(own_lines(headers) =~= Seq::empty());
    }
}

proof fn lemma_headers_of_lines(headers: Seq<(Seq<char>, Seq<char>)>, before: Seq<Seq<char>>)
    requires
        forall|i: int| 0 <= i < headers.len() ==> is_plain_header(#[trigger] headers[i]),
    ensures
        headers_in_lines(before + own_lines(headers)) == headers_in_lines(before) + headers,
    decreases headers.len(),
{
    let all = before + own_lines(headers);
    if headers.len() == 0 {
        assert(all =~= before);
        assert(headers_in_lines(before) + headers =~= headers_in_lines(before));
    } else {
        let fewer = headers.drop_last();
        let last = headers.last();
        assert forall|i: int| 0 <= i < fewer.len() implies is_plain_header(#[trigger] fewer[i]) by {
            assert(fewer[i] == headers[i]);
        }
        assert(is_plain_header(headers[headers.len() - 1]));
        lemma_headers_of_lines(fewer, before);
        assert(all.drop_last() =~= before + own_lines(fewer));
        assert(all.last() == last.0 + ": "@ + last.1);
        lemma_trimmed(last.0);
        lemma_header_on_line(headers_in_lines(before) + fewer, last.0, last.1);
        assert((headers_in_lines(before) + fewer).push(last) =~= headers_in_lines(before)
            + headers);
    }
}

/// A line that begins with a space or a tab continues the last header: its text is added to
/// that header's value behind one space, and nothing else changes. Before the first header
/// it is nothing.
pub proof fn law_folded_line_continues_the_last_value(lines: Seq<Seq<char>>, line: Seq<char>)
    requires
        line.len() > 0,
        line[0] == ' ' || line[0] == '\t',
    ensures
        ({
            let before = headers_in_lines(lines);
            let after = headers_in_lines(lines.push(line));
            &&& after.len() == before.len()
            &&& forall|i: int| 0 <= i < before.len() ==> (#[trigger] after[i]).0 == before[i].0
            &&& forall|i: int| 0 <= i < before.len() - 1 ==> #[trigger] after[i] == before[i]
            &&& before.len() > 0 ==> after.last().1 == before.last().1 + seq![' '] + trim(line)
        }),
{
    assert(lines.push(line).drop_last() =~= lines);
    let before = headers_in_lines(lines);
    if before.len() > 0 {
        assert(before.last().1.push(' ') + trim(line) =~= before.last().1 + seq![' '] + trim(line));
    }
}

/// A value that is folded over any number of lines is read as one, with one space for each
/// fold.
pub proof fn law_folded_value_is_read_whole(
    lines: Seq<Seq<char>>,
    folds: Seq<Seq<char>>,
)
    requires
        headers_in_lines(lines).len() > 0,
        forall|i: int|
            0 <= i < folds.len() ==> (#[trigger] folds[i]).len() > 0 && (folds[i][0] == ' '
                || folds[i][0] == '\t'),
    ensures
        headers_in_lines(lines + folds) == headers_in_lines(lines).drop_last().push(
            (
                headers_in_lines(lines).last().0,
                folds.fold_left(
                    headers_in_lines(lines).last().1,
                    |value: Seq<char>, fold: Seq<char>| value + seq![' '] + trim(fold),
                ),
            ),
        ),
    decreases folds.len(),
{
    let join = |value: Seq<char>, fold: Seq<char>| value + seq![' '] + trim(fold);
    let before = headers_in_lines(lines);
    if folds.len() == 0 {
        assert(lines + folds =~= lines);
        assert(before =~= before.drop_last().push((before.last().0, before.last().1)));
    } else {
        let fewer = folds.drop_last();
        assert forall|i: int| 0 <= i < fewer.len() implies (#[trigger] fewer[i]).len() > 0 && (
        fewer[i][0] == ' ' || fewer[i][0] == '\t') by {
            assert(fewer[i] == folds[i]);
        }
        law_folded_value_is_read_whole(lines, fewer);
        assert(lines + folds =~= (lines + fewer).push(folds.last()));
        assert(folds.last() == folds[folds.len() - 1]);
        law_folded_line_continues_the_last_value(lines + fewer, folds.last());
        let middle = headers_in_lines(lines + fewer);
        let after = headers_in_lines(lines + folds);
        assert(after.last().1 == join(middle.last().1, folds.last()));
        assert(after =~= before.drop_last().push(
            (before.last().0, folds.fold_left(before.last().1, join)),
        ));
    }
}

/// A line with a colon, that does not begin with a space or a tab, is one more header: the
/// text before the first colon is its name, and all behind that its value, both trimmed. A
/// line without a colon, or without a name before it, is none.
pub proof fn law_header_lines(lines: Seq<Seq<char>>, name: Seq<char>, value: Seq<char>)
    requires
        !name.contains(':'),
        name.len() > 0 ==> name[0] != ' ' && name[0] != '\t',
    ensures
        headers_in_lines(Seq::empty()) == Seq::<(Seq<char>, Seq<char>)>::empty(),
        trim(name).len() > 0 ==> headers_in_lines(lines.push(name + seq![':'] + value))
            == headers_in_lines(lines).push((trim(name), trim(value))),
        trim(name).len() == 0 ==> headers_in_lines(lines.push(name + seq![':'] + value))
            == headers_in_lines(lines),
        headers_in_lines(lines.push(name)) == headers_in_lines(lines),
{
    let line = name + seq![':'] + value;
    assert(line =~= name.push(':') + value);
    law_split_at_first(name, ':', value);
    assert(lines.push(line).drop_last() =~= lines);
    assert(lines.push(name).drop_last() =~= lines);
    if name.len() > 0 {
        assert(line[0] == name[0]);
    } else {
        assert(line[0] == ':');
    }
    assert(headers_in_lines(Seq::empty()) =~= Seq::<(Seq<char>, Seq<char>)>::empty());
}

/// Of the headers, those are dropped whose name begins, in any case, with `arc-`, `dkim`
/// or `x-`; but `x-received`, and what begins with `x-smtp`, is kept.
pub proof fn law_dropped_headers(name: Seq<char>)
    ensures
        keeps_header(name) <==> {
            let l = lower(name);
            let arc = l.len() >= 4 && l[0] == 'a' && l[1] == 'r' && l[2] == 'c' && l[3] == '-';
            let dkim = l.len() >= 4 && l[0] == 'd' && l[1] == 'k' && l[2] == 'i' && l[3] == 'm';
            let x = l.len() >= 2 && l[0] == 'x' && l[1] == '-';
            let smtp = x && l.len() >= 6 && l[2] == 's' && l[3] == 'm' && l[4] == 't' && l[5]
                == 'p';
            let received = l == seq!['x', '-', 'r', 'e', 'c', 'e', 'i', 'v', 'e', 'd'];
            !arc && !dkim && (!x || smtp || received)
        },
{
    let l = lower(name);
    reveal_strlit("arc-");
    reveal_strlit("dkim");
    reveal_strlit("x-");
    reveal_strlit("x-smtp");
    reveal_strlit("x-received");
    assert("x-received"@ =~= seq!['x', '-', 'r', 'e', 'c', 'e', 'i', 'v', 'e', 'd']);
    if l.len() >= 2 {
        assert(l.take(2)[0] == l[0] && l.take(2)[1] == l[1]);
        assert(l[0] == 'x' && l[1] == '-' ==> l.take(2) =~= "x-"@);
    }
    if l.len() >= 4 {
        assert(l.take(4)[0] == l[0] && l.take(4)[1] == l[1] && l.take(4)[2] == l[2] && l.take(4)[3]
            == l[3]);
        assert(l[0] == 'a' && l[1] == 'r' && l[2] == 'c' && l[3] == '-' ==> l.take(4) =~= "arc-"@);
        assert(l[0] == 'd' && l[1] == 'k' && l[2] == 'i' && l[3] == 'm' ==> l.take(4) =~= "dkim"@);
    }
    if l.len() >= 6 {
        assert(l.take(6)[2] == l[2] && l.take(6)[3] == l[3] && l.take(6)[4] == l[4] && l.take(6)[5]
            == l[5]);
        assert(l[0] == 'x' && l[1] == '-' && l[2] == 's' && l[3] == 'm' && l[4] == 't' && l[5]
            == 'p' ==> l.take(6) =~= "x-smtp"@);
    }
}

/// Headers are kept, removed and written one by one, in their order, each as it is.
pub proof fn law_headers_are_taken_one_by_one(
    headers: Seq<(Seq<char>, Seq<char>)>,
    header: (Seq<char>, Seq<char>),
    name: Seq<char>,
)
    ensures
        kept_headers(Seq::empty()) == Seq::<(Seq<char>, Seq<char>)>::empty(),
        kept_headers(headers.push(header)) == if keeps_header(header.0) {
            kept_headers(headers).push(header)
        } else {
            kept_headers(headers)
        },
        headers_without(Seq::empty(), name) == Seq::<(Seq<char>, Seq<char>)>::empty(),
        headers_without(headers.push(header), name) == if lower(header.0) == lower(name) {
            headers_without(headers, name)
        } else {
            headers_without(headers, name).push(header)
        },
        header_block(Seq::empty()) == Seq::<u8>::empty(),
        header_block(headers.push(header)) == if keeps_header(header.0) {
            header_block(headers) + encode_utf8(
                header.0 + seq![':', ' '] + header.1 + seq!['\r', '\n'],
            )
        } else {
            header_block(headers)
        },
        has_envelope(Seq::empty()) == false,
        has_envelope(headers.push(header)) <==> has_envelope(headers) || starts_with(
            lower(header.0),
            seq!['x', '-', 's', 'm', 't', 'p', '-', 'r', 'e', 'c', 'e', 'i', 'v', 'e', 'r', '-'],
        ),
{
    reveal(Seq::filter);
    let more = headers.push(header);
    assert(more.drop_last() =~= headers);
    reveal_strlit(": ");
    reveal_strlit("\r\n");
    assert(": "@ =~= seq![':', ' ']);
    assert("\r\n"@ =~= seq!['\r', '\n']);
    lemma_encode_both(header.0, ": "@);
    lemma_encode_both(header.0 + ": "@, header.1);
    lemma_encode_both(header.0 + ": "@ + header.1, "\r\n"@);
    reveal_strlit("x-smtp-receiver-");
    assert("x-smtp-receiver-"@ =~= seq![
        'x', '-', 's', 'm', 't', 'p', '-', 'r', 'e', 'c', 'e', 'i', 'v', 'e', 'r', '-',
    ]);
    if has_envelope(headers) {
        let i = choose|i: int|
            0 <= i < headers.len() && starts_with(
                lower((#[trigger] headers[i]).0),
                "x-smtp-receiver-"@,
            );
        assert(more[i] == headers[i]);
    }
    if has_envelope(more) {
        let i = choose|i: int|
            0 <= i < more.len() && starts_with(
                lower((#[trigger] more[i]).0),
                "x-smtp-receiver-"@,
            );
        if i < headers.len() {
            assert(more[i] == headers[i]);
        }
    }
    assert(more[headers.len() as int] == header);
}

/// A header's value is that of the first of its name, in any case.
pub proof fn law_first_header_of_a_name(
    before: Seq<(Seq<char>, Seq<char>)>,
    header: (Seq<char>, Seq<char>),
    behind: Seq<(Seq<char>, Seq<char>)>,
    name: Seq<char>,
)
    requires
        forall|i: int| 0 <= i < before.len() ==> lower((#[trigger] before[i]).0) != lower(name),
    ensures
        first_value(before, name) is None,
        lower(header.0) == lower(name) ==> first_value(before.push(header) + behind, name) == Some(
            header.1,
        ),
        lower(header.0) != lower(name) ==> first_value(before.push(header) + behind, name)
            == first_value(before + behind, name),
    decreases before.len(),
{
    let all = before.push(header) + behind;
    if before.len() == 0 {
        assert(all[0] == header);
        assert(all.skip(1) =~= behind);
        assert(before + behind =~= behind);
    } else {
        let rest = before.skip(1);
        assert(all[0] == before[0]);
        assert(all.skip(1) =~= rest.push(header) + behind);
        assert((before + behind)[0] == before[0]);
        assert((before + behind).skip(1) =~= rest + behind);
        assert forall|i: int| 0 <= i < rest.len() implies lower((#[trigger] rest[i]).0) != lower(
            name,
        ) by {
            assert(rest[i] == before[i + 1]);
        }
        law_first_header_of_a_name(rest, header, behind, name);
    }
}

/// The media type is what stands before the first semicolon, in lower case and without the
/// white space around it.
pub proof fn law_media_type(
    front: Seq<char>,
    media: Seq<char>,
    back: Seq<char>,
    parameters: Seq<char>,
)
    requires
        forall|i: int| 0 <= i < front.len() ==> is_white_space(#[trigger] front[i]),
        forall|i: int| 0 <= i < back.len() ==> is_white_space(#[trigger] back[i]),
        media.len() > 0 ==> !is_white_space(media[0]) && !is_white_space(media.last()),
        !media.contains(';'),
    ensures
        media_type_of(front + media + back) == lower(media),
        media_type_of(front + media + back + seq![';'] + parameters) == lower(media),
{
    let all = front + media + back;
    assert(!all.contains(';')) by {
        if all.contains(';') {
            let i = choose|i: int| 0 <= i < all.len() && all[i] == ';';
            let f = front.len() as int;
            if i < f {
                assert(all[i] == front[i]);
            } else if i < f + media.len() {
                assert(all[i] == media[i - f]);
                assert(media.contains(';'));
            } else {
                assert(all[i] == back[i - f - media.len()]);
            }
        }
    }
    law_split_at_first(all, ';', parameters);
    assert(all + seq![';'] + parameters =~= all.push(';') + parameters);
    law_trim_takes_off_white_space(front, media, back);
}

/// The parameters of a header stand behind its first semicolon, one before each further
/// semicolon. The value is that of the first whose name, trimmed, is the wanted one in any
/// case; it is trimmed, and the double quotes round it are taken off.
pub proof fn law_parameters(
    start: Seq<char>,
    own: Seq<char>,
    value: Seq<char>,
    rest: Seq<char>,
    name: Seq<char>,
)
    requires
        !start.contains(';'),
        !own.contains(';'),
        !own.contains('='),
        !value.contains(';'),
    ensures
        parameter_of(start, name) is None,
        ({
            let only = start + seq![';'] + own + seq!['='] + value;
            let first = only + seq![';'] + rest;
            if lower(trim(own)) == lower(name) {
                &&& parameter_of(only, name) == Some(without_quotes(trim(value)))
                &&& parameter_of(first, name) == Some(without_quotes(trim(value)))
            } else {
                &&& parameter_of(only, name) is None
                &&& parameter_of(first, name) == parameter_of(start + seq![';'] + rest, name)
            }
        }),
        parameter_of(start + seq![';'] + own, name) is None,
        parameter_of(start + seq![';'] + own + seq![';'] + rest, name) == parameter_of(
            start + seq![';'] + rest,
            name,
        ),
{
    let piece = own + seq!['='] + value;
    assert(!piece.contains(';')) by {
        if piece.contains(';') {
            let i = choose|i: int| 0 <= i < piece.len() && piece[i] == ';';
            if i < own.len() {
                assert(piece[i] == own[i]);
                assert(own.contains(';'));
            } else if i > own.len() {
                assert(piece[i] == value[i - own.len() - 1]);
                assert(value.contains(';'));
            }
        }
    }
    lemma_parameter_pieces(start, piece, rest, name);
    lemma_parameter_pieces(start, own, rest, name);
    assert(piece =~= own.push('=') + value);
    law_split_at_first(own, '=', value);
    let only = start + seq![';'] + own + seq!['='] + value;
    assert(only =~= start + seq![';'] + piece);
}

/// The parameters of a header are the pieces behind its first semicolon.
proof fn lemma_parameter_pieces(
    start: Seq<char>,
    piece: Seq<char>,
    rest: Seq<char>,
    name: Seq<char>,
)
    requires
        !start.contains(';'),
        !piece.contains(';'),
    ensures
        parameter_of(start, name) is None,
        ({
            let more = parameter_of(start + seq![';'] + rest, name);
            let only = parameter_of(start + seq![';'] + piece, name);
            let first = parameter_of(start + seq![';'] + piece + seq![';'] + rest, name);
            match split_once(piece, '=') {
                Some((own, value)) => if lower(trim(own)) == lower(name) {
                    only == Some(without_quotes(trim(value))) && first == only
                } else {
                    only is None && first == more
                },
                None => only is None && first == more,
            }
        }),
{
    let none: Seq<Seq<char>> = Seq::empty();
    let others = split(rest, ';');
    let behind = piece.push(';') + rest;
    law_split_at_first(start, ';', rest);
    law_split_at_first(start, ';', piece);
    law_split_at_first(start, ';', behind);
    law_split_at_first(piece, ';', rest);
    assert(split(start, ';').skip(1) =~= none);
    assert((seq![start] + others).skip(1) =~= others);
    assert((seq![start] + seq![piece]).skip(1) =~= seq![piece]);
    assert((seq![start] + (seq![piece] + others)).skip(1) =~= seq![piece] + others);
    assert(start + seq![';'] + rest =~= start.push(';') + rest);
    assert(start + seq![';'] + piece =~= start.push(';') + piece);
    assert(start + seq![';'] + piece + seq![';'] + rest =~= start.push(';') + behind);
    lemma_first_parameter(piece, none, name);
    lemma_first_parameter(piece, others, name);
    assert(seq![piece] + none =~= seq![piece]);
    assert(first_parameter(none, name) is None);
}

proof fn lemma_first_parameter(piece: Seq<char>, others: Seq<Seq<char>>, name: Seq<char>)
    ensures
        first_parameter(seq![piece] + others, name) == match split_once(piece, '=') {
            Some((own, value)) => if lower(trim(own)) == lower(name) {
                Some(without_quotes(trim(value)))
            } else {
                first_parameter(others, name)
            },
            None => first_parameter(others, name),
        },
{
    let all = seq![piece] + others;
    assert(all[0] == piece);
    assert(all.skip(1) =~= others);
}

/// Double quotes are taken off where there is one at each end, and a text without is left.
pub proof fn law_quotes_are_taken_off(inner: Seq<char>)
    ensures
        without_quotes(seq!['"'] + inner + seq!['"']) == inner,
        inner.len() < 2 || inner[0] != '"' || inner.last() != '"' ==> without_quotes(inner)
            == inner,
{
    law_quotes(inner, inner, '"');
}

/// A part is an attachment exactly where its disposition begins with `attachment` or holds
/// `filename=`, where its content type holds `name=`, in any case, or where its media type
/// is neither a text nor a message.
pub proof fn law_attachments(headers: Seq<(Seq<char>, Seq<char>)>, media_type: Seq<char>)
    ensures
        attachment_like(headers, media_type) <==> {
            ||| first_value(headers, "Content-Disposition"@) matches Some(v) && starts_with(
                lower(v),
                seq!['a', 't', 't', 'a', 'c', 'h', 'm', 'e', 'n', 't'],
            )
            ||| first_value(headers, "Content-Disposition"@) matches Some(v) && contains(
                lower(v),
                seq!['f', 'i', 'l', 'e', 'n', 'a', 'm', 'e', '='],
            )
            ||| first_value(headers, "Content-Type"@) matches Some(v) && contains(
                lower(v),
                seq!['n', 'a', 'm', 'e', '='],
            )
            ||| !(starts_with(media_type, seq!['t', 'e', 'x', 't', '/']) || media_type == seq![
                'm', 'e', 's', 's', 'a', 'g', 'e', '/', 'r', 'f', 'c', '8', '2', '2',
            ])
        },
{
    reveal_strlit("attachment");
    reveal_strlit("filename=");
    reveal_strlit("name=");
    reveal_strlit("text/");
    reveal_strlit("message/rfc822");
    assert("attachment"@ =~= seq!['a', 't', 't', 'a', 'c', 'h', 'm', 'e', 'n', 't']);
    assert("filename="@ =~= seq!['f', 'i', 'l', 'e', 'n', 'a', 'm', 'e', '=']);
    assert("name="@ =~= seq!['n', 'a', 'm', 'e', '=']);
    assert("text/"@ =~= seq!['t', 'e', 'x', 't', '/']);
    assert("message/rfc822"@ =~= seq![
        'm', 'e', 's', 's', 'a', 'g', 'e', '/', 'r', 'f', 'c', '8', '2', '2',
    ]);
    lemma_content_names();
    lemma_first_value_in_any_case(headers, "Content-Disposition"@, "content-disposition"@);
    lemma_first_value_in_any_case(headers, "Content-Type"@, "content-type"@);
}

/// A header is found by its name in any case.
pub proof fn lemma_first_value_in_any_case(
    headers: Seq<(Seq<char>, Seq<char>)>,
    name: Seq<char>,
    other: Seq<char>,
)
    requires
        lower(name) == lower(other),
    ensures
        first_value(headers, name) == first_value(headers, other),
    decreases headers.len(),
{
    if headers.len() > 0 {
        lemma_first_value_in_any_case(headers.skip(1), name, other);
    }
}

/// The names of the headers that describe content, in two spellings.
pub proof fn lemma_content_names()
    ensures
        lower("Content-Type"@) == lower("content-type"@),
        lower("Content-Disposition"@) == lower("content-disposition"@),
        lower("Content-Transfer-Encoding"@) == lower("content-transfer-encoding"@),
        lower("Content-ID"@) == lower("content-id"@),
        lower("Content-Type"@).len() == 12,
        lower("Content-Disposition"@).len() == 19,
        lower("Content-Transfer-Encoding"@).len() == 25,
        lower("Content-ID"@).len() == 10,
{
    reveal_strlit("Content-Type");
    reveal_strlit("Content-Disposition");
    reveal_strlit("Content-Transfer-Encoding");
    reveal_strlit("Content-ID");
    reveal_strlit("content-type");
    reveal_strlit("content-disposition");
    reveal_strlit("content-transfer-encoding");
    reveal_strlit("content-id");
    assert(lower("Content-Type"@) =~= lower("content-type"@));
    assert(lower("Content-Disposition"@) =~= lower("content-disposition"@));
    assert(lower("Content-Transfer-Encoding"@) =~= lower("content-transfer-encoding"@));
    assert(lower("Content-ID"@) =~= lower("content-id"@));
}

/// Of a part's headers an attachment keeps the four that describe its content, each with
/// its value, and no other.
pub proof fn law_attachment_keeps_four_headers(
    headers: Seq<(Seq<char>, Seq<char>)>,
    name: Seq<char>,
)
    ensures
        lower(name) == lower("content-type"@) || lower(name) == lower("content-disposition"@)
            || lower(name) == lower("content-transfer-encoding"@) || lower(name) == lower(
            "content-id"@,
        ) ==> first_value(attachment_headers(headers), name) == first_value(headers, name),
        lower(name) != lower("content-type"@) && lower(name) != lower("content-disposition"@)
            && lower(name) != lower("content-transfer-encoding"@) && lower(name) != lower(
            "content-id"@,
        ) ==> first_value(attachment_headers(headers), name) is None,
        attachment_headers(headers).len() <= 4,
        attachment_headers(headers).len() == 4 ==> attachment_headers(headers) == seq![
            ("Content-Type"@, first_value(headers, "content-type"@)->0),
            ("Content-Disposition"@, first_value(headers, "content-disposition"@)->0),
            ("Content-Transfer-Encoding"@, first_value(headers, "content-transfer-encoding"@)->0),
            ("Content-ID"@, first_value(headers, "content-id"@)->0),
        ],
{
    lemma_content_names();
    lemma_first_value_in_any_case(headers, "Content-Type"@, "content-type"@);
    lemma_first_value_in_any_case(headers, "Content-Disposition"@, "content-disposition"@);
    lemma_first_value_in_any_case(
        headers,
        "Content-Transfer-Encoding"@,
        "content-transfer-encoding"@,
    );
    lemma_first_value_in_any_case(headers, "Content-ID"@, "content-id"@);
    if lower(name) == lower("Content-Type"@) {
        lemma_first_value_in_any_case(headers, name, "Content-Type"@);
    }
    if lower(name) == lower("Content-Disposition"@) {
        lemma_first_value_in_any_case(headers, name, "Content-Disposition"@);
    }
    if lower(name) == lower("Content-Transfer-Encoding"@) {
        lemma_first_value_in_any_case(headers, name, "Content-Transfer-Encoding"@);
    }
    if lower(name) == lower("Content-ID"@) {
        lemma_first_value_in_any_case(headers, name, "Content-ID"@);
    }
    let a = header_named(headers, "Content-Type"@);
    let b = header_named(headers, "Content-Disposition"@);
    let c = header_named(headers, "Content-Transfer-Encoding"@);
    let d = header_named(headers, "Content-ID"@);
    lemma_first_value_of_both(a + b + c, d, name);
    lemma_first_value_of_both(a + b, c, name);
    lemma_first_value_of_both(a, b, name);
    lemma_first_value_of_named(headers, "Content-Type"@, name);
    lemma_first_value_of_named(headers, "Content-Disposition"@, name);
    lemma_first_value_of_named(headers, "Content-Transfer-Encoding"@, name);
    lemma_first_value_of_named(headers, "Content-ID"@, name);
}

proof fn lemma_first_value_of_both(
    a: Seq<(Seq<char>, Seq<char>)>,
    b: Seq<(Seq<char>, Seq<char>)>,
    name: Seq<char>,
)
    ensures
        first_value(a + b, name) == match first_value(a, name) {
            Some(value) => Some(value),
            None => first_value(b, name),
        },
    decreases a.len(),
{
    if a.len() == 0 {
        assert(a + b =~= b);
    } else {
        assert((a + b)[0] == a[0]);
        assert((a + b).skip(1) =~= a.skip(1) + b);
        lemma_first_value_of_both(a.skip(1), b, name);
    }
}

proof fn lemma_first_value_of_named(
    headers: Seq<(Seq<char>, Seq<char>)>,
    own: Seq<char>,
    name: Seq<char>,
)
    ensures
        first_value(header_named(headers, own), name) == if lower(own) == lower(name) {
            first_value(headers, own)
        } else {
            None
        },
{
    reveal_with_fuel(first_value, 2);
}

} // verus!
