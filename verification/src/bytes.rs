//! Bytes of a message: searching, line endings and the border between headers
//! and body.
use vstd::prelude::*;
use vstd::utf8::encode_utf8;

verus! {

/// Whether `needle` stands at position `i` of `hay`.
pub open spec fn bytes_at(hay: Seq<u8>, needle: Seq<u8>, i: int) -> bool {
    0 <= i && i + needle.len() <= hay.len() && hay.subrange(i, i + needle.len()) == needle
}

/// The first position at which `needle` stands.
pub open spec fn first_bytes(hay: Seq<u8>, needle: Seq<u8>) -> Option<nat>
    decreases hay.len(),
{
    if hay.len() < needle.len() {
        None
    } else if bytes_at(hay, needle, 0) {
        Some(0)
    } else if hay.len() == 0 {
        None
    } else {
        match first_bytes(hay.skip(1), needle) {
            Some(i) => Some(1 + i),
            None => None,
        }
    }
}

/// `first_bytes` finds an occurrence before which there is none, and finds one
/// whenever there is one.
pub proof fn lemma_first_bytes(hay: Seq<u8>, needle: Seq<u8>)
    ensures
        match first_bytes(hay, needle) {
            Some(i) => bytes_at(hay, needle, i as int) && forall|j: int|
                0 <= j < i ==> !bytes_at(hay, needle, j),
            None => forall|j: int| !bytes_at(hay, needle, j),
        },
    decreases hay.len(),
{
    if hay.len() >= needle.len() && !bytes_at(hay, needle, 0) && hay.len() > 0 {
        let rest = hay.skip(1);
        lemma_first_bytes(rest, needle);
        assert forall|j: int| 1 <= j implies bytes_at(hay, needle, j) == bytes_at(
            rest,
            needle,
            j - 1,
        ) by {
            if j + needle.len() <= hay.len() {
                assert(hay.subrange(j, j + needle.len()) == rest.subrange(
                    j - 1,
                    j - 1 + needle.len(),
                ));
            }
        }
        assert forall|j: int| bytes_at(hay, needle, j) implies j >= 1 by {
        }
    }
}

pub proof fn lemma_first_bytes_is(hay: Seq<u8>, needle: Seq<u8>, i: int)
    requires
        bytes_at(hay, needle, i),
        forall|j: int| 0 <= j < i ==> !bytes_at(hay, needle, j),
    ensures
        first_bytes(hay, needle) == Some(i as nat),
{
    lemma_first_bytes(hay, needle);
    let k = first_bytes(hay, needle)->0 as int;
    if k < i {
        assert(!bytes_at(hay, needle, k));
    } else if i < k {
        assert(!bytes_at(hay, needle, i));
    }
}

/// CR LF CR LF.
pub open spec fn crlf_crlf() -> Seq<u8> {
    seq![13u8, 10u8, 13u8, 10u8]
}

/// LF LF.
pub open spec fn lf_lf() -> Seq<u8> {
    seq![10u8, 10u8]
}

/// A message's headers and body. They are parted by the first empty line, with
/// CR LF endings if there is such a line and with LF endings otherwise; without
/// an empty line all is headers.
pub open spec fn headers_and_body(message: Seq<u8>) -> (Seq<u8>, Seq<u8>) {
    match first_bytes(message, crlf_crlf()) {
        Some(i) => (message.take(i as int), message.skip(i as int + 4)),
        None => match first_bytes(message, lf_lf()) {
            Some(i) => (message.take(i as int), message.skip(i as int + 2)),
            None => (message, Seq::empty()),
        },
    }
}

/// How long the line ending at the end of these bytes is.
pub open spec fn line_ending_len(line: Seq<u8>) -> int {
    if line.len() >= 2 && line[line.len() - 2] == 13 && line[line.len() - 1] == 10 {
        2
    } else if line.len() >= 1 && line[line.len() - 1] == 10 {
        1
    } else {
        0
    }
}

/// The line without its ending.
pub open spec fn without_line_ending(line: Seq<u8>) -> Seq<u8> {
    line.take(line.len() - line_ending_len(line))
}

/// ASCII white space: space, tab, line feed, form feed and carriage return.
pub open spec fn is_ascii_space(b: u8) -> bool {
    b == 32 || b == 9 || b == 10 || b == 12 || b == 13
}

/// Whether a line ends the data of a message: a single dot.
pub open spec fn is_terminator(line: Seq<u8>) -> bool {
    without_line_ending(line) == seq![46u8]
}

/// How long the first line is, with its line feed if it has one.
pub open spec fn first_line_len(s: Seq<u8>) -> nat
    decreases s.len(),
{
    if s.len() == 0 {
        0
    } else if s[0] == 10 {
        1
    } else {
        1 + first_line_len(s.skip(1))
    }
}

/// The first line has a line feed at its end, unless the text ends with it, and
/// none before.
pub proof fn lemma_first_line_len(s: Seq<u8>)
    ensures
        first_line_len(s) <= s.len(),
        s.len() > 0 ==> first_line_len(s) > 0,
        0 < first_line_len(s) < s.len() ==> s[first_line_len(s) - 1] == 10,
        forall|j: int| 0 <= j < first_line_len(s) - 1 ==> s[j] != 10,
    decreases s.len(),
{
    if s.len() > 0 && s[0] != 10 {
        let rest = s.skip(1);
        lemma_first_line_len(rest);
        assert forall|j: int| 0 <= j < first_line_len(s) - 1 implies s[j] != 10 by {
            if j > 0 {
                assert(s[j] == rest[j - 1]);
            }
        }
    }
}

pub proof fn lemma_first_line_len_is(s: Seq<u8>, n: int)
    requires
        0 < n <= s.len(),
        forall|j: int| 0 <= j < n - 1 ==> s[j] != 10,
        n < s.len() ==> s[n - 1] == 10,
    ensures
        first_line_len(s) == n,
    decreases n,
{
    if n > 1 {
        lemma_first_line_len_is(s.skip(1), n - 1);
    } else if n == s.len() {
        assert(first_line_len(s.skip(1)) == 0);
    }
}

/// Whether bytes are one line of at least one byte with a CR LF ending.
pub open spec fn is_line(bytes: Seq<u8>) -> bool {
    let n = bytes.len() as int;
    &&& n >= 3
    &&& bytes[n - 2] == 13
    &&& bytes[n - 1] == 10
    &&& forall|p: int| 0 <= p < n - 1 ==> #[trigger] bytes[p] != 10
}

/// Whether bytes end with a line, and none of their lines is empty.
pub open spec fn are_lines(bytes: Seq<u8>) -> bool {
    let n = bytes.len() as int;
    &&& n >= 2
    &&& bytes[n - 2] == 13
    &&& bytes[n - 1] == 10
    &&& forall|p: int| 0 <= p < n - 2 && bytes[p] == 10 ==> #[trigger] bytes[p + 2] != 10
}

/// One more line behind lines, or behind nothing.
pub proof fn lemma_lines_grow(before: Seq<u8>, line: Seq<u8>)
    requires
        before.len() == 0 || are_lines(before),
        is_line(line),
    ensures
        are_lines(before + line),
{
    let lines = before + line;
    let m = before.len() as int;
    let n = lines.len() as int;
    assert forall|p: int| 0 <= p < n - 2 && lines[p] == 10 implies #[trigger] lines[p + 2] != 10 by {
        if p < m - 2 {
            assert(lines[p] == before[p]);
            assert(lines[p + 2] == before[p + 2]);
        } else if p < m {
            assert(lines[p] == before[p]);
            assert(lines[p + 2] == line[p + 2 - m]);
        } else {
            assert(lines[p] == line[p - m]);
        }
    }
}

/// Lines and an empty line are the headers of what follows.
pub proof fn lemma_empty_line_ends_headers(lines: Seq<u8>, body: Seq<u8>)
    requires
        are_lines(lines),
    ensures
        headers_and_body(lines + seq![13u8, 10u8] + body) == (lines.take(lines.len() - 2), body),
{
    let content = lines + seq![13u8, 10u8] + body;
    let n = lines.len() as int;
    assert(content.subrange(n - 2, n + 2) =~= crlf_crlf());
    assert forall|j: int| 0 <= j < n - 2 implies !bytes_at(content, crlf_crlf(), j) by {
        if bytes_at(content, crlf_crlf(), j) {
            let found = content.subrange(j, j + 4);
            assert(found == crlf_crlf());
            assert(found[1] == content[j + 1]);
            assert(found[3] == content[j + 3]);
            assert(lines[j + 1] == 10);
            if j + 3 < n {
                let p = j + 1;
                assert(lines[p + 2] == content[j + 3]);
            } else {
                assert(content[n] == 13);
            }
        }
    }
    lemma_first_bytes_is(content, crlf_crlf(), n - 2);
    assert(content.take(n - 2) =~= lines.take(n - 2));
    assert(content.skip(n + 2) =~= body);
}

/// Whether two byte slices are equal.
pub fn same_bytes(a: &[u8], b: &[u8]) -> (r: bool)
    ensures
        r == (a@ == b@),
{
    if a.len() != b.len() {
        return false;
    }
    let mut i: usize = 0;
    while i < a.len()
        invariant
            i <= a@.len(),
            a@.len() == b@.len(),
            forall|j: int| 0 <= j < i ==> a@[j] == b@[j],
        decreases a@.len() - i,
    {
        if a[i] != b[i] {
            return false;
        }
        i = i + 1;
    }
    assert(a@ =~= b@);
    true
}

/// A copy of the bytes.
pub fn copy_bytes(bytes: &[u8]) -> (r: Vec<u8>)
    ensures
        r@ == bytes@,
{
    let mut out: Vec<u8> = Vec::new();
    append_bytes(&mut out, bytes);
    out
}

/// Appends the bytes to the buffer.
pub fn append_bytes(out: &mut Vec<u8>, bytes: &[u8])
    ensures
        final(out)@ == old(out)@ + bytes@,
{
    out.extend_from_slice(bytes);
    assert(out@ =~= old(out)@ + bytes@);
}

/// Appends a text's bytes.
pub fn append_text(output: &mut Vec<u8>, text: &str)
    ensures
        final(output)@ == old(output)@ + encode_utf8(text@),
{
    append_bytes(output, text.as_bytes());
}

/// The first position at which `needle` stands in `haystack`.
pub fn find_bytes(haystack: &[u8], needle: &[u8]) -> (r: Option<usize>)
    requires
        needle@.len() > 0,
    ensures
        match r {
            Some(i) => first_bytes(haystack@, needle@) == Some(i as nat) && i + needle@.len()
                <= haystack@.len(),
            None => first_bytes(haystack@, needle@) is None,
        },
{
    let mut i: usize = 0;
    while i < haystack.len() && needle.len() <= haystack.len() - i
        invariant
            needle@.len() > 0,
            i <= haystack@.len(),
            forall|j: int| 0 <= j < i ==> !bytes_at(haystack@, needle@, j),
        decreases haystack@.len() - i,
    {
        if same_bytes(&haystack[i..i + needle.len()], needle) {
            proof {
                lemma_first_bytes_is(haystack@, needle@, i as int);
            }
            return Some(i);
        }
        i = i + 1;
    }
    proof {
        lemma_first_bytes(haystack@, needle@);
    }
    None
}

/// A message's headers and body.
pub fn split_headers_body(message: &[u8]) -> (r: (&[u8], &[u8]))
    ensures
        r.0@ == headers_and_body(message@).0,
        r.1@ == headers_and_body(message@).1,
{
    let total: usize = message.len();
    let crlf: [u8; 4] = [13, 10, 13, 10];
    let lf: [u8; 2] = [10, 10];
    assert(crlf@ == crlf_crlf());
    assert(lf@ == lf_lf());
    if let Some(index) = find_bytes(message, crlf.as_slice()) {
        return (&message[0..index], &message[index + 4..total]);
    }
    if let Some(index) = find_bytes(message, lf.as_slice()) {
        return (&message[0..index], &message[index + 2..total]);
    }
    let empty: &[u8] = &message[0..0];
    assert(empty@ == Seq::<u8>::empty());
    (message, empty)
}

/// The line without the line ending that closes it.
pub fn trim_line_ending(line: &[u8]) -> (r: &[u8])
    ensures
        r@ == without_line_ending(line@),
{
    let n: usize = previous_line_ending_len(line, line.len());
    assert(line@.take(line@.len() as int) == line@);
    &line[0..line.len() - n]
}

/// How long the line ending is that stands right before `offset`.
pub fn previous_line_ending_len(body: &[u8], offset: usize) -> (r: usize)
    requires
        offset <= body@.len(),
    ensures
        r == line_ending_len(body@.take(offset as int)),
        r <= offset,
{
    if offset >= 2 && body[offset - 2] == 13 && body[offset - 1] == 10 {
        2
    } else if offset >= 1 && body[offset - 1] == 10 {
        1
    } else {
        0
    }
}

/// The bytes that are not ASCII white space.
pub fn without_ascii_whitespace(bytes: &[u8]) -> (r: Vec<u8>)
    ensures
        r@ == bytes@.filter(|b: u8| !is_ascii_space(b)),
{
    let ghost keep = |b: u8| !is_ascii_space(b);
    let mut out: Vec<u8> = Vec::new();
    let mut i: usize = 0;
    assert(bytes@.take(0).filter(keep) == Seq::<u8>::empty()) by {
        reveal(Seq::filter);
    }
    while i < bytes.len()
        invariant
            i <= bytes@.len(),
            keep == |b: u8| !is_ascii_space(b),
            out@ == bytes@.take(i as int).filter(keep),
        decreases bytes@.len() - i,
    {
        let b: u8 = bytes[i];
        proof {
            reveal(Seq::filter);
            assert(bytes@.take(i + 1).drop_last() == bytes@.take(i as int));
        }
        if !(b == 32 || b == 9 || b == 10 || b == 12 || b == 13) {
            out.push(b);
        }
        i = i + 1;
    }
    assert(bytes@.take(bytes@.len() as int) == bytes@);
    out
}

/// Whether a line ends the data of a message.
pub fn is_data_terminator(line: &[u8]) -> (r: bool)
    ensures
        r == is_terminator(line@),
{
    let text = trim_line_ending(line);
    assert(text@.len() == 1 && text@[0] == 46 ==> text@ =~= seq![46u8]);
    text.len() == 1 && text[0] == 46
}

// ---------------------------------------------------------------------------
// Laws
// ---------------------------------------------------------------------------
/// A line's ending is CR LF or LF; it is taken off once, and nothing else is.
pub proof fn law_line_endings(line: Seq<u8>)
    ensures
        without_line_ending(line + seq![13u8, 10u8]) == line,
        line.len() == 0 || line.last() != 13 ==> without_line_ending(line + seq![10u8]) == line,
        line.len() == 0 || line.last() != 10 ==> without_line_ending(line) == line,
{
    assert(without_line_ending(line + seq![13u8, 10u8]) =~= line);
    if line.len() == 0 || line.last() != 13 {
        assert(without_line_ending(line + seq![10u8]) =~= line);
    }
    if line.len() == 0 || line.last() != 10 {
        assert(without_line_ending(line) =~= line);
    }
}

/// The data of a message ends with a dot on a line of its own, whatever ends that line,
/// and with no other line.
pub proof fn law_terminator(line: Seq<u8>)
    ensures
        is_terminator(line) <==> line == seq![46u8] || line == seq![46u8, 10u8] || line == seq![
            46u8,
            13u8,
            10u8,
        ],
{
    let dot = seq![46u8];
    if is_terminator(line) {
        let n = line_ending_len(line);
        assert(line[0] == without_line_ending(line)[0]);
        assert(line.len() == 1 + n);
        if n == 0 {
            assert(line =~= seq![46u8]);
        } else if n == 1 {
            assert(line =~= seq![46u8, 10u8]);
        } else {
            assert(line =~= seq![46u8, 13u8, 10u8]);
        }
    }
    assert(without_line_ending(seq![46u8]) =~= dot);
    assert(without_line_ending(seq![46u8, 10u8]) =~= dot);
    assert(without_line_ending(seq![46u8, 13u8, 10u8]) =~= dot);
}

/// The headers of a message end at its first CR LF CR LF.
pub proof fn law_headers_end_at_an_empty_line(message: Seq<u8>, headers: Seq<u8>, body: Seq<u8>)
    requires
        message == headers + seq![13u8, 10u8, 13u8, 10u8] + body,
        forall|j: int|
            0 <= j < headers.len() ==> !(#[trigger] message[j] == 13 && message[j + 1] == 10
                && message[j + 2] == 13 && message[j + 3] == 10),
    ensures
        headers_and_body(message) == (headers, body),
{
    let n = headers.len() as int;
    let mark = crlf_crlf();
    assert(message.subrange(n, n + 4) =~= mark);
    assert forall|j: int| 0 <= j < n implies !bytes_at(message, mark, j) by {
        if bytes_at(message, mark, j) {
            let found = message.subrange(j, j + 4);
            assert(found[0] == message[j]);
            assert(found[1] == message[j + 1]);
            assert(found[2] == message[j + 2]);
            assert(found[3] == message[j + 3]);
        }
    }
    lemma_first_bytes_is(message, mark, n);
    assert(message.take(n) =~= headers);
    assert(message.skip(n + 4) =~= body);
}

/// Without a CR LF CR LF they end at the first LF LF; and without that all is headers.
pub proof fn law_headers_end_at_a_bare_empty_line(
    message: Seq<u8>,
    headers: Seq<u8>,
    body: Seq<u8>,
)
    requires
        message == headers + seq![10u8, 10u8] + body || (message == headers && body.len() == 0),
        message == headers || headers.len() == 0 || headers.last() != 10,
        forall|j: int|
            0 <= j < headers.len() - 1 ==> !(#[trigger] headers[j] == 10 && headers[j + 1] == 10),
        forall|j: int|
            0 <= j < message.len() - 3 ==> !(#[trigger] message[j] == 13 && message[j + 1] == 10
                && message[j + 2] == 13 && message[j + 3] == 10),
    ensures
        headers_and_body(message) == (headers, body),
{
    let n = headers.len() as int;
    lemma_no_crlf_crlf(message);
    assert forall|j: int| 0 <= j < n implies !bytes_at(message, lf_lf(), j) by {
        if bytes_at(message, lf_lf(), j) {
            let found = message.subrange(j, j + 2);
            assert(found[0] == message[j] && found[1] == message[j + 1]);
            assert(headers[j] == 10);
            assert(j < n - 1 ==> headers[j + 1] == 10);
        }
    }
    if message == headers {
        lemma_first_bytes(message, lf_lf());
        assert(body =~= Seq::empty());
    } else {
        assert(message.subrange(n, n + 2) =~= lf_lf());
        lemma_first_bytes_is(message, lf_lf(), n);
        assert(message.take(n) =~= headers);
        assert(message.skip(n + 2) =~= body);
    }
}

proof fn lemma_no_crlf_crlf(message: Seq<u8>)
    requires
        forall|j: int|
            0 <= j < message.len() - 3 ==> !(#[trigger] message[j] == 13 && message[j + 1] == 10
                && message[j + 2] == 13 && message[j + 3] == 10),
    ensures
        first_bytes(message, crlf_crlf()) is None,
{
    lemma_first_bytes(message, crlf_crlf());
    assert forall|j: int| !bytes_at(message, crlf_crlf(), j) by {
        if bytes_at(message, crlf_crlf(), j) {
            let found = message.subrange(j, j + 4);
            assert(found[0] == message[j] && found[1] == message[j + 1]);
            assert(found[2] == message[j + 2] && found[3] == message[j + 3]);
        }
    }
}

/// Bytes are found at their first occurrence, and nowhere where they do not occur.
pub proof fn law_first_occurrence(hay: Seq<u8>, needle: Seq<u8>, i: int)
    requires
        0 <= i <= hay.len() - needle.len(),
    ensures
        first_bytes(hay, needle) == Some(i as nat) <==> hay.subrange(i, i + needle.len()) == needle
            && forall|j: int| 0 <= j < i ==> #[trigger] hay.subrange(j, j + needle.len()) != needle,
        hay.subrange(i, i + needle.len()) == needle ==> first_bytes(hay, needle) is Some,
        first_bytes(hay, needle) matches Some(found) ==> found + needle.len() <= hay.len(),
{
    lemma_first_bytes(hay, needle);
    if hay.subrange(i, i + needle.len()) == needle {
        assert(bytes_at(hay, needle, i));
        if forall|j: int| 0 <= j < i ==> #[trigger] hay.subrange(j, j + needle.len()) != needle {
            lemma_first_bytes_is(hay, needle, i);
        }
    }
    if first_bytes(hay, needle) == Some(i as nat) {
        assert forall|j: int| 0 <= j < i implies #[trigger] hay.subrange(j, j + needle.len())
            != needle by {
            assert(!bytes_at(hay, needle, j));
        }
    }
}

} // verus!
