//! The bytes of texts, and their lines.
use crate::text::{
    find_char, is_white_space, lemma_find_char, lemma_find_char_is, lemma_trim_end_is,
    lemma_trim_start_is, lemma_trimmed, lines, strip_carriage_return, trim, trim_end, trim_start,
};
use vstd::prelude::*;
use vstd::utf8::{
    char_u32_cast, decode_first_scalar, encode_scalar, encode_utf8, encode_utf8_first_scalar,
    is_continuation_byte,
};

verus! {

/// Whether a text has no line feed.
pub open spec fn is_one_line(text: Seq<char>) -> bool {
    forall|i: int| 0 <= i < text.len() ==> #[trigger] text[i] != '\n'
}

/// CR LF as bytes.
pub proof fn lemma_crlf()
    ensures
        encode_utf8("\r\n"@) == seq![13u8, 10u8],
{
    reveal_strlit("\r\n");
    let text = "\r\n"@;
    reveal_with_fuel(encode_utf8, 3);
    assert(text.drop_first() =~= seq!['\n']);
    assert(text.drop_first().drop_first() =~= Seq::empty());
    lemma_small_scalar('\r');
    lemma_small_scalar('\n');
    assert(encode_utf8(text) =~= seq![13u8, 10u8]);
}

/// An ASCII character is encoded as one byte.
pub proof fn lemma_small_scalar(c: char)
    requires
        c < '\u{80}',
    ensures
        encode_scalar(c as u32) == seq![c as u8],
{
    let s = c as u32;
    assert(s < 0x80 ==> (s & 0x7f) as u8 == s as u8) by (bit_vector);
}

/// The bytes of a text on one line have no line feed.
pub proof fn lemma_no_line_feed(text: Seq<char>)
    requires
        is_one_line(text),
    ensures
        forall|j: int| 0 <= j < encode_utf8(text).len() ==> #[trigger] encode_utf8(text)[j] != 10,
    decreases text.len(),
{
    if text.len() > 0 {
        let bytes = encode_utf8(text);
        let first = encode_scalar(text[0] as u32);
        let rest = text.drop_first();
        assert forall|i: int| 0 <= i < rest.len() implies #[trigger] rest[i] != '\n' by {
            assert(rest[i] == text[i + 1]);
        }
        lemma_no_line_feed(rest);
        encode_utf8_first_scalar(text);
        assert(10u8 & 0x7f == 10) by (bit_vector);
        assert forall|j: int| 0 <= j < bytes.len() implies #[trigger] bytes[j] != 10 by {
            if j >= first.len() {
                assert(bytes[j] == encode_utf8(rest)[j - first.len()]);
            } else if j == 0 {
                if bytes[0] == 10 {
                    assert(decode_first_scalar(bytes) == 10);
                    char_u32_cast(text[0], 10);
                    char_u32_cast('\n', 10);
                }
            } else {
                assert(is_continuation_byte(bytes[j]));
            }
        }
    }
}

/// The bytes of two texts are those of the texts put together.
pub proof fn lemma_encode_both(a: Seq<char>, b: Seq<char>)
    ensures
        encode_utf8(a + b) == encode_utf8(a) + encode_utf8(b),
    decreases a.len(),
{
    if a.len() == 0 {
        assert(a + b =~= b);
        assert(encode_utf8(a) + encode_utf8(b) =~= encode_utf8(b));
    } else {
        lemma_encode_both(a.drop_first(), b);
        assert((a + b).drop_first() =~= a.drop_first() + b);
        assert(encode_utf8(a + b) =~= encode_utf8(a) + encode_utf8(b));
    }
}

/// One more line behind a text that does not end with a line.
pub proof fn lemma_one_more_line(text: Seq<char>, line: Seq<char>)
    requires
        text.len() > 0,
        text.last() != '\n',
        line.len() > 0,
        is_one_line(line),
    ensures
        lines(text + "\r\n"@ + line) == lines(text).push(line),
    decreases text.len(),
{
    reveal_strlit("\r\n");
    let whole = text + "\r\n"@ + line;
    let i = find_char(text, '\n') as int;
    lemma_find_char(text, '\n');
    if i < text.len() {
        let rest = text.skip(i + 1);
        assert(rest.last() == text.last());
        lemma_one_more_line(rest, line);
        lemma_find_char_is(whole, '\n', i);
        assert(whole.take(i) =~= text.take(i));
        assert(whole.skip(i + 1) =~= rest + "\r\n"@ + line);
        assert(lines(whole) =~= lines(text).push(line));
    } else {
        let n = text.len() as int;
        assert forall|j: int| 0 <= j < n + 1 implies whole[j] != '\n' by {
            if j < n {
                assert(whole[j] == text[j]);
            }
        }
        lemma_find_char_is(whole, '\n', n + 1);
        assert(whole.take(n + 1).drop_last() =~= text);
        assert(strip_carriage_return(whole.take(n + 1)) == text);
        assert(whole.skip(n + 2) =~= line);
        lemma_find_char(line, '\n');
        assert(lines(line) =~= seq![line]);
        assert(lines(whole) =~= lines(text).push(line));
    }
}

/// A line in front of a text.
pub proof fn lemma_line_in_front(line: Seq<char>, rest: Seq<char>)
    requires
        is_one_line(line),
    ensures
        lines(line + "\r\n"@ + rest) == seq![line] + lines(rest),
{
    reveal_strlit("\r\n");
    let whole = line + "\r\n"@ + rest;
    let n = line.len() as int;
    assert forall|j: int| 0 <= j < n + 1 implies whole[j] != '\n' by {
        if j < n {
            assert(whole[j] == line[j]);
        }
    }
    lemma_find_char_is(whole, '\n', n + 1);
    assert(whole.take(n + 1).drop_last() =~= line);
    assert(strip_carriage_return(whole.take(n + 1)) == line);
    assert(whole.skip(n + 2) =~= rest);
}

/// The ending of the last line does not matter.
pub proof fn lemma_last_ending_is_optional(text: Seq<char>)
    requires
        text.len() > 0,
        text.last() != '\n',
    ensures
        lines(text + "\r\n"@) == lines(text),
    decreases text.len(),
{
    reveal_strlit("\r\n");
    let whole = text + "\r\n"@;
    let n = text.len() as int;
    let i = find_char(text, '\n') as int;
    lemma_find_char(text, '\n');
    if i < n {
        let rest = text.skip(i + 1);
        assert(rest.last() == text.last());
        lemma_last_ending_is_optional(rest);
        lemma_find_char_is(whole, '\n', i);
        assert(whole.take(i) =~= text.take(i));
        assert(whole.skip(i + 1) =~= rest + "\r\n"@);
    } else {
        assert forall|j: int| 0 <= j < n + 1 implies whole[j] != '\n' by {
            if j < n {
                assert(whole[j] == text[j]);
            }
        }
        lemma_find_char_is(whole, '\n', n + 1);
        assert(whole.take(n + 1).drop_last() =~= text);
        assert(strip_carriage_return(whole.take(n + 1)) == text);
        assert(whole.skip(n + 2) =~= Seq::empty());
        assert(lines(Seq::empty()) =~= Seq::empty());
        assert(lines(text) =~= seq![text]);
        assert(lines(whole) =~= seq![text] + lines(whole.skip(n + 2)));
        assert(lines(whole) =~= lines(text));
    }
}

/// Every line of a text stands on one line.
pub proof fn lemma_lines_are_lines(text: Seq<char>)
    ensures
        forall|i: int| 0 <= i < lines(text).len() ==> is_one_line(#[trigger] lines(text)[i]),
    decreases text.len(),
{
    let k = find_char(text, '\n') as int;
    lemma_find_char(text, '\n');
    if text.len() > 0 && k < text.len() {
        let rest = text.skip(k + 1);
        lemma_lines_are_lines(rest);
        let first = strip_carriage_return(text.take(k));
        assert forall|i: int| 0 <= i < lines(text).len() implies is_one_line(
            #[trigger] lines(text)[i],
        ) by {
            if i == 0 {
                assert(lines(text)[0] == first);
            } else {
                assert(lines(text)[i] == lines(rest)[i - 1]);
            }
        }
    } else if text.len() > 0 {
        assert(lines(text) == seq![text]);
        assert(is_one_line(text));
    }
}

/// Trimmed text stays on one line, and there is nothing more to trim.
pub proof fn lemma_trim_stays_on_line(text: Seq<char>)
    ensures
        is_one_line(text) ==> is_one_line(trim(text)),
        trim(trim(text)) == trim(text),
{
    let inner = trim(text);
    lemma_trim_start_stays(text);
    lemma_trim_end_stays(trim_start(text));
    lemma_trimmed(text);
    lemma_trim_start_is(inner, 0);
    assert(inner.skip(0) =~= inner);
    lemma_trim_end_is(inner, inner.len() as int);
    assert(inner.take(inner.len() as int) =~= inner);
}

proof fn lemma_trim_start_stays(text: Seq<char>)
    ensures
        is_one_line(text) ==> is_one_line(trim_start(text)),
    decreases text.len(),
{
    if text.len() > 0 && is_white_space(text[0]) {
        lemma_trim_start_stays(text.skip(1));
    }
}

proof fn lemma_trim_end_stays(text: Seq<char>)
    ensures
        is_one_line(text) ==> is_one_line(trim_end(text)),
    decreases text.len(),
{
    if text.len() > 0 && is_white_space(text.last()) {
        lemma_trim_end_stays(text.drop_last());
    }
}

} // verus!
