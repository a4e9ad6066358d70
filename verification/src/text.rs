//! Text as sequences of characters: what trimming, splitting, case folding and
//! searching mean, and functions that do them.
use vstd::prelude::*;

verus! {

/// `String::push`: appends the character to the end of the string.
pub assume_specification[ String::push ](s: &mut String, c: char)
    ensures
        final(s)@ == old(s)@.push(c),
;

// ---------------------------------------------------------------------------
// What the operations mean
// ---------------------------------------------------------------------------
/// The characters with the Unicode `White_Space` property.
pub open spec fn is_white_space(c: char) -> bool {
    ||| '\u{9}' <= c <= '\u{d}'
    ||| c == ' '
    ||| c == '\u{85}'
    ||| c == '\u{a0}'
    ||| c == '\u{1680}'
    ||| '\u{2000}' <= c <= '\u{200a}'
    ||| c == '\u{2028}'
    ||| c == '\u{2029}'
    ||| c == '\u{202f}'
    ||| c == '\u{205f}'
    ||| c == '\u{3000}'
}

/// The ASCII lower case of a character; other characters stay.
pub open spec fn lower_char(c: char) -> char {
    if 'A' <= c <= 'Z' {
        ((c as u8 + 32) as u8) as char
    } else {
        c
    }
}

/// The ASCII upper case of a character; other characters stay.
pub open spec fn upper_char(c: char) -> char {
    if 'a' <= c <= 'z' {
        ((c as u8 - 32) as u8) as char
    } else {
        c
    }
}

/// Every character in ASCII lower case.
pub open spec fn lower(s: Seq<char>) -> Seq<char> {
    Seq::new(s.len(), |i: int| lower_char(s[i]))
}

/// Every character in ASCII upper case.
pub open spec fn upper(s: Seq<char>) -> Seq<char> {
    Seq::new(s.len(), |i: int| upper_char(s[i]))
}

/// Equality up to ASCII case.
pub open spec fn same_ignoring_case(a: Seq<char>, b: Seq<char>) -> bool {
    lower(a) == lower(b)
}

/// The text without its leading white space.
pub open spec fn trim_start(s: Seq<char>) -> Seq<char>
    decreases s.len(),
{
    if s.len() > 0 && is_white_space(s[0]) {
        trim_start(s.skip(1))
    } else {
        s
    }
}

/// The text without its trailing white space.
pub open spec fn trim_end(s: Seq<char>) -> Seq<char>
    decreases s.len(),
{
    if s.len() > 0 && is_white_space(s.last()) {
        trim_end(s.drop_last())
    } else {
        s
    }
}

/// The text without white space at either end.
pub open spec fn trim(s: Seq<char>) -> Seq<char> {
    trim_end(trim_start(s))
}

/// The text without any leading `c`.
pub open spec fn trim_start_char(s: Seq<char>, c: char) -> Seq<char>
    decreases s.len(),
{
    if s.len() > 0 && s[0] == c {
        trim_start_char(s.skip(1), c)
    } else {
        s
    }
}

/// The text without any trailing `c`.
pub open spec fn trim_end_char(s: Seq<char>, c: char) -> Seq<char>
    decreases s.len(),
{
    if s.len() > 0 && s.last() == c {
        trim_end_char(s.drop_last(), c)
    } else {
        s
    }
}

/// The first position that holds `c`, or the length if none does.
pub open spec fn find_char(s: Seq<char>, c: char) -> nat
    decreases s.len(),
{
    if s.len() == 0 || s[0] == c {
        0
    } else {
        1 + find_char(s.skip(1), c)
    }
}

/// What stands before and after the first `c`, if there is one.
pub open spec fn split_once(s: Seq<char>, c: char) -> Option<(Seq<char>, Seq<char>)> {
    let i = find_char(s, c) as int;
    if i < s.len() {
        Some((s.take(i), s.skip(i + 1)))
    } else {
        None
    }
}

/// The pieces between the occurrences of `c`.
pub open spec fn split(s: Seq<char>, c: char) -> Seq<Seq<char>>
    decreases s.len(),
{
    let i = find_char(s, c) as int;
    if i < s.len() {
        seq![s.take(i)] + split(s.skip(i + 1), c)
    } else {
        seq![s]
    }
}

/// A line without the carriage return that ends it.
pub open spec fn strip_carriage_return(line: Seq<char>) -> Seq<char> {
    if line.len() > 0 && line.last() == '\r' {
        line.drop_last()
    } else {
        line
    }
}

/// The lines of a text. A line ends in a line feed, which a carriage return may
/// precede; the last line may have no ending, and then keeps all it holds.
pub open spec fn lines(s: Seq<char>) -> Seq<Seq<char>>
    decreases s.len(),
{
    let i = find_char(s, '\n') as int;
    if s.len() == 0 {
        seq![]
    } else if i < s.len() {
        seq![strip_carriage_return(s.take(i))] + lines(s.skip(i + 1))
    } else {
        seq![s]
    }
}

/// Whether `s` begins with `prefix`.
pub open spec fn starts_with(s: Seq<char>, prefix: Seq<char>) -> bool {
    prefix.len() <= s.len() && s.take(prefix.len() as int) == prefix
}

/// Whether `needle` stands at position `i` of `s`.
pub open spec fn occurs_at(s: Seq<char>, needle: Seq<char>, i: int) -> bool {
    0 <= i && i + needle.len() <= s.len() && s.subrange(i, i + needle.len()) == needle
}

/// Whether `needle` occurs somewhere in `s`.
pub open spec fn contains(s: Seq<char>, needle: Seq<char>) -> bool {
    exists|i: int| occurs_at(s, needle, i)
}

/// What `quote` encloses, if the text begins and ends with its own `quote`.
pub open spec fn unquoted(s: Seq<char>, quote: char) -> Option<Seq<char>> {
    if s.len() >= 2 && s[0] == quote && s.last() == quote {
        Some(s.subrange(1, s.len() - 1))
    } else {
        None
    }
}

/// The characters before the first white space.
pub open spec fn leading_word(s: Seq<char>) -> Seq<char>
    decreases s.len(),
{
    if s.len() == 0 || is_white_space(s[0]) {
        seq![]
    } else {
        seq![s[0]] + leading_word(s.skip(1))
    }
}

/// The first word between white space; empty if there is none.
pub open spec fn first_word(s: Seq<char>) -> Seq<char> {
    leading_word(trim_start(s))
}

/// The decimal digit for `d`.
pub open spec fn digit_char(d: nat) -> char {
    ((48 + d) as u8) as char
}

/// A number written in decimal, without leading zeros.
pub open spec fn decimal(n: nat) -> Seq<char>
    decreases n,
{
    if n < 10 {
        seq![digit_char(n)]
    } else {
        decimal(n / 10).push(digit_char(n % 10))
    }
}

/// The text of an optional string.
pub open spec fn optional_text(v: Option<String>) -> Option<Seq<char>> {
    match v {
        Some(text) => Some(text@),
        None => None,
    }
}

/// The texts that a sequence of strings holds.
pub open spec fn texts(v: Seq<String>) -> Seq<Seq<char>> {
    Seq::new(v.len(), |i: int| v[i]@)
}

/// The texts that a sequence of character slices holds.
pub open spec fn slice_texts(v: Seq<&[char]>) -> Seq<Seq<char>> {
    Seq::new(v.len(), |i: int| v[i]@)
}

/// The texts that a sequence of string pairs holds.
pub open spec fn pair_texts(v: Seq<(String, String)>) -> Seq<(Seq<char>, Seq<char>)> {
    Seq::new(v.len(), |i: int| (v[i].0@, v[i].1@))
}

// ---------------------------------------------------------------------------
// Facts
// ---------------------------------------------------------------------------
/// `find_char` is the one position before which `c` does not occur and at which
/// it does, or the length.
pub proof fn lemma_find_char(s: Seq<char>, c: char)
    ensures
        find_char(s, c) <= s.len(),
        find_char(s, c) < s.len() ==> s[find_char(s, c) as int] == c,
        forall|j: int| 0 <= j < find_char(s, c) ==> s[j] != c,
    decreases s.len(),
{
    if s.len() > 0 && s[0] != c {
        let rest = s.skip(1);
        lemma_find_char(rest, c);
        assert forall|j: int| 0 <= j < find_char(s, c) implies s[j] != c by {
            if j > 0 {
                assert(s[j] == rest[j - 1]);
            }
        }
    }
}

pub proof fn lemma_find_char_is(s: Seq<char>, c: char, i: int)
    requires
        0 <= i <= s.len(),
        forall|j: int| 0 <= j < i ==> s[j] != c,
        i < s.len() ==> s[i] == c,
    ensures
        find_char(s, c) == i,
{
    lemma_find_char(s, c);
    let k = find_char(s, c) as int;
    if k < i {
        assert(s[k] != c);
    } else if i < k {
        assert(s[i] != c);
    }
}

/// Where no white space stands at either end, trimming changes nothing.
pub proof fn lemma_trim_start_is(s: Seq<char>, i: int)
    requires
        0 <= i <= s.len(),
        forall|j: int| 0 <= j < i ==> is_white_space(s[j]),
        i < s.len() ==> !is_white_space(s[i]),
    ensures
        trim_start(s) == s.skip(i),
    decreases i,
{
    if i == 0 {
        assert(s.skip(0) == s);
    } else {
        lemma_trim_start_is(s.skip(1), i - 1);
        assert(s.skip(1).skip(i - 1) == s.skip(i));
    }
}

pub proof fn lemma_trim_end_is(s: Seq<char>, n: int)
    requires
        0 <= n <= s.len(),
        forall|j: int| n <= j < s.len() ==> is_white_space(s[j]),
        n > 0 ==> !is_white_space(s[n - 1]),
    ensures
        trim_end(s) == s.take(n),
    decreases s.len() - n,
{
    if n == s.len() {
        assert(s.take(n) == s);
    } else {
        lemma_trim_end_is(s.drop_last(), n);
        assert(s.drop_last().take(n) == s.take(n));
    }
}

/// Trimmed text has no white space at either end.
pub proof fn lemma_trimmed(s: Seq<char>)
    ensures
        trim(s).len() > 0 ==> !is_white_space(trim(s)[0]) && !is_white_space(trim(s).last()),
{
    lemma_trimmed_start(s);
    lemma_trimmed_end(trim_start(s));
}

proof fn lemma_trimmed_start(s: Seq<char>)
    ensures
        trim_start(s).len() > 0 ==> !is_white_space(trim_start(s)[0]),
    decreases s.len(),
{
    if s.len() > 0 && is_white_space(s[0]) {
        lemma_trimmed_start(s.skip(1));
    }
}

proof fn lemma_trimmed_end(s: Seq<char>)
    ensures
        trim_end(s).len() > 0 ==> !is_white_space(trim_end(s).last()) && trim_end(s)[0] == s[0],
        trim_end(s).len() <= s.len(),
    decreases s.len(),
{
    if s.len() > 0 && is_white_space(s.last()) {
        lemma_trimmed_end(s.drop_last());
    }
}

/// A number in decimal has digits only.
pub proof fn lemma_decimal_digits(n: nat)
    ensures
        decimal(n).len() > 0,
        forall|i: int| 0 <= i < decimal(n).len() ==> '0' <= #[trigger] decimal(n)[i] <= '9',
    decreases n,
{
    if n >= 10 {
        lemma_decimal_digits(n / 10);
    }
}

/// No two numbers are the same in decimal.
pub proof fn lemma_decimal_injective(a: nat, b: nat)
    requires
        decimal(a) == decimal(b),
    ensures
        a == b,
    decreases a,
{
    lemma_decimal_digits(a / 10);
    lemma_decimal_digits(b / 10);
    assert(decimal(a).last() == digit_char(a % 10));
    assert(decimal(b).last() == digit_char(b % 10));
    if a >= 10 && b >= 10 {
        assert(decimal(a).drop_last() =~= decimal(a / 10));
        assert(decimal(b).drop_last() =~= decimal(b / 10));
        lemma_decimal_injective(a / 10, b / 10);
    }
}

/// Trimming brings in no character.
pub proof fn lemma_trim_keeps(s: Seq<char>, c: char)
    ensures
        !s.contains(c) ==> !trim(s).contains(c),
{
    lemma_trim_start_keeps(s, c);
    lemma_trim_end_keeps(trim_start(s), c);
}

proof fn lemma_trim_start_keeps(s: Seq<char>, c: char)
    ensures
        !s.contains(c) ==> !trim_start(s).contains(c),
    decreases s.len(),
{
    if s.len() > 0 && is_white_space(s[0]) {
        lemma_trim_start_keeps(s.skip(1), c);
        assert forall|i: int| 0 <= i < s.skip(1).len() implies s.contains(
            #[trigger] s.skip(1)[i],
        ) by {
            assert(s[i + 1] == s.skip(1)[i]);
        }
    }
}

proof fn lemma_trim_end_keeps(s: Seq<char>, c: char)
    ensures
        !s.contains(c) ==> !trim_end(s).contains(c),
    decreases s.len(),
{
    if s.len() > 0 && is_white_space(s.last()) {
        lemma_trim_end_keeps(s.drop_last(), c);
        assert forall|i: int| 0 <= i < s.drop_last().len() implies s.contains(
            #[trigger] s.drop_last()[i],
        ) by {
            assert(s[i] == s.drop_last()[i]);
        }
    }
}

proof fn lemma_trim_start_char_is(s: Seq<char>, c: char, i: int)
    requires
        0 <= i <= s.len(),
        forall|j: int| 0 <= j < i ==> s[j] == c,
        i < s.len() ==> s[i] != c,
    ensures
        trim_start_char(s, c) == s.skip(i),
    decreases i,
{
    if i == 0 {
        assert(s.skip(0) == s);
    } else {
        lemma_trim_start_char_is(s.skip(1), c, i - 1);
        assert(s.skip(1).skip(i - 1) == s.skip(i));
    }
}

proof fn lemma_trim_end_char_is(s: Seq<char>, c: char, n: int)
    requires
        0 <= n <= s.len(),
        forall|j: int| n <= j < s.len() ==> s[j] == c,
        n > 0 ==> s[n - 1] != c,
    ensures
        trim_end_char(s, c) == s.take(n),
    decreases s.len() - n,
{
    if n == s.len() {
        assert(s.take(n) == s);
    } else {
        lemma_trim_end_char_is(s.drop_last(), c, n);
        assert(s.drop_last().take(n) == s.take(n));
    }
}

proof fn lemma_leading_word_is(s: Seq<char>, n: int)
    requires
        0 <= n <= s.len(),
        forall|j: int| 0 <= j < n ==> !is_white_space(s[j]),
        n < s.len() ==> is_white_space(s[n]),
    ensures
        leading_word(s) == s.take(n),
    decreases n,
{
    if n == 0 {
        assert(s.take(0) == Seq::<char>::empty());
    } else {
        lemma_leading_word_is(s.skip(1), n - 1);
        assert(seq![s[0]] + s.skip(1).take(n - 1) == s.take(n));
    }
}

// ---------------------------------------------------------------------------
// Operations
// ---------------------------------------------------------------------------
/// The characters of a string.
pub fn chars_of(s: &str) -> (r: Vec<char>)
    ensures
        r@ == s@,
{
    let mut out: Vec<char> = Vec::new();
    for c in it: s.chars()
        invariant
            it.seq() == s@,
            out@ == s@.take(it.index()),
    {
        out.push(c);
    }
    out
}

/// The string of these characters.
pub fn string_of(cs: &[char]) -> (r: String)
    ensures
        r@ == cs@,
{
    let mut out = String::new();
    let mut i: usize = 0;
    while i < cs.len()
        invariant
            i <= cs@.len(),
            out@ == cs@.take(i as int),
        decreases cs@.len() - i,
    {
        out.push(cs[i]);
        i = i + 1;
    }
    out
}

/// Whether a character is white space.
pub fn is_space(c: char) -> (r: bool)
    ensures
        r == is_white_space(c),
{
    ('\u{9}' <= c && c <= '\u{d}') || c == ' ' || c == '\u{85}' || c == '\u{a0}' || c == '\u{1680}'
        || ('\u{2000}' <= c && c <= '\u{200a}') || c == '\u{2028}' || c == '\u{2029}' || c
        == '\u{202f}' || c == '\u{205f}' || c == '\u{3000}'
}

fn to_lower_char(c: char) -> (r: char)
    ensures
        r == lower_char(c),
{
    if 'A' <= c && c <= 'Z' {
        (c as u8 + 32) as char
    } else {
        c
    }
}

fn to_upper_char(c: char) -> (r: char)
    ensures
        r == upper_char(c),
{
    if 'a' <= c && c <= 'z' {
        (c as u8 - 32) as char
    } else {
        c
    }
}

/// The characters in ASCII lower case.
pub fn to_lower(s: &[char]) -> (r: Vec<char>)
    ensures
        r@ == lower(s@),
{
    let mut out: Vec<char> = Vec::new();
    let mut i: usize = 0;
    while i < s.len()
        invariant
            i <= s@.len(),
            out@ == lower(s@).take(i as int),
        decreases s@.len() - i,
    {
        out.push(to_lower_char(s[i]));
        i = i + 1;
    }
    out
}

/// The characters in ASCII upper case.
pub fn to_upper(s: &[char]) -> (r: Vec<char>)
    ensures
        r@ == upper(s@),
{
    let mut out: Vec<char> = Vec::new();
    let mut i: usize = 0;
    while i < s.len()
        invariant
            i <= s@.len(),
            out@ == upper(s@).take(i as int),
        decreases s@.len() - i,
    {
        out.push(to_upper_char(s[i]));
        i = i + 1;
    }
    out
}

/// The string in ASCII lower case.
pub fn lower_string(s: &str) -> (r: String)
    ensures
        r@ == lower(s@),
{
    let chars = chars_of(s);
    let lowered = to_lower(chars.as_slice());
    string_of(lowered.as_slice())
}

/// Whether two character slices are equal.
pub fn same_chars(a: &[char], b: &[char]) -> (r: bool)
    ensures
        r == (a@ == b@),
{
    if a.len() != b.len() {
        return false;
    }
    let mut i: usize = 0;
    while i < a.len()
        invariant
            i <= a@.len(),
            a@.len() == b@.len(),
            forall|j: int| 0 <= j < i ==> a@[j] == b@[j],
        decreases a@.len() - i,
    {
        if a[i] != b[i] {
            return false;
        }
        i = i + 1;
    }
    assert(a@ =~= b@);
    true
}

/// Whether two strings hold the same text.
pub fn same_text(a: &str, b: &str) -> (r: bool)
    ensures
        r == (a@ == b@),
{
    let x = chars_of(a);
    let y = chars_of(b);
    same_chars(x.as_slice(), y.as_slice())
}

/// Whether two strings hold the same text up to ASCII case.
pub fn same_text_ignoring_case(a: &str, b: &str) -> (r: bool)
    ensures
        r == same_ignoring_case(a@, b@),
{
    let x = to_lower(chars_of(a).as_slice());
    let y = to_lower(chars_of(b).as_slice());
    same_chars(x.as_slice(), y.as_slice())
}

/// The slice without leading white space.
pub fn trim_start_chars(s: &[char]) -> (r: &[char])
    ensures
        r@ == trim_start(s@),
{
    let mut i: usize = 0;
    while i < s.len() && is_space(s[i])
        invariant
            i <= s@.len(),
            forall|j: int| 0 <= j < i ==> is_white_space(s@[j]),
        decreases s@.len() - i,
    {
        i = i + 1;
    }
    proof {
        lemma_trim_start_is(s@, i as int);
    }
    &s[i..s.len()]
}

/// The slice without white space at either end.
pub fn trim_chars(s: &[char]) -> (r: &[char])
    ensures
        r@ == trim(s@),
{
    let head = trim_start_chars(s);
    let mut n: usize = head.len();
    while n > 0 && is_space(head[n - 1])
        invariant
            n <= head@.len(),
            forall|j: int| n <= j < head@.len() ==> is_white_space(head@[j]),
        decreases n,
    {
        n = n - 1;
    }
    proof {
        lemma_trim_end_is(head@, n as int);
    }
    &head[0..n]
}

/// The slice without any leading `c`.
pub fn trim_start_matching(s: &[char], c: char) -> (r: &[char])
    ensures
        r@ == trim_start_char(s@, c),
{
    let mut i: usize = 0;
    while i < s.len() && s[i] == c
        invariant
            i <= s@.len(),
            forall|j: int| 0 <= j < i ==> s@[j] == c,
        decreases s@.len() - i,
    {
        i = i + 1;
    }
    proof {
        lemma_trim_start_char_is(s@, c, i as int);
    }
    &s[i..s.len()]
}

/// The slice without any trailing `c`.
pub fn trim_end_matching(s: &[char], c: char) -> (r: &[char])
    ensures
        r@ == trim_end_char(s@, c),
{
    let mut n: usize = s.len();
    while n > 0 && s[n - 1] == c
        invariant
            n <= s@.len(),
            forall|j: int| n <= j < s@.len() ==> s@[j] == c,
        decreases n,
    {
        n = n - 1;
    }
    proof {
        lemma_trim_end_char_is(s@, c, n as int);
    }
    &s[0..n]
}

/// The first position that holds `c`, or the length if none does.
pub fn position_of(s: &[char], c: char) -> (r: usize)
    ensures
        r == find_char(s@, c),
        r <= s@.len(),
{
    let mut i: usize = 0;
    while i < s.len() && s[i] != c
        invariant
            i <= s@.len(),
            forall|j: int| 0 <= j < i ==> s@[j] != c,
        decreases s@.len() - i,
    {
        i = i + 1;
    }
    proof {
        lemma_find_char_is(s@, c, i as int);
    }
    i
}

/// The pieces between the occurrences of `c`.
pub fn split_chars<'a>(s: &'a [char], c: char) -> (r: Vec<&'a [char]>)
    ensures
        slice_texts(r@) == split(s@, c),
{
    let mut out: Vec<&'a [char]> = Vec::new();
    let mut start: usize = 0;
    assert(s@.skip(0) == s@);
    loop
        invariant
            start <= s@.len(),
            slice_texts(out@) + split(s@.skip(start as int), c) == split(s@, c),
        decreases s@.len() - start,
    {
        let rest: &'a [char] = &s[start..s.len()];
        assert(rest@ == s@.skip(start as int));
        let i: usize = position_of(rest, c);
        let ghost before = slice_texts(out@);
        if i < rest.len() {
            let piece: &'a [char] = &rest[0..i];
            out.push(piece);
            assert(slice_texts(out@) == before.push(rest@.take(i as int)));
            assert(rest@.skip(i + 1) == s@.skip(start + i + 1));
            assert(before.push(rest@.take(i as int)) + split(rest@.skip(i + 1), c) == before + (
            seq![rest@.take(i as int)] + split(rest@.skip(i + 1), c)));
            start = start + i + 1;
        } else {
            out.push(rest);
            assert(slice_texts(out@) == before + seq![rest@]);
            return out;
        }
    }
}

/// The lines of a text.
pub fn lines_of<'a>(s: &'a [char]) -> (r: Vec<&'a [char]>)
    ensures
        slice_texts(r@) == lines(s@),
        r@.len() <= s@.len(),
{
    let mut out: Vec<&'a [char]> = Vec::new();
    let mut start: usize = 0;
    assert(s@.skip(0) == s@);
    assert(slice_texts(out@) + lines(s@) == lines(s@));
    while start < s.len()
        invariant
            start <= s@.len(),
            out@.len() <= start,
            slice_texts(out@) + lines(s@.skip(start as int)) == lines(s@),
        decreases s@.len() - start,
    {
        let rest: &'a [char] = &s[start..s.len()];
        assert(rest@ == s@.skip(start as int));
        let i: usize = position_of(rest, '\n');
        let ghost before = slice_texts(out@);
        if i < rest.len() {
            let end: usize = if i > 0 && rest[i - 1] == '\r' {
                i - 1
            } else {
                i
            };
            let line: &'a [char] = &rest[0..end];
            out.push(line);
            assert(line@ == strip_carriage_return(rest@.take(i as int)));
            assert(slice_texts(out@) == before.push(line@));
            assert(rest@.skip(i + 1) == s@.skip(start + i + 1));
            assert(before.push(line@) + lines(rest@.skip(i + 1)) == before + (seq![line@] + lines(
                rest@.skip(i + 1),
            )));
            start = start + i + 1;
        } else {
            out.push(rest);
            assert(slice_texts(out@) == before + seq![rest@]);
            assert(s@.skip(s@.len() as int) == Seq::<char>::empty());
            assert(slice_texts(out@) + Seq::<Seq<char>>::empty() == slice_texts(out@));
            start = s.len();
        }
    }
    assert(s@.skip(start as int) == Seq::<char>::empty());
    assert(slice_texts(out@) + Seq::<Seq<char>>::empty() == slice_texts(out@));
    out
}

/// Whether the slice begins with the characters of `prefix`.
pub fn begins_with(s: &[char], prefix: &str) -> (r: bool)
    ensures
        r == starts_with(s@, prefix@),
{
    let p = chars_of(prefix);
    if p.len() > s.len() {
        return false;
    }
    same_chars(&s[0..p.len()], p.as_slice())
}

/// Whether `needle` occurs in the slice.
pub fn contains_chars(s: &[char], needle: &[char]) -> (r: bool)
    ensures
        r == contains(s@, needle@),
{
    if needle.len() > s.len() {
        return false;
    }
    let last: usize = s.len() - needle.len();
    let mut i: usize = 0;
    loop
        invariant
            needle@.len() <= s@.len(),
            last == s@.len() - needle@.len(),
            i <= last,
            forall|j: int| 0 <= j < i ==> !occurs_at(s@, needle@, j),
        decreases last - i,
    {
        let end: usize = s.len() - (last - i);
        if same_chars(&s[i..end], needle) {
            assert(occurs_at(s@, needle@, i as int));
            return true;
        }
        if i == last {
            assert(forall|j: int| occurs_at(s@, needle@, j) ==> 0 <= j <= last);
            return false;
        }
        i = i + 1;
    }
}

/// Whether `needle` occurs in the slice.
pub fn contains_text(s: &[char], needle: &str) -> (r: bool)
    ensures
        r == contains(s@, needle@),
{
    let n = chars_of(needle);
    contains_chars(s, n.as_slice())
}

/// The first word between white space; empty if there is none.
pub fn first_word_of(s: &[char]) -> (r: &[char])
    ensures
        r@ == first_word(s@),
{
    let head = trim_start_chars(s);
    let mut n: usize = 0;
    while n < head.len() && !is_space(head[n])
        invariant
            n <= head@.len(),
            forall|j: int| 0 <= j < n ==> !is_white_space(head@[j]),
        decreases head@.len() - n,
    {
        n = n + 1;
    }
    proof {
        lemma_leading_word_is(head@, n as int);
    }
    &head[0..n]
}

/// A number written in decimal.
pub fn decimal_string(n: u64) -> (r: String)
    ensures
        r@ == decimal(n as nat),
    decreases n,
{
    let digit: char = (48 + (n % 10) as u8) as char;
    let mut out = if n < 10 {
        String::new()
    } else {
        decimal_string(n / 10)
    };
    out.push(digit);
    assert(n < 10 ==> out@ == seq![digit_char(n as nat)]);
    out
}

// ---------------------------------------------------------------------------
// Laws
// ---------------------------------------------------------------------------
/// White space is what Unicode calls so, by its code points.
pub proof fn law_white_space(c: char)
    ensures
        is_white_space(c) <==> {
            let n = c as u32;
            9 <= n <= 13 || n == 32 || n == 0x85 || n == 0xa0 || n == 0x1680 || 0x2000 <= n
                <= 0x200a || n == 0x2028 || n == 0x2029 || n == 0x202f || n == 0x205f || n == 0x3000
        },
{
}

/// Lower and upper case change the 26 letters of ASCII, and nothing else.
pub proof fn law_case_changes_ascii_letters(s: Seq<char>, i: int)
    requires
        0 <= i < s.len(),
    ensures
        lower(s).len() == s.len(),
        upper(s).len() == s.len(),
        lower(s)[i] as u32 == if 65 <= s[i] as u32 <= 90 {
            s[i] as u32 + 32
        } else {
            s[i] as int
        },
        upper(s)[i] as u32 == if 97 <= s[i] as u32 <= 122 {
            s[i] as u32 - 32
        } else {
            s[i] as int
        },
{
}

/// Two texts are the same up to case exactly where they have the same length and agree in
/// each character, or differ there in the case of an ASCII letter.
pub proof fn law_case_is_ignored(a: Seq<char>, b: Seq<char>)
    ensures
        same_ignoring_case(a, b) <==> a.len() == b.len() && forall|i: int|
            0 <= i < a.len() ==> {
                let x = #[trigger] a[i] as u32;
                let y = b[i] as u32;
                x == y || (65 <= x <= 90 && y == x + 32) || (65 <= y <= 90 && x == y + 32)
            },
{
    if same_ignoring_case(a, b) {
        assert(lower(a).len() == lower(b).len());
        assert forall|i: int| 0 <= i < a.len() implies {
            let x = #[trigger] a[i] as u32;
            let y = b[i] as u32;
            x == y || (65 <= x <= 90 && y == x + 32) || (65 <= y <= 90 && x == y + 32)
        } by {
            law_case_changes_ascii_letters(a, i);
            law_case_changes_ascii_letters(b, i);
            assert(lower(a)[i] == lower(b)[i]);
        }
    } else if a.len() == b.len() {
        if forall|i: int|
            0 <= i < a.len() ==> {
                let x = #[trigger] a[i] as u32;
                let y = b[i] as u32;
                x == y || (65 <= x <= 90 && y == x + 32) || (65 <= y <= 90 && x == y + 32)
            } {
            assert forall|i: int| 0 <= i < a.len() implies lower(a)[i] == lower(b)[i] by {
                let x = a[i] as u32;
                law_case_changes_ascii_letters(a, i);
                law_case_changes_ascii_letters(b, i);
                assert(lower(a)[i] as u32 == lower(b)[i] as u32);
                vstd::utf8::char_u32_cast(lower(a)[i], lower(a)[i] as u32);
                vstd::utf8::char_u32_cast(lower(b)[i], lower(b)[i] as u32);
            }
            assert(lower(a) =~= lower(b));
        }
    }
}

/// Trimming takes off the white space at both ends, and nothing else.
pub proof fn law_trim_takes_off_white_space(front: Seq<char>, inner: Seq<char>, back: Seq<char>)
    requires
        forall|i: int| 0 <= i < front.len() ==> is_white_space(#[trigger] front[i]),
        forall|i: int| 0 <= i < back.len() ==> is_white_space(#[trigger] back[i]),
        inner.len() > 0 ==> !is_white_space(inner[0]) && !is_white_space(inner.last()),
    ensures
        trim(front + inner + back) == inner,
{
    let s = front + inner + back;
    let n = front.len() as int;
    assert forall|j: int| 0 <= j < n implies is_white_space(s[j]) by {
        assert(s[j] == front[j]);
    }
    if inner.len() == 0 {
        assert forall|j: int| 0 <= j < s.len() implies is_white_space(s[j]) by {
            if j >= n {
                assert(s[j] == back[j - n]);
            }
        }
        lemma_trim_start_is(s, s.len() as int);
        assert(trim(s) =~= inner);
    } else {
        assert(s[n] == inner[0]);
        lemma_trim_start_is(s, n);
        let rest = s.skip(n);
        assert(rest =~= inner + back);
        assert forall|j: int| inner.len() <= j < rest.len() implies is_white_space(rest[j]) by {
            assert(rest[j] == back[j - inner.len()]);
        }
        assert(rest[inner.len() - 1] == inner.last());
        lemma_trim_end_is(rest, inner.len() as int);
        assert(rest.take(inner.len() as int) =~= inner);
    }
}

/// Leading and trailing repetitions of a character are taken off, and nothing else.
pub proof fn law_repeated_character_is_taken_off(s: Seq<char>, c: char, n: nat)
    ensures
        s.len() == 0 || s[0] != c ==> trim_start_char(Seq::new(n, |i: int| c) + s, c) == s,
        s.len() == 0 || s.last() != c ==> trim_end_char(s + Seq::new(n, |i: int| c), c) == s,
{
    let run = Seq::new(n, |i: int| c);
    if s.len() == 0 || s[0] != c {
        let all = run + s;
        lemma_trim_start_char_is(all, c, n as int);
        assert(all.skip(n as int) =~= s);
    }
    if s.len() == 0 || s.last() != c {
        let all = s + run;
        lemma_trim_end_char_is(all, c, s.len() as int);
        assert(all.take(s.len() as int) =~= s);
    }
}

/// A text is split at the first occurrence of a character, and not where it does not occur.
pub proof fn law_split_at_first(a: Seq<char>, c: char, b: Seq<char>)
    requires
        !a.contains(c),
    ensures
        split_once(a.push(c) + b, c) == Some((a, b)),
        split_once(a, c) is None,
        split(a.push(c) + b, c) == seq![a] + split(b, c),
        split(a, c) == seq![a],
{
    let s = a.push(c) + b;
    let n = a.len() as int;
    assert forall|j: int| 0 <= j < n implies s[j] != c && a[j] != c by {
        assert(s[j] == a[j]);
        assert(a.contains(a[j]));
    }
    assert(s[n] == c);
    lemma_find_char_is(s, c, n);
    lemma_find_char_is(a, c, n);
    assert(s.take(n) =~= a);
    assert(s.skip(n + 1) =~= b);
}

/// A line ends in a line feed, with or without a carriage return before it, or with the
/// text.
pub proof fn law_lines(line: Seq<char>, rest: Seq<char>)
    requires
        !line.contains('\n'),
    ensures
        lines(Seq::empty()) == Seq::<Seq<char>>::empty(),
        line.len() > 0 ==> lines(line) == seq![line],
        lines(line + seq!['\r', '\n'] + rest) == seq![line] + lines(rest),
        line.len() == 0 || line.last() != '\r' ==> lines(line + seq!['\n'] + rest) == seq![line]
            + lines(rest),
{
    let n = line.len() as int;
    let long = line + seq!['\r', '\n'] + rest;
    let short = line + seq!['\n'] + rest;
    assert forall|j: int| 0 <= j < n implies line[j] != '\n' && long[j] != '\n' && short[j]
        != '\n' by {
        assert(line.contains(line[j]));
        assert(long[j] == line[j]);
        assert(short[j] == line[j]);
    }
    assert(long[n] == '\r');
    assert(long[n + 1] == '\n');
    assert(short[n] == '\n');
    lemma_find_char_is(line, '\n', n);
    lemma_find_char_is(long, '\n', n + 1);
    lemma_find_char_is(short, '\n', n);
    assert(long.take(n + 1).drop_last() =~= line);
    assert(long.skip(n + 2) =~= rest);
    assert(short.take(n) =~= line);
    assert(short.skip(n + 1) =~= rest);
    assert(lines(Seq::empty()) =~= Seq::<Seq<char>>::empty());
}

/// A text occurs in another exactly where that is something, the text, and something more;
/// and begins it exactly where the first of these is nothing.
pub proof fn law_occurrences(s: Seq<char>, a: Seq<char>, needle: Seq<char>, b: Seq<char>)
    ensures
        contains(a + needle + b, needle),
        contains(s, needle) <==> exists|i: int|
            0 <= i <= s.len() - needle.len() && #[trigger] s.subrange(i, i + needle.len())
                == needle,
        starts_with(needle + b, needle),
        starts_with(s, needle) ==> s == needle + s.skip(needle.len() as int),
{
    let whole = a + needle + b;
    assert(whole.subrange(a.len() as int, a.len() as int + needle.len()) =~= needle);
    assert(occurs_at(whole, needle, a.len() as int));
    assert((needle + b).take(needle.len() as int) =~= needle);
    if starts_with(s, needle) {
        assert(s =~= s.take(needle.len() as int) + s.skip(needle.len() as int));
    }
    if contains(s, needle) {
        let i = choose|i: int| occurs_at(s, needle, i);
        assert(s.subrange(i, i + needle.len()) == needle);
    }
    if exists|i: int|
        0 <= i <= s.len() - needle.len() && #[trigger] s.subrange(i, i + needle.len()) == needle {
        let i = choose|i: int|
            0 <= i <= s.len() - needle.len() && #[trigger] s.subrange(i, i + needle.len())
                == needle;
        assert(occurs_at(s, needle, i));
    }
}

/// Quotes are taken off exactly where there is one at each end.
pub proof fn law_quotes(s: Seq<char>, inner: Seq<char>, quote: char)
    ensures
        unquoted(seq![quote] + inner + seq![quote], quote) == Some(inner),
        unquoted(s, quote) matches Some(found) ==> s == seq![quote] + found + seq![quote],
{
    let whole = seq![quote] + inner + seq![quote];
    assert(whole.subrange(1, whole.len() - 1) =~= inner);
    if let Some(found) = unquoted(s, quote) {
        assert(s =~= seq![quote] + found + seq![quote]);
    }
}

/// The first word is what stands between the first white space and the next.
pub proof fn law_first_word(front: Seq<char>, word: Seq<char>, rest: Seq<char>)
    requires
        forall|i: int| 0 <= i < front.len() ==> is_white_space(#[trigger] front[i]),
        forall|i: int| 0 <= i < word.len() ==> !is_white_space(#[trigger] word[i]),
        word.len() == 0 ==> rest.len() == 0,
        rest.len() > 0 ==> is_white_space(rest[0]),
    ensures
        first_word(front + word + rest) == word,
{
    let s = front + word + rest;
    let n = front.len() as int;
    assert forall|j: int| 0 <= j < n implies is_white_space(s[j]) by {
        assert(s[j] == front[j]);
    }
    if word.len() > 0 {
        assert(s[n] == word[0]);
    }
    lemma_trim_start_is(s, n);
    let tail = s.skip(n);
    assert(tail =~= word + rest);
    assert forall|j: int| 0 <= j < word.len() implies !is_white_space(tail[j]) by {
        assert(tail[j] == word[j]);
    }
    if rest.len() > 0 {
        assert(tail[word.len() as int] == rest[0]);
    }
    lemma_leading_word_is(tail, word.len() as int);
    assert(tail.take(word.len() as int) =~= word);
}

/// Numbers are written in decimal: the digits below ten by their code points, and every
/// further digit behind the number that it is added to.
pub proof fn law_decimal(n: nat, digit: nat)
    requires
        digit < 10,
    ensures
        decimal(digit).len() == 1,
        decimal(digit)[0] as u32 == 48 + digit,
        n > 0 ==> decimal(n * 10 + digit) == decimal(n) + decimal(digit),
{
    if n > 0 {
        let whole = n * 10 + digit;
        assert(whole / 10 == n);
        assert(whole % 10 == digit);
        assert(decimal(whole) =~= decimal(n) + decimal(digit));
    }
}

} // verus!
