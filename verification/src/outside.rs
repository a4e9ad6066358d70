//! The calls into other crates and into parts of the standard library that
//! have no contract of their own. Each contract here is believed.
use base64::engine::general_purpose::{STANDARD, URL_SAFE_NO_PAD};
use base64::Engine;
use crate::routing::safe_folder_name;
use crate::text::optional_text;
use sha1::Digest;
use vstd::prelude::*;
use vstd::utf8::{decode_utf8, valid_utf8};

verus! {

// ---------------------------------------------------------------------------
// Text
// ---------------------------------------------------------------------------
/// The text that `String::from_utf8_lossy` reads from these bytes.
pub uninterp spec fn utf8_lossy(bytes: Seq<u8>) -> Seq<char>;

/// `String::from_utf8_lossy`: bytes to text, with U+FFFD in the place of what is
/// no UTF-8. Bytes that are UTF-8 give exactly the text that they encode. Which
/// invalid bytes share one replacement character is not stated.
#[verifier::external_body]
pub(crate) fn decode_lossy(bytes: &[u8]) -> (r: String)
    ensures
        r@ == utf8_lossy(bytes@),
        valid_utf8(bytes@) ==> r@ == decode_utf8(bytes@),
{
    String::from_utf8_lossy(bytes).into_owned()
}

// ---------------------------------------------------------------------------
// Transfer encodings
// ---------------------------------------------------------------------------
/// An error of the `base64` crate's decoder.
#[verifier::external_type_specification]
#[verifier::external_body]
pub struct ExDecodeError(base64::DecodeError);

/// An error of the `quoted_printable` crate's decoder.
#[verifier::external_type_specification]
#[verifier::external_body]
pub struct ExQuotedPrintableError(quoted_printable::QuotedPrintableError);

/// What `base64`'s standard engine decodes these bytes to, if it accepts them.
pub uninterp spec fn base64_decoded(bytes: Seq<u8>) -> Option<Seq<u8>>;

/// `Engine::decode` of `base64::engine::general_purpose::STANDARD`: the standard
/// alphabet with required padding. The result depends on the bytes alone.
#[verifier::external_body]
pub(crate) fn base64_decode(bytes: &[u8]) -> (r: Result<Vec<u8>, base64::DecodeError>)
    ensures
        r is Ok <==> base64_decoded(bytes@) is Some,
        r matches Ok(v) ==> base64_decoded(bytes@) == Some(v@),
{
    STANDARD.decode(bytes)
}

/// What `quoted_printable::decode` makes of these bytes in its robust mode.
pub uninterp spec fn quoted_printable_decoded(bytes: Seq<u8>) -> Seq<u8>;

/// `quoted_printable::decode` in `ParseMode::Robust`, which reports no error
/// whatever the bytes are. The result depends on the bytes alone.
#[verifier::external_body]
pub(crate) fn quoted_printable_decode(bytes: &[u8]) -> (r: Result<
    Vec<u8>,
    quoted_printable::QuotedPrintableError,
>)
    ensures
        r is Ok,
        r matches Ok(v) ==> v@ == quoted_printable_decoded(bytes@),
{
    quoted_printable::decode(bytes, quoted_printable::ParseMode::Robust)
}

// ---------------------------------------------------------------------------
// Content names
// ---------------------------------------------------------------------------
/// The SHA-1 digest of these bytes.
pub uninterp spec fn sha1_digest(content: Seq<u8>) -> Seq<u8>;

/// `Sha1::digest` of the `sha1` crate: twenty bytes that depend on the content
/// alone. The digest counts bits in 64 bits, so longer content is left out.
#[verifier::external_body]
pub(crate) fn sha1_of(content: &[u8]) -> (r: Vec<u8>)
    requires
        content@.len() <= 0x1fff_ffff_ffff_ffff,
    ensures
        r@ == sha1_digest(content@),
        r@.len() == 20,
{
    sha1::Sha1::digest(content).to_vec()
}

/// The text that `base64`'s unpadded URL-safe engine encodes these bytes to.
pub uninterp spec fn base64_url_encoded(bytes: Seq<u8>) -> Seq<char>;

/// The characters of the URL-safe base64 alphabet.
pub open spec fn is_base64_url_char(c: char) -> bool {
    'A' <= c <= 'Z' || 'a' <= c <= 'z' || '0' <= c <= '9' || c == '-' || c == '_'
}

/// `Engine::encode` of `base64::engine::general_purpose::URL_SAFE_NO_PAD`: four
/// characters of the URL-safe alphabet for three bytes, and no padding. Bytes
/// whose encoding is longer than `usize` can count are left out.
#[verifier::external_body]
pub(crate) fn base64_url_encode(bytes: &[u8]) -> (r: String)
    requires
        bytes@.len() / 3 * 4 + 3 <= usize::MAX,
    ensures
        r@ == base64_url_encoded(bytes@),
        r@.len() == (bytes@.len() * 4 + 2) / 3,
        forall|i: int| 0 <= i < r@.len() ==> is_base64_url_char(#[trigger] r@[i]),
{
    URL_SAFE_NO_PAD.encode(bytes)
}

/// Whether a text is a date as `%Y-%m-%d` prints one from 1970 on: a year of at
/// least four digits, with a plus sign before it from the year 10000 on, and two
/// digits each for the month and the day.
pub open spec fn is_date_text(s: Seq<char>) -> bool {
    &&& s.len() >= 10
    &&& s[s.len() - 3] == '-'
    &&& s[s.len() - 6] == '-'
    &&& forall|i: int|
        0 <= i < s.len() && i != s.len() - 3 && i != s.len() - 6 ==> ('0' <= #[trigger] s[i] <= '9'
            || (i == 0 && s[i] == '+'))
}

/// `chrono::Utc::now` printed with `%Y-%m-%d`. Which date it is depends on the
/// system clock, which the crate expects to stand at 1970 or later; the contract
/// states the form that every date has.
#[verifier::external_body]
pub(crate) fn utc_date() -> (r: String)
    ensures
        is_date_text(r@),
{
    chrono::Utc::now().format("%Y-%m-%d").to_string()
}

// ---------------------------------------------------------------------------
// Connections
// ---------------------------------------------------------------------------
/// `tokio::sync::Semaphore::MAX_PERMITS`, which is documented as
/// `usize::MAX >> 3`.
#[verifier::external_body]
pub(crate) fn max_permits() -> (r: usize)
    ensures
        r == usize::MAX / 8,
{
    tokio::sync::Semaphore::MAX_PERMITS
}

// ---------------------------------------------------------------------------
// Paths
// ---------------------------------------------------------------------------
/// A path, together with the separator of the platform whose path syntax it has. A
/// value is made by the functions of this module alone, so that the separator is always
/// that of the platform that the crate is built for.
#[derive(Debug)]
pub struct PlatformPath {
    text: String,
    separator: char,
}

/// What a `PlatformPath` holds.
pub struct PathView {
    pub text: Seq<char>,
    pub separator: char,
}

impl View for PlatformPath {
    type V = PathView;

    closed spec fn view(&self) -> PathView {
        PathView { text: self.text@, separator: self.separator }
    }
}

impl PlatformPath {
    /// The path as text.
    pub(crate) fn into_text(self) -> (r: String)
        ensures
            r@ == self@.text,
    {
        self.text
    }
}

/// The text of an optional path.
pub open spec fn optional_path(path: Option<PlatformPath>) -> Option<Seq<char>> {
    match path {
        Some(path) => Some(path@.text),
        None => None,
    }
}

/// `std::path::MAIN_SEPARATOR`, kept beside a path. Which character it is depends on
/// the platform, and is not stated.
#[verifier::external_body]
pub(crate) fn platform_path(text: &str) -> (r: PlatformPath)
    ensures
        r@.text == text@,
{
    PlatformPath { text: text.to_owned(), separator: std::path::MAIN_SEPARATOR }
}

/// What `Path::parent` gives for this path where paths have this separator.
pub uninterp spec fn path_parent(path: Seq<char>, separator: char) -> Option<Seq<char>>;

/// What `Path::file_name` gives for this path where paths have this separator.
pub uninterp spec fn path_file_name(path: Seq<char>, separator: char) -> Option<Seq<char>>;

/// What `Path::join` makes of this directory and this name where paths have this
/// separator.
pub uninterp spec fn path_join(dir: Seq<char>, name: Seq<char>, separator: char) -> Seq<char>;

/// The path that is reached from a path by going up so many times.
pub open spec fn path_ancestor(path: Seq<char>, levels: nat, separator: char) -> Option<Seq<char>>
    decreases levels,
{
    if levels == 0 {
        Some(path)
    } else {
        match path_parent(path, separator) {
            Some(parent) => path_ancestor(parent, (levels - 1) as nat, separator),
            None => None,
        }
    }
}

/// Whether going up from a path always leads to a shorter one.
pub open spec fn gets_shorter(path: Seq<char>, separator: char) -> bool {
    forall|levels: nat|
        levels > 0 ==> (#[trigger] path_ancestor(path, levels, separator) matches Some(above)
            ==> above.len() < path.len())
}

/// Whether a text is the name of one file where paths have the separator `/`: no
/// separator in it, and neither of the names that stand for a directory itself and for
/// its parent.
pub open spec fn is_file_name(name: Seq<char>) -> bool {
    &&& name.len() > 0
    &&& name != "."@
    &&& name != ".."@
    &&& !name.contains('/')
}

/// `Path::parent`: the path without its final component, if it has one, and so a
/// shorter path each time; the empty path for a path of one name. A path that has none
/// ends in no name.
#[verifier::external_body]
pub(crate) fn parent_of(path: &PlatformPath) -> (r: Option<PlatformPath>)
    ensures
        optional_path(r) == path_parent(path@.text, path@.separator),
        r matches Some(parent) ==> parent@.separator == path@.separator,
        safe_folder_name(path@.text) ==> optional_path(r) == Some(Seq::<char>::empty()),
        r is Some ==> gets_shorter(path@.text, path@.separator),
        r is None ==> path_file_name(path@.text, path@.separator) is None,
{
    let parent = std::path::Path::new(path.text.as_str()).parent();
    let separator = path.separator;
    parent.map(|p| PlatformPath { text: p.to_string_lossy().into_owned(), separator })
}

/// `Path::file_name`: the final component of the path, if it is a name; all of a
/// path of one name. What a name can look like is stated for the separator `/` alone.
#[verifier::external_body]
pub(crate) fn file_name_of(path: &PlatformPath) -> (r: Option<String>)
    ensures
        optional_text(r) == path_file_name(path@.text, path@.separator),
        safe_folder_name(path@.text) ==> optional_text(r) == Some(path@.text),
        r matches Some(name) ==> (path@.separator == '/' ==> is_file_name(name@)),
{
    let name = std::path::Path::new(path.text.as_str()).file_name();
    name.map(|n| n.to_string_lossy().into_owned())
}

/// Whether a text is the name of one file in every path syntax: neither of the usual
/// separators in it, and no colon, which stands behind a drive's letter.
pub open spec fn is_portable_name(name: Seq<char>) -> bool {
    is_file_name(name) && !name.contains('\\') && !name.contains(':')
}

/// Whether a path is no more than a host's name behind two separators, or begins with two
/// separators and a mark that turns off the usual path syntax. Where hosts and shares
/// are part of a path, a name behind such a directory can be read as a share.
pub open spec fn is_network_root(dir: Seq<char>) -> bool {
    let is_slash = |c: char| c == '/' || c == '\\';
    &&& dir.len() >= 2
    &&& is_slash(dir[0])
    &&& is_slash(dir[1])
    &&& dir.len() == 2 || dir[2] == '?' || dir[2] == '.' || forall|i: int|
        3 <= i < dir.len() ==> !is_slash(#[trigger] dir[i])
}

/// Whether a name behind a directory is read as just that: any name where paths have the
/// separator `/`, and otherwise a portable name in a directory that is no network root.
pub open spec fn stays_a_name(dir: Seq<char>, name: Seq<char>, separator: char) -> bool {
    ||| separator == '/' && is_file_name(name)
    ||| is_portable_name(name) && !is_network_root(dir)
}

/// Whether a path is a name in a directory.
pub open spec fn is_name_in(
    path: Seq<char>,
    dir: Seq<char>,
    name: Seq<char>,
    separator: char,
) -> bool {
    path_parent(path, separator) == Some(dir) && path_file_name(path, separator) == Some(name)
}

/// `Path::join`: the path of a name in a directory; the name itself where the directory's
/// path is empty. Where the directory is the parent of a path with a name, the result is
/// the sibling of that path with this name, as `PathBuf::set_file_name` documents. This
/// is not stated where the name could be read as more than a name. By going up, a path
/// gets shorter.
#[verifier::external_body]
pub(crate) fn join_path(dir: &PlatformPath, name: &str) -> (r: PlatformPath)
    ensures
        r@.separator == dir@.separator,
        r@.text == path_join(dir@.text, name@, dir@.separator),
        dir@.text.len() == 0 ==> r@.text == name@,
        forall|other: Seq<char>|
            #[trigger] path_parent(other, dir@.separator) == Some(dir@.text) && path_file_name(
                other,
                dir@.separator,
            ) is Some && stays_a_name(dir@.text, name@, dir@.separator) ==> is_name_in(
                r@.text,
                dir@.text,
                name@,
                dir@.separator,
            ),
        gets_shorter(r@.text, r@.separator),
{
    let path = std::path::Path::new(dir.text.as_str()).join(name);
    PlatformPath { text: path.to_string_lossy().into_owned(), separator: dir.separator }
}

} // verus!
