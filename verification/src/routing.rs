//! Which folders a message goes to: one for each recipient name at a configured
//! domain, in the envelope or in the headers.
use crate::bytes::{headers_and_body, split_headers_body};
use crate::headers::{headers_in_lines, parse_headers, parsed_headers};
use crate::order::{in_text_order, insert_text, lists};
use crate::text::{
    chars_of, law_split_at_first, lemma_find_char, lemma_find_char_is, lines, lower, lower_string,
    pair_texts, position_of, same_ignoring_case, same_text, same_text_ignoring_case, split_once,
    string_of, texts, to_lower,
};
use vstd::prelude::*;
use vstd::utf8::{decode_utf8, encode_utf8, valid_utf8};

verus! {

// ---------------------------------------------------------------------------
// Addresses in a text
// ---------------------------------------------------------------------------
/// Letters and digits.
pub open spec fn alphanumeric_byte(b: u8) -> bool {
    48 <= b <= 57 || 65 <= b <= 90 || 97 <= b <= 122
}

/// The bytes of the part of an address before the `@`: letters, digits and
/// `.`, `_`, `%`, `+`, `#`, `-`.
pub open spec fn local_part_byte(b: u8) -> bool {
    alphanumeric_byte(b) || b == 46 || b == 95 || b == 37 || b == 43 || b == 35 || b == 45
}

/// The bytes of a domain: letters, digits and `.`, `-`.
pub open spec fn domain_byte(b: u8) -> bool {
    alphanumeric_byte(b) || b == 46 || b == 45
}

/// Where the local part begins that ends at `at`.
pub open spec fn local_start(text: Seq<u8>, at: int) -> int
    decreases at,
{
    if 0 < at <= text.len() && local_part_byte(text[at - 1]) {
        local_start(text, at - 1)
    } else {
        at
    }
}

/// Where the domain ends that begins at `start`.
pub open spec fn domain_stop(text: Seq<u8>, start: int) -> int
    decreases text.len() - start,
{
    if 0 <= start < text.len() && domain_byte(text[start]) {
        domain_stop(text, start + 1)
    } else {
        start
    }
}

/// The text of bytes that are ASCII.
pub open spec fn ascii_text(bytes: Seq<u8>) -> Seq<char> {
    Seq::new(bytes.len(), |i: int| bytes[i] as char)
}

/// The characters that a folder name may have: ASCII letters, digits and `.`,
/// `_`, `-`.
pub open spec fn folder_char(c: char) -> bool {
    'a' <= c <= 'z' || 'A' <= c <= 'Z' || '0' <= c <= '9' || c == '.' || c == '_' || c == '-'
}

/// Whether a name can be a folder's: not empty, only folder characters, and none
/// of the two names that stand for a directory itself and for its parent.
pub open spec fn safe_folder_name(name: Seq<char>) -> bool {
    &&& name.len() > 0
    &&& name != "."@
    &&& name != ".."@
    &&& forall|i: int| 0 <= i < name.len() ==> folder_char(#[trigger] name[i])
}

/// A local part without its detail: what stands before the first `+`, or, if
/// there is none, before the first `#`.
pub open spec fn without_detail(local: Seq<char>) -> Seq<char> {
    match split_once(local, '+') {
        Some((base, _)) => base,
        None => match split_once(local, '#') {
            Some((base, _)) => base,
            None => local,
        },
    }
}

/// The folder for the address around the `@` at this position, if it is one at a
/// configured domain.
pub open spec fn folder_at(text: Seq<u8>, domains: Seq<Seq<char>>, at: int) -> Option<Seq<char>> {
    let start = local_start(text, at);
    let end = domain_stop(text, at + 1);
    let domain = lower(ascii_text(text.subrange(at + 1, end)));
    let name = without_detail(ascii_text(text.subrange(start, at)));
    if text[at] == 64 && start < at && at + 1 < end && domains.contains(domain)
        && safe_folder_name(name) {
        Some(lower(name))
    } else {
        None
    }
}

/// The folders for the addresses whose `@` is among the first bytes of a text.
pub open spec fn folders_among(text: Seq<u8>, domains: Seq<Seq<char>>, count: int) -> Set<
    Seq<char>,
> {
    Set::new(
        |folder: Seq<char>|
            exists|at: int|
                0 <= at < count && #[trigger] folder_at(text, domains, at) == Some(folder),
    )
}

/// The folders for the addresses in a text.
pub open spec fn folders_in(text: Seq<u8>, domains: Seq<Seq<char>>) -> Set<Seq<char>> {
    folders_among(text, domains, text.len() as int)
}

/// Whether a header names recipients.
pub open spec fn names_recipients(name: Seq<char>) -> bool {
    same_ignoring_case(name, "to"@) || same_ignoring_case(name, "cc"@) || same_ignoring_case(
        name,
        "bcc"@,
    )
}

/// The folders for these envelope recipients.
pub open spec fn recipients_folders(
    domains: Seq<Seq<char>>,
    recipients: Seq<Seq<char>>,
) -> Set<Seq<char>> {
    Set::new(
        |folder: Seq<char>|
            exists|i: int|
                0 <= i < recipients.len() && folders_in(
                    encode_utf8(#[trigger] recipients[i]),
                    domains,
                ).contains(folder),
    )
}

/// The folders for the headers that name recipients.
pub open spec fn headers_folders(
    domains: Seq<Seq<char>>,
    headers: Seq<(Seq<char>, Seq<char>)>,
) -> Set<Seq<char>> {
    Set::new(
        |folder: Seq<char>|
            exists|i: int|
                0 <= i < headers.len() && names_recipients((#[trigger] headers[i]).0)
                    && folders_in(encode_utf8(headers[i].1), domains).contains(folder),
    )
}

/// The folders for a message with these envelope recipients and headers.
pub open spec fn message_folders(
    domains: Seq<Seq<char>>,
    recipients: Seq<Seq<char>>,
    headers: Seq<(Seq<char>, Seq<char>)>,
) -> Set<Seq<char>> {
    recipients_folders(domains, recipients).union(headers_folders(domains, headers))
}

// ---------------------------------------------------------------------------
// Operations
// ---------------------------------------------------------------------------
/// Whether a byte can stand in the local part of an address.
pub fn is_local_part_byte(byte: u8) -> (r: bool)
    ensures
        r == local_part_byte(byte),
{
    is_alphanumeric(byte) || byte == 46 || byte == 95 || byte == 37 || byte == 43 || byte == 35
        || byte == 45
}

/// Whether a byte can stand in a domain.
pub fn is_domain_byte(byte: u8) -> (r: bool)
    ensures
        r == domain_byte(byte),
{
    is_alphanumeric(byte) || byte == 46 || byte == 45
}

fn is_alphanumeric(byte: u8) -> (r: bool)
    ensures
        r == alphanumeric_byte(byte),
{
    (48 <= byte && byte <= 57) || (65 <= byte && byte <= 90) || (97 <= byte && byte <= 122)
}

/// Where the local part begins that ends at this byte.
pub fn local_part_start(text: &str, at_index: usize) -> (r: usize)
    requires
        at_index <= encode_utf8(text@).len(),
    ensures
        r == local_start(encode_utf8(text@), at_index as int),
        r <= at_index,
{
    let bytes = text.as_bytes();
    let mut index: usize = at_index;
    while index > 0 && is_local_part_byte(bytes[index - 1])
        invariant
            index <= at_index <= bytes@.len(),
            local_start(bytes@, at_index as int) == local_start(bytes@, index as int),
        decreases index,
    {
        index = index - 1;
    }
    index
}

/// Where the domain ends that begins at this byte.
pub fn domain_end(text: &str, start: usize) -> (r: usize)
    ensures
        r == domain_stop(encode_utf8(text@), start as int),
        start <= r,
        start <= encode_utf8(text@).len() ==> r <= encode_utf8(text@).len(),
{
    let bytes = text.as_bytes();
    let mut index: usize = start;
    while index < bytes.len() && is_domain_byte(bytes[index])
        invariant
            start <= index,
            start <= bytes@.len() ==> index <= bytes@.len(),
            domain_stop(bytes@, start as int) == domain_stop(bytes@, index as int),
        decreases bytes@.len() - index,
    {
        index = index + 1;
    }
    index
}

/// Whether a name can be a folder's.
pub fn is_safe_folder_name(name: &str) -> (r: bool)
    ensures
        r == safe_folder_name(name@),
{
    if name.is_empty() || same_text(name, ".") || same_text(name, "..") {
        return false;
    }
    let chars = chars_of(name);
    let mut i: usize = 0;
    while i < chars.len()
        invariant
            i <= chars@.len(),
            chars@ == name@,
            forall|j: int| 0 <= j < i ==> folder_char(#[trigger] name@[j]),
        decreases chars@.len() - i,
    {
        let c: char = chars[i];
        if !(('a' <= c && c <= 'z') || ('A' <= c && c <= 'Z') || ('0' <= c && c <= '9') || c == '.'
            || c == '_' || c == '-') {
            assert(!folder_char(name@[i as int]));
            return false;
        }
        i = i + 1;
    }
    true
}

/// The text of bytes that are ASCII.
fn ascii_chars(bytes: &[u8]) -> (r: Vec<char>)
    ensures
        r@ == ascii_text(bytes@),
{
    let mut out: Vec<char> = Vec::new();
    let mut i: usize = 0;
    while i < bytes.len()
        invariant
            i <= bytes@.len(),
            out@ == ascii_text(bytes@).take(i as int),
        decreases bytes@.len() - i,
    {
        out.push(bytes[i] as char);
        i = i + 1;
    }
    out
}

/// A local part without its detail.
fn strip_detail(local: &[char]) -> (r: &[char])
    ensures
        r@ == without_detail(local@),
{
    let plus: usize = position_of(local, '+');
    if plus < local.len() {
        return &local[0..plus];
    }
    let hash: usize = position_of(local, '#');
    if hash < local.len() {
        return &local[0..hash];
    }
    local
}

/// Whether a text is among these.
fn is_among(list: &[String], item: &str) -> (r: bool)
    ensures
        r == texts(list@).contains(item@),
{
    let mut i: usize = 0;
    while i < list.len()
        invariant
            i <= list@.len(),
            forall|j: int| 0 <= j < i ==> texts(list@)[j] != item@,
        decreases list@.len() - i,
    {
        if same_text(list[i].as_str(), item) {
            assert(texts(list@)[i as int] == item@);
            return true;
        }
        i = i + 1;
    }
    false
}

/// Adds the folders for the addresses in a text.
pub fn collect_recipient_folders(
    text: &str,
    recipient_domains: &[String],
    folders: &mut Vec<String>,
)
    requires
        in_text_order(texts(old(folders)@)),
    ensures
        in_text_order(texts(final(folders)@)),
        texts(final(folders)@).to_set() == texts(old(folders)@).to_set().union(
            folders_in(encode_utf8(text@), texts(recipient_domains@)),
        ),
{
    let bytes = text.as_bytes();
    let ghost domains = texts(recipient_domains@);
    let ghost before = texts(folders@).to_set();
    let mut at: usize = 0;
    while at < bytes.len()
        invariant
            at <= bytes@.len(),
            bytes@ == encode_utf8(text@),
            domains == texts(recipient_domains@),
            in_text_order(texts(folders@)),
            texts(folders@).to_set() == before.union(folders_among(bytes@, domains, at as int)),
        decreases bytes@.len() - at,
    {
        let mut found: Option<String> = None;
        if bytes[at] == 64 {
            let local_at: usize = local_part_start(text, at);
            let domain_to: usize = domain_end(text, at + 1);
            if local_at < at && at + 1 < domain_to {
                let domain_chars = to_lower(ascii_chars(&bytes[at + 1..domain_to]).as_slice());
                let domain = string_of(domain_chars.as_slice());
                if is_among(recipient_domains, domain.as_str()) {
                    let local = ascii_chars(&bytes[local_at..at]);
                    let username = string_of(strip_detail(local.as_slice()));
                    if is_safe_folder_name(username.as_str()) {
                        found = Some(lower_string(username.as_str()));
                    }
                }
            }
        }
        assert(match found {
            Some(folder) => folder_at(bytes@, domains, at as int) == Some(folder@),
            None => folder_at(bytes@, domains, at as int) is None,
        });
        if let Some(folder) = found {
            insert_text(folders, folder);
        }
        proof {
            lemma_one_more_byte(bytes@, domains, at as int);
        }
        at = at + 1;
    }
}

proof fn lemma_one_more_byte(text: Seq<u8>, domains: Seq<Seq<char>>, at: int)
    requires
        0 <= at,
    ensures
        folders_among(text, domains, at + 1) == match folder_at(text, domains, at) {
            Some(folder) => folders_among(text, domains, at).insert(folder),
            None => folders_among(text, domains, at),
        },
{
    let before = folders_among(text, domains, at);
    let after = folders_among(text, domains, at + 1);
    let here = folder_at(text, domains, at);
    assert forall|f: Seq<char>| after.contains(f) == (before.contains(f) || here == Some(f)) by {
        if after.contains(f) {
            let j = choose|j: int| 0 <= j < at + 1 && #[trigger] folder_at(text, domains, j) == Some(f);
            if j < at {
                assert(before.contains(f));
            }
        }
        if before.contains(f) {
            let j = choose|j: int| 0 <= j < at && #[trigger] folder_at(text, domains, j) == Some(f);
            assert(0 <= j < at + 1);
        }
    }
    match here {
        Some(folder) => {
            assert(after =~= before.insert(folder));
        },
        None => {
            assert(after =~= before);
        },
    }
}

/// The folders for a message with these envelope recipients and headers.
pub fn recipient_folders(
    recipient_domains: &[String],
    envelope_recipients: &[String],
    headers: &[(String, String)],
) -> (r: Vec<String>)
    ensures
        lists(
            texts(r@),
            message_folders(
                texts(recipient_domains@),
                texts(envelope_recipients@),
                pair_texts(headers@),
            ),
        ),
{
    let ghost domains = texts(recipient_domains@);
    let ghost recipients = texts(envelope_recipients@);
    let ghost pairs = pair_texts(headers@);
    let mut folders: Vec<String> = Vec::new();
    let mut i: usize = 0;
    while i < envelope_recipients.len()
        invariant
            i <= envelope_recipients@.len(),
            domains == texts(recipient_domains@),
            recipients == texts(envelope_recipients@),
            in_text_order(texts(folders@)),
            texts(folders@).to_set() == recipients_folders(domains, recipients.take(i as int)),
        decreases envelope_recipients@.len() - i,
    {
        collect_recipient_folders(
            envelope_recipients[i].as_str(),
            recipient_domains,
            &mut folders,
        );
        proof {
            lemma_one_more_recipient(domains, recipients.take(i as int), recipients[i as int]);
            assert(recipients.take(i + 1) =~= recipients.take(i as int).push(recipients[i as int]));
        }
        i = i + 1;
    }
    assert(recipients.take(recipients.len() as int) == recipients);
    let mut k: usize = 0;
    assert(pairs.take(0) == Seq::<(Seq<char>, Seq<char>)>::empty());
    while k < headers.len()
        invariant
            k <= headers@.len(),
            domains == texts(recipient_domains@),
            pairs == pair_texts(headers@),
            in_text_order(texts(folders@)),
            texts(folders@).to_set() == message_folders(
                domains,
                recipients,
                pairs.take(k as int),
            ),
        decreases headers@.len() - k,
    {
        let name = headers[k].0.as_str();
        proof {
            lemma_one_more_header(domains, pairs.take(k as int), pairs[k as int]);
            assert(pairs.take(k + 1) =~= pairs.take(k as int).push(pairs[k as int]));
        }
        if same_text_ignoring_case(name, "to") || same_text_ignoring_case(name, "cc")
            || same_text_ignoring_case(name, "bcc") {
            collect_recipient_folders(headers[k].1.as_str(), recipient_domains, &mut folders);
        }
        k = k + 1;
    }
    assert(pairs.take(pairs.len() as int) == pairs);
    folders
}

proof fn lemma_one_more_recipient(
    domains: Seq<Seq<char>>,
    recipients: Seq<Seq<char>>,
    next: Seq<char>,
)
    ensures
        recipients_folders(domains, recipients.push(next)) == recipients_folders(
            domains,
            recipients,
        ).union(folders_in(encode_utf8(next), domains)),
{
    let more = recipients.push(next);
    let before = recipients_folders(domains, recipients);
    let after = recipients_folders(domains, more);
    let here = folders_in(encode_utf8(next), domains);
    assert forall|f: Seq<char>| after.contains(f) == (before.contains(f) || here.contains(f)) by {
        if after.contains(f) {
            let i = choose|i: int|
                0 <= i < more.len() && folders_in(
                    encode_utf8(#[trigger] more[i]),
                    domains,
                ).contains(f);
            if i < recipients.len() {
                assert(more[i] == recipients[i]);
                assert(before.contains(f));
            }
        }
        if before.contains(f) {
            let i = choose|i: int|
                0 <= i < recipients.len() && folders_in(
                    encode_utf8(#[trigger] recipients[i]),
                    domains,
                ).contains(f);
            assert(more[i] == recipients[i]);
        }
        if here.contains(f) {
            assert(more[recipients.len() as int] == next);
        }
    }
    assert(after =~= before.union(here));
}

proof fn lemma_one_more_header(
    domains: Seq<Seq<char>>,
    headers: Seq<(Seq<char>, Seq<char>)>,
    next: (Seq<char>, Seq<char>),
)
    ensures
        headers_folders(domains, headers.push(next)) == if names_recipients(next.0) {
            headers_folders(domains, headers).union(folders_in(encode_utf8(next.1), domains))
        } else {
            headers_folders(domains, headers)
        },
{
    let more = headers.push(next);
    let before = headers_folders(domains, headers);
    let after = headers_folders(domains, more);
    let here = folders_in(encode_utf8(next.1), domains);
    assert forall|f: Seq<char>|
        after.contains(f) == (before.contains(f) || (names_recipients(next.0) && here.contains(f)))
        by {
        if after.contains(f) {
            let i = choose|i: int|
                0 <= i < more.len() && names_recipients((#[trigger] more[i]).0) && folders_in(
                    encode_utf8(more[i].1),
                    domains,
                ).contains(f);
            if i < headers.len() {
                assert(more[i] == headers[i]);
                assert(before.contains(f));
            }
        }
        if before.contains(f) {
            let i = choose|i: int|
                0 <= i < headers.len() && names_recipients((#[trigger] headers[i]).0)
                    && folders_in(encode_utf8(headers[i].1), domains).contains(f);
            assert(more[i] == headers[i]);
        }
        if names_recipients(next.0) && here.contains(f) {
            assert(more[headers.len() as int] == next);
        }
    }
    if names_recipients(next.0) {
        assert(after =~= before.union(here));
    } else {
        assert(after =~= before);
    }
}

/// The folders for a message, from its envelope recipients and its headers.
pub fn recipient_folders_for_message(
    recipient_domains: &[String],
    envelope_recipients: &[String],
    data: &[u8],
) -> (r: Vec<String>)
    ensures
        lists(
            texts(r@),
            message_folders(
                texts(recipient_domains@),
                texts(envelope_recipients@),
                parsed_headers(headers_and_body(data@).0),
            ),
        ),
        valid_utf8(headers_and_body(data@).0) ==> lists(
            texts(r@),
            message_folders(
                texts(recipient_domains@),
                texts(envelope_recipients@),
                headers_in_lines(lines(decode_utf8(headers_and_body(data@).0))),
            ),
        ),
{
    let (header_bytes, _) = split_headers_body(data);
    let headers = parse_headers(header_bytes);
    recipient_folders(recipient_domains, envelope_recipients, headers.as_slice())
}

// ---------------------------------------------------------------------------
// Laws
// ---------------------------------------------------------------------------
/// Every folder that a message goes to has a safe name in lower case.
pub proof fn law_folder_names_are_safe(
    domains: Seq<Seq<char>>,
    recipients: Seq<Seq<char>>,
    headers: Seq<(Seq<char>, Seq<char>)>,
    folder: Seq<char>,
)
    requires
        message_folders(domains, recipients, headers).contains(folder),
    ensures
        safe_folder_name(folder),
        lower(folder) == folder,
{
    if recipients_folders(domains, recipients).contains(folder) {
        let i = choose|i: int|
            0 <= i < recipients.len() && folders_in(
                encode_utf8(#[trigger] recipients[i]),
                domains,
            ).contains(folder);
        lemma_folder_name_is_safe(encode_utf8(recipients[i]), domains, folder);
    } else {
        let i = choose|i: int|
            0 <= i < headers.len() && names_recipients((#[trigger] headers[i]).0) && folders_in(
                encode_utf8(headers[i].1),
                domains,
            ).contains(folder);
        lemma_folder_name_is_safe(encode_utf8(headers[i].1), domains, folder);
    }
}

proof fn lemma_folder_name_is_safe(text: Seq<u8>, domains: Seq<Seq<char>>, folder: Seq<char>)
    requires
        folders_in(text, domains).contains(folder),
    ensures
        safe_folder_name(folder),
        lower(folder) == folder,
{
    let at = choose|at: int|
        0 <= at < text.len() && #[trigger] folder_at(text, domains, at) == Some(folder);
    let name = without_detail(ascii_text(text.subrange(local_start(text, at), at)));
    assert(folder == lower(name));
    assert forall|i: int| 0 <= i < folder.len() implies folder_char(#[trigger] folder[i]) by {
        assert(folder_char(name[i]));
    }
    reveal_strlit(".");
    reveal_strlit("..");
    if folder == "."@ {
        assert(folder[0] == '.');
        assert(name[0] == '.');
        assert(name =~= "."@);
    }
    if folder == ".."@ {
        assert(folder[0] == '.' && folder[1] == '.');
        assert(name[0] == '.' && name[1] == '.');
        assert(name =~= ".."@);
    }
    assert(lower(folder) =~= folder);
}

/// Without configured domains no message goes to a folder.
pub proof fn law_no_domain_no_folder(
    recipients: Seq<Seq<char>>,
    headers: Seq<(Seq<char>, Seq<char>)>,
)
    ensures
        message_folders(Seq::empty(), recipients, headers) == Set::<Seq<char>>::empty(),
{
    let none: Seq<Seq<char>> = Seq::empty();
    assert forall|text: Seq<u8>, f: Seq<char>| !(#[trigger] folders_in(text, none).contains(f)) by {
        if folders_in(text, none).contains(f) {
            let at = choose|at: int|
                0 <= at < text.len() && #[trigger] folder_at(text, none, at) == Some(f);
            assert(false);
        }
    }
    assert(message_folders(none, recipients, headers) =~= Set::<Seq<char>>::empty());
}

/// The order in which recipients are named, and naming one twice, changes nothing.
pub proof fn law_recipient_order_is_irrelevant(
    domains: Seq<Seq<char>>,
    recipients: Seq<Seq<char>>,
    others: Seq<Seq<char>>,
    headers: Seq<(Seq<char>, Seq<char>)>,
)
    requires
        recipients.to_set() == others.to_set(),
    ensures
        message_folders(domains, recipients, headers) == message_folders(domains, others, headers),
{
    lemma_more_recipients(domains, recipients, others);
    lemma_more_recipients(domains, others, recipients);
    assert(recipients_folders(domains, recipients) =~= recipients_folders(domains, others));
}

proof fn lemma_more_recipients(
    domains: Seq<Seq<char>>,
    recipients: Seq<Seq<char>>,
    others: Seq<Seq<char>>,
)
    requires
        recipients.to_set() == others.to_set(),
    ensures
        recipients_folders(domains, recipients).subset_of(recipients_folders(domains, others)),
{
    assert forall|f: Seq<char>| recipients_folders(domains, recipients).contains(f) implies (
    #[trigger] recipients_folders(domains, others).contains(f)) by {
        let i = choose|i: int|
            0 <= i < recipients.len() && folders_in(
                encode_utf8(#[trigger] recipients[i]),
                domains,
            ).contains(f);
        assert(recipients.to_set().contains(recipients[i]));
        assert(others.to_set().contains(recipients[i]));
        let j = choose|j: int| 0 <= j < others.len() && others[j] == recipients[i];
        assert(folders_in(encode_utf8(others[j]), domains).contains(f));
    }
}

/// An address: a local part, an `@` and a domain.
pub open spec fn address(local: Seq<u8>, domain: Seq<u8>) -> Seq<u8> {
    local.push(64) + domain
}

/// A text that is one address has one folder at most: the local part without its
/// detail, in lower case, if that is a safe name and the domain is exactly one of
/// those configured, in whatever case it is written.
pub proof fn law_address_has_one_folder(
    local: Seq<u8>,
    domain: Seq<u8>,
    domains: Seq<Seq<char>>,
)
    requires
        forall|i: int| 0 <= i < local.len() ==> local_part_byte(#[trigger] local[i]),
        forall|i: int| 0 <= i < domain.len() ==> domain_byte(#[trigger] domain[i]),
    ensures
        folders_in(address(local, domain), domains) == if local.len() > 0 && domain.len() > 0
            && domains.contains(lower(ascii_text(domain))) && safe_folder_name(
            without_detail(ascii_text(local)),
        ) {
            set![lower(without_detail(ascii_text(local)))]
        } else {
            Set::empty()
        },
{
    let text = address(local, domain);
    let at = local.len() as int;
    lemma_local_start(text, at);
    lemma_domain_stop(text, at + 1);
    assert(text.subrange(0, at) =~= local);
    assert(text.subrange(at + 1, text.len() as int) =~= domain);
    let here = folder_at(text, domains, at);
    let all = folders_in(text, domains);
    assert forall|f: Seq<char>| all.contains(f) == (here == Some(f)) by {
        if all.contains(f) {
            let j = choose|j: int|
                0 <= j < text.len() && #[trigger] folder_at(text, domains, j) == Some(f);
            assert(text[j] == 64);
            if j < at {
                assert(text[j] == local[j]);
            } else if j > at {
                assert(text[j] == domain[j - at - 1]);
            }
        }
    }
    match here {
        Some(folder) => {
            assert(all =~= set![folder]);
        },
        None => {
            assert(all =~= Set::empty());
        },
    }
}

proof fn lemma_local_start(text: Seq<u8>, at: int)
    requires
        0 <= at <= text.len(),
        forall|i: int| 0 <= i < at ==> local_part_byte(#[trigger] text[i]),
    ensures
        local_start(text, at) == 0,
    decreases at,
{
    if at > 0 {
        lemma_local_start(text, at - 1);
    }
}

proof fn lemma_domain_stop(text: Seq<u8>, start: int)
    requires
        0 <= start <= text.len(),
        forall|i: int| start <= i < text.len() ==> domain_byte(#[trigger] text[i]),
    ensures
        domain_stop(text, start) == text.len(),
    decreases text.len() - start,
{
    if start < text.len() {
        lemma_domain_stop(text, start + 1);
    }
}

/// A detail behind `+` or `#` does not change the folder: the name without the
/// detail decides alone.
pub proof fn law_detail_is_ignored(
    name: Seq<u8>,
    mark: u8,
    detail: Seq<u8>,
    domain: Seq<u8>,
    domains: Seq<Seq<char>>,
)
    requires
        name.len() > 0,
        mark == 43 || (mark == 35 && !detail.contains(43)),
        forall|i: int|
            0 <= i < name.len() ==> local_part_byte(#[trigger] name[i]) && name[i] != 43 && name[i]
                != 35,
        forall|i: int| 0 <= i < detail.len() ==> local_part_byte(#[trigger] detail[i]),
        forall|i: int| 0 <= i < domain.len() ==> domain_byte(#[trigger] domain[i]),
    ensures
        folders_in(address(name.push(mark) + detail, domain), domains) == folders_in(
            address(name, domain),
            domains,
        ),
{
    let long = name.push(mark) + detail;
    assert forall|i: int| 0 <= i < long.len() implies local_part_byte(#[trigger] long[i]) by {
        if i < name.len() {
            assert(long[i] == name[i]);
        } else if i > name.len() {
            assert(long[i] == detail[i - name.len() - 1]);
        }
    }
    law_address_has_one_folder(long, domain, domains);
    law_address_has_one_folder(name, domain, domains);
    let short_text = ascii_text(name);
    let long_text = ascii_text(long);
    assert forall|i: int| 0 <= i < short_text.len() implies #[trigger] short_text[i] != '+'
        && short_text[i] != '#' by {
        assert(name[i] != 43 && name[i] != 35);
    }
    lemma_find_char(short_text, '+');
    lemma_find_char(short_text, '#');
    assert(without_detail(short_text) == short_text);
    assert forall|i: int| 0 <= i < name.len() implies #[trigger] long_text[i] == short_text[i] by {
        assert(long[i] == name[i]);
    }
    if mark == 43 {
        assert(long_text[name.len() as int] == '+');
        lemma_find_char_is(long_text, '+', name.len() as int);
    } else {
        assert forall|i: int| 0 <= i < long_text.len() implies #[trigger] long_text[i] != '+' by {
            if i < name.len() {
                assert(long_text[i] == short_text[i]);
            } else if i > name.len() {
                assert(long[i] == detail[i - name.len() - 1]);
                assert(detail.contains(long[i]));
            }
        }
        lemma_find_char(long_text, '+');
        assert(long_text[name.len() as int] == '#');
        lemma_find_char_is(long_text, '#', name.len() as int);
    }
    assert(long_text.take(name.len() as int) =~= short_text);
}

/// Only the headers `To`, `Cc` and `Bcc`, in any case, name recipients: one of these adds
/// the folders for the addresses in its value, and any other header adds none.
pub proof fn law_only_recipient_headers_add_folders(
    domains: Seq<Seq<char>>,
    recipients: Seq<Seq<char>>,
    headers: Seq<(Seq<char>, Seq<char>)>,
    header: (Seq<char>, Seq<char>),
)
    ensures
        lower(header.0) == "to"@ || lower(header.0) == "cc"@ || lower(header.0) == "bcc"@
            ==> message_folders(domains, recipients, headers.push(header)) == message_folders(
            domains,
            recipients,
            headers,
        ).union(folders_in(encode_utf8(header.1), domains)),
        lower(header.0) != "to"@ && lower(header.0) != "cc"@ && lower(header.0) != "bcc"@
            ==> message_folders(domains, recipients, headers.push(header)) == message_folders(
            domains,
            recipients,
            headers,
        ),
{
    reveal_strlit("to");
    reveal_strlit("cc");
    reveal_strlit("bcc");
    assert(lower("to"@) =~= "to"@);
    assert(lower("cc"@) =~= "cc"@);
    assert(lower("bcc"@) =~= "bcc"@);
    lemma_one_more_header(domains, headers, header);
    let here = folders_in(encode_utf8(header.1), domains);
    let before = headers_folders(domains, headers);
    let envelope = recipients_folders(domains, recipients);
    assert(envelope.union(before.union(here)) =~= envelope.union(before).union(here));
}

/// Every envelope recipient adds the folders for the addresses in it, and no recipient and
/// no header make no folder.
pub proof fn law_every_recipient_adds_folders(
    domains: Seq<Seq<char>>,
    recipients: Seq<Seq<char>>,
    headers: Seq<(Seq<char>, Seq<char>)>,
    recipient: Seq<char>,
)
    ensures
        message_folders(domains, recipients.push(recipient), headers) == message_folders(
            domains,
            recipients,
            headers,
        ).union(folders_in(encode_utf8(recipient), domains)),
        message_folders(domains, Seq::empty(), Seq::empty()) == Set::<Seq<char>>::empty(),
{
    lemma_one_more_recipient(domains, recipients, recipient);
    let here = folders_in(encode_utf8(recipient), domains);
    let before = recipients_folders(domains, recipients);
    let others = headers_folders(domains, headers);
    assert(before.union(here).union(others) =~= before.union(others).union(here));
    assert(message_folders(domains, Seq::empty(), Seq::empty()) =~= Set::<Seq<char>>::empty());
}

/// The bytes of an address are ASCII letters and digits, in the domain also `.` and `-`,
/// and before the `@` also `_`, `%`, `+` and `#`.
pub proof fn law_address_bytes(b: u8)
    ensures
        local_part_byte(b) <==> ('a' as u8 <= b <= 'z' as u8 || 'A' as u8 <= b <= 'Z' as u8 || '0'
            as u8 <= b <= '9' as u8 || b == '.' as u8 || b == '-' as u8 || b == '_' as u8 || b
            == '%' as u8 || b == '+' as u8 || b == '#' as u8),
        domain_byte(b) <==> ('a' as u8 <= b <= 'z' as u8 || 'A' as u8 <= b <= 'Z' as u8 || '0' as u8
            <= b <= '9' as u8 || b == '.' as u8 || b == '-' as u8),
{
}

/// The local part that ends at a place is the longest run of its bytes there, and the
/// domain that begins at a place is the longest run of its bytes.
pub proof fn law_address_parts_are_longest_runs(text: Seq<u8>, at: int)
    requires
        0 <= at <= text.len(),
    ensures
        0 <= local_start(text, at) <= at,
        forall|i: int| local_start(text, at) <= i < at ==> local_part_byte(#[trigger] text[i]),
        local_start(text, at) > 0 ==> !local_part_byte(text[local_start(text, at) - 1]),
        at <= domain_stop(text, at) <= text.len(),
        forall|i: int| at <= i < domain_stop(text, at) ==> domain_byte(#[trigger] text[i]),
        domain_stop(text, at) < text.len() ==> !domain_byte(text[domain_stop(text, at)]),
{
    lemma_local_run(text, at);
    lemma_domain_run(text, at);
}

proof fn lemma_local_run(text: Seq<u8>, at: int)
    requires
        0 <= at <= text.len(),
    ensures
        0 <= local_start(text, at) <= at,
        forall|i: int| local_start(text, at) <= i < at ==> local_part_byte(#[trigger] text[i]),
        local_start(text, at) > 0 ==> !local_part_byte(text[local_start(text, at) - 1]),
    decreases at,
{
    if at > 0 && local_part_byte(text[at - 1]) {
        lemma_local_run(text, at - 1);
    }
}

proof fn lemma_domain_run(text: Seq<u8>, start: int)
    requires
        0 <= start <= text.len(),
    ensures
        start <= domain_stop(text, start) <= text.len(),
        forall|i: int| start <= i < domain_stop(text, start) ==> domain_byte(#[trigger] text[i]),
        domain_stop(text, start) < text.len() ==> !domain_byte(text[domain_stop(text, start)]),
    decreases text.len() - start,
{
    if start < text.len() && domain_byte(text[start]) {
        lemma_domain_run(text, start + 1);
    }
}

/// A name is a folder's exactly where it has a character, holds ASCII letters, digits, `.`,
/// `_` and `-` alone, and is not one or two dots.
pub proof fn law_safe_folder_names(name: Seq<char>)
    ensures
        safe_folder_name(name) <==> {
            &&& name.len() > 0
            &&& name != seq!['.']
            &&& name != seq!['.', '.']
            &&& forall|i: int|
                0 <= i < name.len() ==> {
                    let n = #[trigger] name[i] as u32;
                    97 <= n <= 122 || 65 <= n <= 90 || 48 <= n <= 57 || n == 46 || n == 95 || n
                        == 45
                }
        },
{
    reveal_strlit(".");
    reveal_strlit("..");
    assert("."@ =~= seq!['.']);
    assert(".."@ =~= seq!['.', '.']);
    assert forall|c: char| #[trigger] folder_char(c) == {
        let n = c as u32;
        97 <= n <= 122 || 65 <= n <= 90 || 48 <= n <= 57 || n == 46 || n == 95 || n == 45
    } by {
        vstd::utf8::char_u32_cast(c, c as u32);
    }
    if safe_folder_name(name) {
        assert forall|i: int| 0 <= i < name.len() implies {
            let n = #[trigger] name[i] as u32;
            97 <= n <= 122 || 65 <= n <= 90 || 48 <= n <= 57 || n == 46 || n == 95 || n == 45
        } by {
            assert(folder_char(name[i]));
        }
    }
}

/// An address with no detail, and with no `%`, goes to the folder of its local part, in
/// lower case, where its domain is configured; one with a `%` goes nowhere.
pub proof fn law_plain_address_names_its_folder(
    local: Seq<u8>,
    domain: Seq<u8>,
    domains: Seq<Seq<char>>,
)
    requires
        local.len() > 0,
        domain.len() > 0,
        forall|i: int|
            0 <= i < local.len() ==> local_part_byte(#[trigger] local[i]) && local[i] != 43
                && local[i] != 35,
        forall|i: int| 0 <= i < domain.len() ==> domain_byte(#[trigger] domain[i]),
    ensures
        !domains.contains(lower(ascii_text(domain))) || local.contains(37) || local == seq![46u8]
            || local == seq![46u8, 46u8] ==> folders_in(address(local, domain), domains)
            == Set::<Seq<char>>::empty(),
        domains.contains(lower(ascii_text(domain))) && !local.contains(37) && local != seq![46u8]
            && local != seq![46u8, 46u8] ==> folders_in(address(local, domain), domains) == set![
            lower(ascii_text(local)),
        ],
{
    let name = ascii_text(local);
    assert forall|i: int| 0 <= i < name.len() implies #[trigger] name[i] != '+' && name[i] != '#' by {
        assert(local_part_byte(local[i]));
    }
    lemma_find_char(name, '+');
    lemma_find_char(name, '#');
    assert(without_detail(name) == name);
    law_address_has_one_folder(local, domain, domains);
    law_safe_folder_names(name);
    if local.contains(37) {
        let i = choose|i: int| 0 <= i < local.len() && local[i] == 37;
        assert(name[i] as u32 == 37);
        assert(!safe_folder_name(name));
    } else {
        assert forall|i: int| 0 <= i < name.len() implies {
            let n = #[trigger] name[i] as u32;
            97 <= n <= 122 || 65 <= n <= 90 || 48 <= n <= 57 || n == 46 || n == 95 || n == 45
        } by {
            assert(local_part_byte(local[i]));
            assert(local.contains(local[i]));
        }
        if name == seq!['.'] {
            assert(name[0] == '.');
            assert(local =~= seq![46u8]);
        }
        if name == seq!['.', '.'] {
            assert(name[0] == '.' && name[1] == '.');
            assert(local =~= seq![46u8, 46u8]);
        }
        if local == seq![46u8] {
            assert(name =~= seq!['.']);
        }
        if local == seq![46u8, 46u8] {
            assert(name =~= seq!['.', '.']);
        }
    }
}

/// A byte that no address has keeps the texts before and behind it apart: their folders
/// are found one by one.
pub proof fn law_addresses_are_found_one_by_one(
    a: Seq<u8>,
    separator: u8,
    b: Seq<u8>,
    domains: Seq<Seq<char>>,
)
    requires
        !local_part_byte(separator),
        separator != 64,
    ensures
        folders_in(a.push(separator) + b, domains) == folders_in(a, domains).union(
            folders_in(b, domains),
        ),
{
    let text = a.push(separator) + b;
    let n = a.len() as int;
    let whole = folders_in(text, domains);
    let both = folders_in(a, domains).union(folders_in(b, domains));
    assert forall|at: int| 0 <= at < n implies #[trigger] folder_at(a, domains, at) == folder_at(
        text,
        domains,
        at,
    ) by {
        lemma_parts_before(a, separator, b, at);
        lemma_parts_before(a, separator, b, at + 1);
        lemma_local_run(a, at);
        lemma_domain_run(a, at + 1);
        assert(a.subrange(at + 1, domain_stop(a, at + 1)) =~= text.subrange(
            at + 1,
            domain_stop(a, at + 1),
        ));
        assert(a.subrange(local_start(a, at), at) =~= text.subrange(local_start(a, at), at));
    }
    assert forall|at: int| 0 <= at < b.len() implies #[trigger] folder_at(b, domains, at)
        == folder_at(text, domains, n + 1 + at) by {
        lemma_parts_behind(a, separator, b, at);
        lemma_parts_behind(a, separator, b, at + 1);
        lemma_local_run(b, at);
        lemma_domain_run(b, at + 1);
        assert(b.subrange(at + 1, domain_stop(b, at + 1)) =~= text.subrange(
            n + 1 + at + 1,
            n + 1 + domain_stop(b, at + 1),
        ));
        assert(b.subrange(local_start(b, at), at) =~= text.subrange(
            n + 1 + local_start(b, at),
            n + 1 + at,
        ));
    }
    assert forall|f: Seq<char>| whole.contains(f) == both.contains(f) by {
        if whole.contains(f) {
            let at = choose|at: int|
                0 <= at < text.len() && #[trigger] folder_at(text, domains, at) == Some(f);
            if at < n {
                assert(folder_at(a, domains, at) == Some(f));
            } else if at == n {
                assert(text[n] == separator);
            } else {
                assert(folder_at(b, domains, at - n - 1) == Some(f));
            }
        }
        if folders_in(a, domains).contains(f) {
            let at = choose|at: int|
                0 <= at < n && #[trigger] folder_at(a, domains, at) == Some(f);
            assert(folder_at(text, domains, at) == Some(f));
        }
        if folders_in(b, domains).contains(f) {
            let at = choose|at: int|
                0 <= at < b.len() && #[trigger] folder_at(b, domains, at) == Some(f);
            assert(folder_at(text, domains, n + 1 + at) == Some(f));
        }
    }
    assert(whole =~= both);
}

proof fn lemma_parts_before(a: Seq<u8>, separator: u8, b: Seq<u8>, at: int)
    requires
        !local_part_byte(separator),
        0 <= at <= a.len(),
    ensures
        local_start(a.push(separator) + b, at) == local_start(a, at),
        domain_stop(a.push(separator) + b, at) == domain_stop(a, at),
{
    lemma_local_before(a, separator, b, at);
    lemma_domain_before(a, separator, b, at);
}

proof fn lemma_local_before(a: Seq<u8>, separator: u8, b: Seq<u8>, at: int)
    requires
        0 <= at <= a.len(),
    ensures
        local_start(a.push(separator) + b, at) == local_start(a, at),
    decreases at,
{
    if at > 0 {
        assert((a.push(separator) + b)[at - 1] == a[at - 1]);
        lemma_local_before(a, separator, b, at - 1);
    }
}

proof fn lemma_domain_before(a: Seq<u8>, separator: u8, b: Seq<u8>, at: int)
    requires
        !local_part_byte(separator),
        0 <= at <= a.len(),
    ensures
        domain_stop(a.push(separator) + b, at) == domain_stop(a, at),
    decreases a.len() - at,
{
    if at < a.len() {
        assert((a.push(separator) + b)[at] == a[at]);
        lemma_domain_before(a, separator, b, at + 1);
    } else {
        assert((a.push(separator) + b)[at] == separator);
    }
}

proof fn lemma_parts_behind(a: Seq<u8>, separator: u8, b: Seq<u8>, at: int)
    requires
        !local_part_byte(separator),
        0 <= at <= b.len(),
    ensures
        local_start(a.push(separator) + b, a.len() + 1 + at) == a.len() + 1 + local_start(b, at),
        domain_stop(a.push(separator) + b, a.len() + 1 + at) == a.len() + 1 + domain_stop(b, at),
{
    lemma_local_behind(a, separator, b, at);
    lemma_domain_behind(a, separator, b, at);
}

proof fn lemma_local_behind(a: Seq<u8>, separator: u8, b: Seq<u8>, at: int)
    requires
        !local_part_byte(separator),
        0 <= at <= b.len(),
    ensures
        local_start(a.push(separator) + b, a.len() + 1 + at) == a.len() + 1 + local_start(b, at),
    decreases at,
{
    let text = a.push(separator) + b;
    if at > 0 {
        assert(text[a.len() + at] == b[at - 1]);
        lemma_local_behind(a, separator, b, at - 1);
    } else {
        assert(text[a.len() as int] == separator);
    }
}

proof fn lemma_domain_behind(a: Seq<u8>, separator: u8, b: Seq<u8>, at: int)
    requires
        0 <= at <= b.len(),
    ensures
        domain_stop(a.push(separator) + b, a.len() + 1 + at) == a.len() + 1 + domain_stop(b, at),
    decreases b.len() - at,
{
    let text = a.push(separator) + b;
    if at < b.len() {
        assert(text[a.len() + 1 + at] == b[at]);
        lemma_domain_behind(a, separator, b, at + 1);
    }
}

/// A detail begins at the first `+`; only where there is none, at the first `#`.
pub proof fn law_where_a_detail_begins(base: Seq<char>, detail: Seq<char>)
    requires
        !base.contains('+'),
    ensures
        without_detail(base + seq!['+'] + detail) == base,
        !base.contains('#') ==> without_detail(base) == base,
        !base.contains('#') && !detail.contains('+') ==> without_detail(base + seq!['#'] + detail)
            == base,
{
    law_split_at_first(base, '+', detail);
    assert(base + seq!['+'] + detail =~= base.push('+') + detail);
    if !base.contains('#') {
        law_split_at_first(base, '#', detail);
        let marked = base + seq!['#'] + detail;
        assert(marked =~= base.push('#') + detail);
        if !detail.contains('+') {
            assert(!marked.contains('+')) by {
                if marked.contains('+') {
                    let i = choose|i: int| 0 <= i < marked.len() && marked[i] == '+';
                    if i < base.len() {
                        assert(marked[i] == base[i]);
                        assert(base.contains('+'));
                    } else {
                        assert(marked[i] == detail[i - base.len() - 1]);
                        assert(detail.contains('+'));
                    }
                }
            }
            law_split_at_first(marked, '+', detail);
        }
    }
}

/// Wherever an `@` stands in a text, what is around it is an address: the bytes of a local
/// part before it and those of a domain behind it. Its folder is the local part without its
/// detail, in lower case, where neither part is empty, the domain is a configured one and
/// the name is safe.
pub proof fn law_address_around_an_at(
    before: Seq<u8>,
    local: Seq<u8>,
    domain: Seq<u8>,
    behind: Seq<u8>,
    domains: Seq<Seq<char>>,
)
    requires
        forall|i: int| 0 <= i < local.len() ==> local_part_byte(#[trigger] local[i]),
        forall|i: int| 0 <= i < domain.len() ==> domain_byte(#[trigger] domain[i]),
        before.len() > 0 ==> !local_part_byte(before.last()),
        behind.len() > 0 ==> !domain_byte(behind[0]),
    ensures
        ({
            let text = before + local + seq![64u8] + domain + behind;
            let at = before.len() + local.len();
            let name = without_detail(ascii_text(local));
            folder_at(text, domains, at as int) == if local.len() > 0 && domain.len() > 0
                && domains.contains(lower(ascii_text(domain))) && safe_folder_name(name) {
                Some(lower(name))
            } else {
                None
            }
        }),
{
    let text = before + local + seq![64u8] + domain + behind;
    let b = before.len() as int;
    let at = b + local.len();
    let end = at + 1 + domain.len();
    assert(text[at] == 64);
    law_address_parts_are_longest_runs(text, at);
    law_address_parts_are_longest_runs(text, at + 1);
    let start = local_start(text, at);
    let stop = domain_stop(text, at + 1);
    if start > b {
        assert(text[start - 1] == local[start - 1 - b]);
    } else if start < b {
        assert(text[b - 1] == before[b - 1]);
    }
    if stop < end {
        assert(text[stop] == domain[stop - at - 1]);
    } else if stop > end {
        assert(text[end] == behind[0]);
    }
    assert(start == b && stop == end);
    assert(text.subrange(b, at) =~= local);
    assert(text.subrange(at + 1, end) =~= domain);
}

/// The folders of a text are those of the addresses round each `@` in it.
pub proof fn law_every_at_is_looked_at(text: Seq<u8>, domains: Seq<Seq<char>>, folder: Seq<char>)
    ensures
        folders_in(text, domains).contains(folder) <==> exists|at: int|
            0 <= at < text.len() && text[at] == 64 && #[trigger] folder_at(text, domains, at)
                == Some(folder),
{
}

/// The bytes of an address are the characters of its text, one by one.
pub proof fn law_bytes_are_characters(bytes: Seq<u8>)
    ensures
        ascii_text(bytes).len() == bytes.len(),
        forall|i: int| 0 <= i < bytes.len() ==> #[trigger] ascii_text(bytes)[i] as u32 == bytes[i],
{
}

} // verus!
