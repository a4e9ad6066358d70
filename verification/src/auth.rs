//! The policy on the `Authentication-Results` headers of a message.
use crate::bytes::{headers_and_body, split_headers_body};
use crate::headers::{headers_in_lines, lemma_split_nonempty, parse_headers, parsed_headers};
use crate::text::{
    chars_of, contains, contains_text, find_char, first_word, first_word_of, is_white_space,
    law_first_word, law_repeated_character_is_taken_off, lemma_find_char, lines, lower, lower_char,
    pair_texts, same_chars, same_ignoring_case, same_text_ignoring_case, slice_texts, split,
    split_chars, texts, to_lower, trim_end_char, trim_end_matching,
};
use vstd::prelude::*;
use vstd::utf8::{decode_utf8, valid_utf8};

verus! {

/// Whether messages have to pass the policy.
#[derive(Clone, Copy, Debug, PartialEq, Eq, Structural)]
pub enum AuthResultsMode {
    Off,
    Require,
}

/// Whether one of the required results is enough or all are needed.
#[derive(Clone, Copy, Debug, PartialEq, Eq, Structural)]
pub enum AuthResultsMatchMode {
    Any,
    All,
}

/// Which servers' results count, and which results are required.
#[derive(Clone, Debug, PartialEq, Eq)]
pub struct AuthResultsConfig {
    pub mode: AuthResultsMode,
    pub trusted_servers: Vec<String>,
    pub required_results: Vec<String>,
    pub match_mode: AuthResultsMatchMode,
}

/// What an `AuthResultsConfig` says.
pub struct AuthPolicy {
    pub mode: AuthResultsMode,
    pub trusted_servers: Seq<Seq<char>>,
    pub required_results: Seq<Seq<char>>,
    pub match_mode: AuthResultsMatchMode,
}

impl View for AuthResultsConfig {
    type V = AuthPolicy;

    open spec fn view(&self) -> AuthPolicy {
        AuthPolicy {
            mode: self.mode,
            trusted_servers: texts(self.trusted_servers@),
            required_results: texts(self.required_results@),
            match_mode: self.match_mode,
        }
    }
}

/// The server that a header value names: the first word before the first
/// semicolon, in lower case, without dots at its end.
pub open spec fn naming_server(value: Seq<char>) -> Seq<char> {
    trim_end_char(first_word(split(lower(value), ';')[0]), '.')
}

impl AuthPolicy {
    /// Whether the server is one of those trusted; dots at the end of a name do
    /// not matter.
    pub open spec fn trusts(self, server: Seq<char>) -> bool {
        exists|i: int|
            0 <= i < self.trusted_servers.len() && trim_end_char(
                #[trigger] self.trusted_servers[i],
                '.',
            ) == server
    }

    /// Whether the required results occur in a text.
    pub open spec fn finds_results(self, text: Seq<char>) -> bool {
        match self.match_mode {
            AuthResultsMatchMode::Any => exists|i: int|
                0 <= i < self.required_results.len() && contains(
                    text,
                    #[trigger] self.required_results[i],
                ),
            AuthResultsMatchMode::All => forall|i: int|
                0 <= i < self.required_results.len() ==> contains(
                    text,
                    #[trigger] self.required_results[i],
                ),
        }
    }

    /// Whether one header value satisfies the policy.
    pub open spec fn accepts_value(self, value: Seq<char>) -> bool {
        self.trusts(naming_server(value)) && self.finds_results(lower(value))
    }

    /// Whether one of these headers is an `Authentication-Results` header that
    /// satisfies the policy.
    pub open spec fn finds_header(self, headers: Seq<(Seq<char>, Seq<char>)>) -> bool {
        exists|i: int|
            0 <= i < headers.len() && same_ignoring_case(
                (#[trigger] headers[i]).0,
                "authentication-results"@,
            ) && self.accepts_value(headers[i].1)
    }

    /// Whether a message with these headers passes.
    pub open spec fn passes(self, headers: Seq<(Seq<char>, Seq<char>)>) -> bool {
        match self.mode {
            AuthResultsMode::Off => true,
            AuthResultsMode::Require => self.trusted_servers.len() > 0
                && self.required_results.len() > 0 && self.finds_header(headers),
        }
    }
}

/// Whether one header value satisfies the policy.
pub fn auth_results_header_satisfies(config: &AuthResultsConfig, value: &str) -> (r: bool)
    ensures
        r == config@.accepts_value(value@),
{
    let lowered = to_lower(chars_of(value).as_slice());
    let pieces = split_chars(lowered.as_slice(), ';');
    proof {
        lemma_split_nonempty(lowered@, ';');
        assert(slice_texts(pieces@)[0] == pieces@[0]@);
    }
    let server = trim_end_matching(first_word_of(pieces[0]), '.');
    if !is_trusted(config, server) {
        return false;
    }
    match config.match_mode {
        AuthResultsMatchMode::Any => finds_any(&config.required_results, lowered.as_slice()),
        AuthResultsMatchMode::All => finds_all(&config.required_results, lowered.as_slice()),
    }
}

fn is_trusted(config: &AuthResultsConfig, server: &[char]) -> (r: bool)
    ensures
        r == config@.trusts(server@),
{
    let ghost trusted = config@.trusted_servers;
    let mut i: usize = 0;
    while i < config.trusted_servers.len()
        invariant
            i <= config.trusted_servers@.len(),
            trusted == config@.trusted_servers,
            forall|j: int| 0 <= j < i ==> trim_end_char(#[trigger] trusted[j], '.') != server@,
        decreases config.trusted_servers@.len() - i,
    {
        let name = chars_of(config.trusted_servers[i].as_str());
        if same_chars(trim_end_matching(name.as_slice(), '.'), server) {
            assert(trim_end_char(trusted[i as int], '.') == server@);
            return true;
        }
        i = i + 1;
    }
    false
}

fn finds_any(required: &Vec<String>, text: &[char]) -> (r: bool)
    ensures
        r == exists|i: int|
            0 <= i < texts(required@).len() && contains(text@, #[trigger] texts(required@)[i]),
{
    let mut i: usize = 0;
    while i < required.len()
        invariant
            i <= required@.len(),
            forall|j: int| 0 <= j < i ==> !contains(text@, #[trigger] texts(required@)[j]),
        decreases required@.len() - i,
    {
        if contains_text(text, required[i].as_str()) {
            assert(contains(text@, texts(required@)[i as int]));
            return true;
        }
        i = i + 1;
    }
    false
}

fn finds_all(required: &Vec<String>, text: &[char]) -> (r: bool)
    ensures
        r == forall|i: int|
            0 <= i < texts(required@).len() ==> contains(text@, #[trigger] texts(required@)[i]),
{
    let mut i: usize = 0;
    while i < required.len()
        invariant
            i <= required@.len(),
            forall|j: int| 0 <= j < i ==> contains(text@, #[trigger] texts(required@)[j]),
        decreases required@.len() - i,
    {
        if !contains_text(text, required[i].as_str()) {
            assert(!contains(text@, texts(required@)[i as int]));
            return false;
        }
        i = i + 1;
    }
    true
}

/// Whether a message with these headers passes the policy.
pub fn headers_satisfy_auth_results_policy(
    config: &AuthResultsConfig,
    headers: &[(String, String)],
) -> (r: bool)
    ensures
        r == config@.passes(pair_texts(headers@)),
{
    match config.mode {
        AuthResultsMode::Off => {
            return true;
        },
        AuthResultsMode::Require => {},
    }
    if config.trusted_servers.len() == 0 || config.required_results.len() == 0 {
        return false;
    }
    let ghost pairs = pair_texts(headers@);
    let ghost policy = config@;
    let mut i: usize = 0;
    while i < headers.len()
        invariant
            i <= headers@.len(),
            pairs == pair_texts(headers@),
            policy == config@,
            policy.mode == AuthResultsMode::Require,
            policy.trusted_servers.len() > 0,
            policy.required_results.len() > 0,
            forall|j: int|
                0 <= j < i ==> !(same_ignoring_case(
                    (#[trigger] pairs[j]).0,
                    "authentication-results"@,
                ) && policy.accepts_value(pairs[j].1)),
        decreases headers@.len() - i,
    {
        if same_text_ignoring_case(headers[i].0.as_str(), "authentication-results")
            && auth_results_header_satisfies(config, headers[i].1.as_str()) {
            assert(policy.accepts_value(pairs[i as int].1));
            return true;
        }
        i = i + 1;
    }
    false
}

/// Whether a message passes the policy.
pub fn message_satisfies_auth_results_policy(config: &AuthResultsConfig, data: &[u8]) -> (r: bool)
    ensures
        r == config@.passes(parsed_headers(headers_and_body(data@).0)),
        valid_utf8(headers_and_body(data@).0) ==> r == config@.passes(
            headers_in_lines(lines(decode_utf8(headers_and_body(data@).0))),
        ),
{
    let (header_bytes, _) = split_headers_body(data);
    let headers = parse_headers(header_bytes);
    headers_satisfy_auth_results_policy(config, headers.as_slice())
}

// ---------------------------------------------------------------------------
// Laws
// ---------------------------------------------------------------------------
/// A policy that is off lets every message pass.
pub proof fn law_off_passes_all(policy: AuthPolicy, headers: Seq<(Seq<char>, Seq<char>)>)
    requires
        policy.mode == AuthResultsMode::Off,
    ensures
        policy.passes(headers),
{
}

/// A policy that is required but trusts no server, or requires no result, lets no
/// message pass.
pub proof fn law_incomplete_policy_passes_none(
    policy: AuthPolicy,
    headers: Seq<(Seq<char>, Seq<char>)>,
)
    requires
        policy.mode == AuthResultsMode::Require,
        policy.trusted_servers.len() == 0 || policy.required_results.len() == 0,
    ensures
        !policy.passes(headers),
{
}

/// What other headers say does not matter: a message that passes a required policy
/// has a header of the right name in which a trusted server gives a required result.
pub proof fn law_passing_needs_a_trusted_result(
    policy: AuthPolicy,
    headers: Seq<(Seq<char>, Seq<char>)>,
)
    requires
        policy.mode == AuthResultsMode::Require,
        policy.passes(headers),
    ensures
        exists|i: int, k: int|
            0 <= i < headers.len() && same_ignoring_case(
                (#[trigger] headers[i]).0,
                "authentication-results"@,
            ) && policy.trusts(naming_server(headers[i].1)) && 0 <= k
                < policy.required_results.len() && contains(
                lower(headers[i].1),
                #[trigger] policy.required_results[k],
            ),
{
    let i = choose|i: int|
        0 <= i < headers.len() && same_ignoring_case(
            (#[trigger] headers[i]).0,
            "authentication-results"@,
        ) && policy.accepts_value(headers[i].1);
    match policy.match_mode {
        AuthResultsMatchMode::Any => {
            let k = choose|k: int|
                0 <= k < policy.required_results.len() && contains(
                    lower(headers[i].1),
                    #[trigger] policy.required_results[k],
                );
            assert(policy.trusts(naming_server(headers[i].1)));
        },
        AuthResultsMatchMode::All => {
            assert(contains(lower(headers[i].1), policy.required_results[0]));
        },
    }
}

/// To ask for all results is stricter than to ask for any.
pub proof fn law_all_is_stricter_than_any(
    all: AuthPolicy,
    any: AuthPolicy,
    headers: Seq<(Seq<char>, Seq<char>)>,
)
    requires
        all.match_mode == AuthResultsMatchMode::All,
        any == (AuthPolicy { match_mode: AuthResultsMatchMode::Any, ..all }),
        all.passes(headers),
    ensures
        any.passes(headers),
{
    if all.mode == AuthResultsMode::Require {
        let i = choose|i: int|
            0 <= i < headers.len() && same_ignoring_case(
                (#[trigger] headers[i]).0,
                "authentication-results"@,
            ) && all.accepts_value(headers[i].1);
        let server = naming_server(headers[i].1);
        let t = choose|t: int|
            0 <= t < all.trusted_servers.len() && trim_end_char(
                #[trigger] all.trusted_servers[t],
                '.',
            ) == server;
        assert(trim_end_char(any.trusted_servers[t], '.') == server);
        assert(contains(lower(headers[i].1), any.required_results[0]));
        assert(any.accepts_value(headers[i].1));
    }
}

/// A policy that is required is passed exactly where it is complete and one of the
/// `Authentication-Results` headers is a trusted server's and holds the required results:
/// one of them, or every one, as the policy asks. The header's name and value are taken in
/// any case, and dots at the end of a server's name do not matter.
pub proof fn law_required_results_decide(
    policy: AuthPolicy,
    headers: Seq<(Seq<char>, Seq<char>)>,
)
    requires
        policy.mode == AuthResultsMode::Require,
    ensures
        policy.match_mode == AuthResultsMatchMode::All ==> (policy.passes(headers) <==> {
            &&& policy.trusted_servers.len() > 0
            &&& policy.required_results.len() > 0
            &&& exists|i: int, t: int|
                {
                    &&& 0 <= i < headers.len()
                    &&& lower((#[trigger] headers[i]).0) == "authentication-results"@
                    &&& 0 <= t < policy.trusted_servers.len()
                    &&& trim_end_char(#[trigger] policy.trusted_servers[t], '.') == trim_end_char(
                        first_word(split(lower(headers[i].1), ';')[0]),
                        '.',
                    )
                    &&& forall|k: int|
                        0 <= k < policy.required_results.len() ==> contains(
                            lower(headers[i].1),
                            #[trigger] policy.required_results[k],
                        )
                }
        }),
        policy.match_mode == AuthResultsMatchMode::Any ==> (policy.passes(headers) <==> {
            &&& policy.trusted_servers.len() > 0
            &&& policy.required_results.len() > 0
            &&& exists|i: int, t: int, k: int|
                {
                    &&& 0 <= i < headers.len()
                    &&& lower((#[trigger] headers[i]).0) == "authentication-results"@
                    &&& 0 <= t < policy.trusted_servers.len()
                    &&& trim_end_char(#[trigger] policy.trusted_servers[t], '.') == trim_end_char(
                        first_word(split(lower(headers[i].1), ';')[0]),
                        '.',
                    )
                    &&& 0 <= k < policy.required_results.len()
                    &&& contains(lower(headers[i].1), #[trigger] policy.required_results[k])
                }
        }),
{
    lemma_header_name();
    if policy.passes(headers) {
        let i = choose|i: int|
            0 <= i < headers.len() && same_ignoring_case(
                (#[trigger] headers[i]).0,
                "authentication-results"@,
            ) && policy.accepts_value(headers[i].1);
        let server = naming_server(headers[i].1);
        let t = choose|t: int|
            0 <= t < policy.trusted_servers.len() && trim_end_char(
                #[trigger] policy.trusted_servers[t],
                '.',
            ) == server;
        assert(lower(headers[i].0) == "authentication-results"@);
        assert(trim_end_char(policy.trusted_servers[t], '.') == server);
        match policy.match_mode {
            AuthResultsMatchMode::Any => {
                let k = choose|k: int|
                    0 <= k < policy.required_results.len() && contains(
                        lower(headers[i].1),
                        #[trigger] policy.required_results[k],
                    );
                assert(contains(lower(headers[i].1), policy.required_results[k]));
            },
            AuthResultsMatchMode::All => {
                assert(policy.finds_results(lower(headers[i].1)));
            },
        }
    }
}

proof fn lemma_header_name()
    ensures
        lower("authentication-results"@) == "authentication-results"@,
{
    let name = "authentication-results"@;
    reveal_strlit("authentication-results");
    assert forall|i: int| 0 <= i < name.len() implies lower(name)[i] == name[i] by {
        assert('a' <= name[i] <= 'z' || name[i] == '-');
    }
    assert(lower(name) =~= name);
}

/// One more required result asks more of a header where all are needed, and is one more way
/// to pass where one is enough.
pub proof fn law_one_more_required_result(
    policy: AuthPolicy,
    result: Seq<char>,
    header: (Seq<char>, Seq<char>),
)
    requires
        policy.mode == AuthResultsMode::Require,
        policy.required_results.len() > 0,
    ensures
        ({
            let longer = AuthPolicy {
                required_results: policy.required_results.push(result),
                ..policy
            };
            let alone = AuthPolicy { required_results: seq![result], ..policy };
            &&& policy.match_mode == AuthResultsMatchMode::All ==> longer.passes(seq![header]) == (
            policy.passes(seq![header]) && alone.passes(seq![header]))
            &&& policy.match_mode == AuthResultsMatchMode::Any ==> longer.passes(seq![header]) == (
            policy.passes(seq![header]) || alone.passes(seq![header]))
            &&& alone.passes(seq![header]) ==> contains(lower(header.1), result)
        }),
{
    let longer = AuthPolicy { required_results: policy.required_results.push(result), ..policy };
    let alone = AuthPolicy { required_results: seq![result], ..policy };
    let n = policy.required_results.len() as int;
    let text = lower(header.1);
    let one = seq![header];
    let server = naming_server(header.1);
    let named = same_ignoring_case(header.0, "authentication-results"@);
    assert(longer.trusts(server) == policy.trusts(server));
    assert(alone.trusts(server) == policy.trusts(server));
    assert(alone.required_results[0] == result);
    assert(alone.finds_results(text) == contains(text, result));
    assert(longer.required_results[n] == result);
    assert(forall|k: int|
        0 <= k < n ==> #[trigger] longer.required_results[k] == policy.required_results[k]);
    if policy.match_mode == AuthResultsMatchMode::All {
        if longer.finds_results(text) {
            assert forall|k: int| 0 <= k < n implies contains(
                text,
                #[trigger] policy.required_results[k],
            ) by {
                assert(contains(text, longer.required_results[k]));
            }
        }
        assert(longer.finds_results(text) == (policy.finds_results(text) && contains(text, result)));
    } else {
        if policy.finds_results(text) {
            let k = choose|k: int| 0 <= k < n && contains(text, #[trigger] policy.required_results[k]);
            assert(contains(text, longer.required_results[k]));
        }
        if longer.finds_results(text) && !contains(text, result) {
            let k = choose|k: int|
                0 <= k < n + 1 && contains(text, #[trigger] longer.required_results[k]);
            assert(contains(text, policy.required_results[k]));
        }
        assert(longer.finds_results(text) == (policy.finds_results(text) || contains(text, result)));
    }
    assert(one[0] == header);
    assert(longer.finds_header(one) == (named && longer.accepts_value(header.1)));
    assert(policy.finds_header(one) == (named && policy.accepts_value(header.1)));
    assert(alone.finds_header(one) == (named && alone.accepts_value(header.1)));
}

/// Each header is judged by itself: one more lets a message pass exactly where it passes
/// alone.
pub proof fn law_headers_are_judged_one_by_one(
    policy: AuthPolicy,
    headers: Seq<(Seq<char>, Seq<char>)>,
    header: (Seq<char>, Seq<char>),
)
    requires
        policy.mode == AuthResultsMode::Require,
    ensures
        policy.passes(headers.push(header)) == (policy.passes(headers) || policy.passes(
            seq![header],
        )),
{
    let more = headers.push(header);
    assert(more[headers.len() as int] == header);
    assert(seq![header][0] == header);
    if policy.finds_header(headers) {
        let i = choose|i: int|
            0 <= i < headers.len() && same_ignoring_case(
                (#[trigger] headers[i]).0,
                "authentication-results"@,
            ) && policy.accepts_value(headers[i].1);
        assert(more[i] == headers[i]);
    }
    if policy.finds_header(more) && !policy.finds_header(headers) {
        let i = choose|i: int|
            0 <= i < more.len() && same_ignoring_case(
                (#[trigger] more[i]).0,
                "authentication-results"@,
            ) && policy.accepts_value(more[i].1);
        if i < headers.len() {
            assert(more[i] == headers[i]);
        }
    }
}

/// The server that a value names is its first word, up to white space or a semicolon, in
/// lower case and without the dots at its end.
pub proof fn law_server_is_the_first_word(
    front: Seq<char>,
    server: Seq<char>,
    dots: nat,
    rest: Seq<char>,
)
    requires
        forall|i: int| 0 <= i < front.len() ==> is_white_space(#[trigger] front[i]),
        forall|i: int|
            0 <= i < server.len() ==> !is_white_space(#[trigger] server[i]) && server[i] != ';',
        server.len() > 0,
        server.last() != '.',
        rest.len() > 0 ==> rest[0] == ';' || is_white_space(rest[0]),
    ensures
        naming_server(front + server + Seq::new(dots, |i: int| '.') + rest) == lower(server),
{
    let run = Seq::new(dots, |i: int| '.');
    let value = front + server + run + rest;
    let text = lower(value);
    let f = front.len() as int;
    let w = f + server.len() + dots;
    lemma_find_char(text, ';');
    let n = find_char(text, ';') as int;
    assert forall|i: int| 0 <= i < w implies text[i] != ';' by {
        if i < f {
            assert(value[i] == front[i]);
        } else if i < f + server.len() {
            assert(value[i] == server[i - f]);
        } else {
            assert(value[i] == '.');
        }
    }
    assert(n >= w);
    let piece = text.take(n);
    assert(split(text, ';')[0] == piece) by {
        if n == text.len() {
            assert(text.take(n) =~= text);
        }
    }
    let word = lower(server) + run;
    let tail = piece.skip(w);
    assert forall|i: int| 0 <= i < lower(front).len() implies is_white_space(
        #[trigger] lower(front)[i],
    ) by {
        assert(is_white_space(front[i]));
    }
    assert forall|i: int| 0 <= i < word.len() implies !is_white_space(#[trigger] word[i]) by {
        if i < server.len() {
            assert(!is_white_space(server[i]));
            assert(word[i] == lower_char(server[i]));
        }
    }
    assert(piece =~= lower(front) + word + tail);
    if tail.len() > 0 {
        assert(tail[0] == lower_char(rest[0]));
        assert(text[w] == lower_char(rest[0]));
    }
    law_first_word(lower(front), word, tail);
    assert(lower(server).last() == lower_char(server.last()));
    law_repeated_character_is_taken_off(lower(server), '.', dots);
}

} // verus!
