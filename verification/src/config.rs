//! The configuration: every setting with its default.
use crate::auth::{AuthPolicy, AuthResultsConfig, AuthResultsMatchMode, AuthResultsMode};
use crate::limiter::{LimiterView, RateLimiter};
use crate::number::{law_number_is_read_back, parse_number, read_number, NumberError};
use crate::order::{in_text_order, insert_text, lists};
use crate::outside::{max_permits, platform_path};
use crate::paths::{cleaned_dir_beside, is_cleaned_dir_for, is_temp_dir_for, temp_dir_beside};
use crate::routing::safe_folder_name;
use crate::settings::{
    config_key_list, config_optional, config_string, overlaid, overlay_environment,
    parse_config_text, setting, setting_or, values_of_lines, ConfigError, ConfigFailure,
    ConfigValues,
};
use crate::text::{
    chars_of, decimal, find_char, law_split_at_first, lemma_find_char, lemma_find_char_is,
    lemma_trim_end_is, lemma_trim_keeps, lemma_trim_start_is, lemma_trimmed, lines, lower,
    lower_char, lower_string, optional_text, same_text, slice_texts, split, split_chars, string_of,
    texts, to_lower, trim, trim_chars, trim_start_char, trim_start_matching,
};
use vstd::prelude::*;

verus! {

// ---------------------------------------------------------------------------
// Lists
// ---------------------------------------------------------------------------
/// The items of a list with commas: without white space around them, in lower case,
/// and none that is empty.
pub open spec fn csv_items(list: Seq<char>) -> Set<Seq<char>> {
    items_among(list, false, split(list, ',').len() as int)
}

/// The domains of a list with commas: items as above, without `@` in front.
pub open spec fn domain_items(list: Seq<char>) -> Set<Seq<char>> {
    items_among(list, true, split(list, ',').len() as int)
}

/// One item of a list; for a domain, without `@` in front.
pub open spec fn item_of(piece: Seq<char>, domain: bool) -> Seq<char> {
    if domain {
        lower(trim_start_char(trim(piece), '@'))
    } else {
        lower(trim(piece))
    }
}

/// The items among the first pieces of a list.
pub open spec fn items_among(list: Seq<char>, domain: bool, count: int) -> Set<Seq<char>> {
    Set::new(
        |item: Seq<char>|
            item.len() > 0 && exists|i: int|
                0 <= i < count && item == item_of(#[trigger] split(list, ',')[i], domain),
    )
}

/// The value of a setting that may be missing, as a list.
pub open spec fn list_text(value: Option<Seq<char>>) -> Seq<char> {
    match value {
        Some(list) => list,
        None => Seq::empty(),
    }
}

proof fn lemma_one_more_item(list: Seq<char>, domain: bool, count: int)
    requires
        0 <= count < split(list, ',').len(),
    ensures
        items_among(list, domain, count + 1) == {
            let item = item_of(split(list, ',')[count], domain);
            if item.len() > 0 {
                items_among(list, domain, count).insert(item)
            } else {
                items_among(list, domain, count)
            }
        },
{
    let pieces = split(list, ',');
    let item = item_of(pieces[count], domain);
    let before = items_among(list, domain, count);
    let after = items_among(list, domain, count + 1);
    assert forall|t: Seq<char>| after.contains(t) == (before.contains(t) || (item.len() > 0 && t
        == item)) by {
        if after.contains(t) {
            let i = choose|i: int|
                0 <= i < count + 1 && t == item_of(#[trigger] split(list, ',')[i], domain);
            if i < count {
                assert(before.contains(t));
            }
        }
        if before.contains(t) {
            let i = choose|i: int|
                0 <= i < count && t == item_of(#[trigger] split(list, ',')[i], domain);
            assert(0 <= i < count + 1);
        }
    }
    if item.len() > 0 {
        assert(after =~= before.insert(item));
    } else {
        assert(after =~= before);
    }
}

fn parse_list(value: Option<String>, domain: bool) -> (r: Vec<String>)
    ensures
        lists(
            texts(r@),
            items_among(
                list_text(optional_text(value)),
                domain,
                split(list_text(optional_text(value)), ',').len() as int,
            ),
        ),
{
    let text: String = match value {
        Some(list) => list,
        None => String::new(),
    };
    let ghost list = list_text(optional_text(value));
    assert(text@ =~= list);
    let chars = chars_of(text.as_str());
    let pieces = split_chars(chars.as_slice(), ',');
    let mut items: Vec<String> = Vec::new();
    assert(texts(items@).to_set() =~= items_among(list, domain, 0));
    let mut i: usize = 0;
    while i < pieces.len()
        invariant
            i <= pieces@.len(),
            slice_texts(pieces@) == split(list, ','),
            in_text_order(texts(items@)),
            texts(items@).to_set() == items_among(list, domain, i as int),
        decreases pieces@.len() - i,
    {
        let mut piece = trim_chars(pieces[i]);
        if domain {
            piece = trim_start_matching(piece, '@');
        }
        let item = to_lower(piece);
        proof {
            assert(slice_texts(pieces@)[i as int] == pieces@[i as int]@);
            lemma_one_more_item(list, domain, i as int);
        }
        if item.len() > 0 {
            insert_text(&mut items, string_of(item.as_slice()));
        }
        i = i + 1;
    }
    items
}

/// The items of a list with commas, in order and each once.
pub fn parse_csv_lowercase(value: Option<String>) -> (r: Vec<String>)
    ensures
        lists(texts(r@), csv_items(list_text(optional_text(value)))),
{
    parse_list(value, false)
}

/// The domains of a list with commas, in order and each once.
pub fn parse_recipient_domains(value: Option<String>) -> (r: Vec<String>)
    ensures
        lists(texts(r@), domain_items(list_text(optional_text(value)))),
{
    parse_list(value, true)
}

// ---------------------------------------------------------------------------
// Numbers
// ---------------------------------------------------------------------------
/// The number of a setting, or a default in its place.
pub open spec fn number_setting(
    values: Map<Seq<char>, Seq<char>>,
    name: Seq<char>,
    default: u64,
    max: u64,
) -> Result<u64, ConfigFailure> {
    match setting(values, name) {
        Some(value) => match read_number(value, max) {
            Ok(number) => Ok(number),
            Err(reason) => Err(ConfigFailure::InvalidNumber { name, reason }),
        },
        None => Ok(default),
    }
}

/// The number of a setting, or a default in its place.
pub fn parse_config_u64(values: &ConfigValues, name: &str, default: u64) -> (r: Result<
    u64,
    ConfigError,
>)
    ensures
        match r {
            Ok(number) => number_setting(values@, name@, default, u64::MAX) == Ok::<
                _,
                ConfigFailure,
            >(number),
            Err(error) => number_setting(values@, name@, default, u64::MAX) == Err::<u64, _>(
                error@,
            ),
        },
{
    match config_optional(values, name) {
        Some(value) => match parse_number(value.as_str(), u64::MAX) {
            Ok(number) => Ok(number),
            Err(reason) => Err(ConfigError::InvalidNumber { name: name.to_owned(), reason }),
        },
        None => Ok(default),
    }
}

/// The number of a setting, or a default in its place.
pub fn parse_config_usize(values: &ConfigValues, name: &str, default: usize) -> (r: Result<
    usize,
    ConfigError,
>)
    ensures
        match r {
            Ok(number) => number_setting(values@, name@, default as u64, usize::MAX as u64) == Ok::<
                _,
                ConfigFailure,
            >(number as u64),
            Err(error) => number_setting(values@, name@, default as u64, usize::MAX as u64) == Err::<
                u64,
                _,
            >(error@),
        },
{
    match config_optional(values, name) {
        Some(value) => match parse_number(value.as_str(), usize::MAX as u64) {
            Ok(number) => Ok(number as usize),
            Err(reason) => Err(ConfigError::InvalidNumber { name: name.to_owned(), reason }),
        },
        None => Ok(default),
    }
}

// ---------------------------------------------------------------------------
// The policy on authentication results
// ---------------------------------------------------------------------------
/// The mode of the policy.
pub open spec fn mode_setting(values: Map<Seq<char>, Seq<char>>) -> Result<
    AuthResultsMode,
    ConfigFailure,
> {
    let value = lower(setting_or(values, "SMTP_AUTH_RESULTS_MODE"@, "off"@));
    if value == "off"@ || value == "none"@ || value == "disabled"@ {
        Ok(AuthResultsMode::Off)
    } else if value == "require"@ || value == "required"@ {
        Ok(AuthResultsMode::Require)
    } else {
        Err(ConfigFailure::InvalidMode { value })
    }
}

/// The match mode of the policy.
pub open spec fn match_setting(values: Map<Seq<char>, Seq<char>>) -> Result<
    AuthResultsMatchMode,
    ConfigFailure,
> {
    let value = lower(setting_or(values, "SMTP_AUTH_RESULTS_MATCH"@, "any"@));
    if value == "any"@ {
        Ok(AuthResultsMatchMode::Any)
    } else if value == "all"@ {
        Ok(AuthResultsMatchMode::All)
    } else {
        Err(ConfigFailure::InvalidMatch { value })
    }
}

/// Why the policy cannot be read, if it cannot.
pub open spec fn policy_failure(values: Map<Seq<char>, Seq<char>>) -> Option<ConfigFailure> {
    match mode_setting(values) {
        Err(failure) => Some(failure),
        Ok(_) => match match_setting(values) {
            Err(failure) => Some(failure),
            Ok(_) => None,
        },
    }
}

/// Whether a policy is the one that these values set.
pub open spec fn is_policy_of(values: Map<Seq<char>, Seq<char>>, policy: AuthPolicy) -> bool {
    &&& mode_setting(values) == Ok::<_, ConfigFailure>(policy.mode)
    &&& match_setting(values) == Ok::<_, ConfigFailure>(policy.match_mode)
    &&& lists(
        policy.trusted_servers,
        csv_items(list_text(setting(values, "SMTP_AUTH_RESULTS_TRUSTED_SERVERS"@))),
    )
    &&& lists(
        policy.required_results,
        csv_items(list_text(setting(values, "SMTP_AUTH_RESULTS_REQUIRED"@))),
    )
}

/// The policy that these values set.
pub fn parse_auth_results_config(values: &ConfigValues) -> (r: Result<
    AuthResultsConfig,
    ConfigError,
>)
    ensures
        match r {
            Ok(config) => policy_failure(values@) is None && is_policy_of(values@, config@),
            Err(error) => policy_failure(values@) == Some(error@),
        },
{
    let mode_text = lower_string(config_string(values, "SMTP_AUTH_RESULTS_MODE", "off").as_str());
    let mode = if same_text(mode_text.as_str(), "off") || same_text(mode_text.as_str(), "none")
        || same_text(mode_text.as_str(), "disabled") {
        AuthResultsMode::Off
    } else if same_text(mode_text.as_str(), "require") || same_text(
        mode_text.as_str(),
        "required",
    ) {
        AuthResultsMode::Require
    } else {
        return Err(ConfigError::InvalidMode { value: mode_text });
    };
    let match_text = lower_string(config_string(values, "SMTP_AUTH_RESULTS_MATCH", "any").as_str());
    let match_mode = if same_text(match_text.as_str(), "any") {
        AuthResultsMatchMode::Any
    } else if same_text(match_text.as_str(), "all") {
        AuthResultsMatchMode::All
    } else {
        return Err(ConfigError::InvalidMatch { value: match_text });
    };
    Ok(
        AuthResultsConfig {
            mode,
            trusted_servers: parse_csv_lowercase(
                config_optional(values, "SMTP_AUTH_RESULTS_TRUSTED_SERVERS"),
            ),
            required_results: parse_csv_lowercase(
                config_optional(values, "SMTP_AUTH_RESULTS_REQUIRED"),
            ),
            match_mode,
        },
    )
}

// ---------------------------------------------------------------------------
// All settings
// ---------------------------------------------------------------------------
/// Every setting. Directories are given as text.
#[derive(Clone, Debug)]
pub struct Config {
    pub listen_addr: String,
    pub inbox_dir: String,
    pub cleaned_inbox_dir: String,
    pub temp_dir: String,
    pub max_message_bytes: usize,
    pub global_rate_per_minute: usize,
    pub sender_rate_per_minute: usize,
    pub max_connections: usize,
    pub command_timeout_seconds: u64,
    pub recipient_domains: Vec<String>,
    pub auth_results: AuthResultsConfig,
}

/// A number that the machine's word bounds.
pub open spec fn word_setting(
    values: Map<Seq<char>, Seq<char>>,
    name: Seq<char>,
    default: u64,
) -> Result<u64, ConfigFailure> {
    number_setting(values, name, default, usize::MAX as u64)
}

/// The first number that cannot be read, if there is one.
pub open spec fn number_failure(values: Map<Seq<char>, Seq<char>>) -> Option<ConfigFailure> {
    if let Err(failure) = word_setting(values, "SMTP_MAX_MESSAGE_BYTES"@, 26214400) {
        Some(failure)
    } else if let Err(failure) = word_setting(values, "SMTP_GLOBAL_RATE_PER_MINUTE"@, 600) {
        Some(failure)
    } else if let Err(failure) = word_setting(values, "SMTP_SENDER_RATE_PER_MINUTE"@, 60) {
        Some(failure)
    } else if let Err(failure) = word_setting(values, "SMTP_MAX_CONNECTIONS"@, 100) {
        Some(failure)
    } else if let Err(failure) = number_setting(
        values,
        "SMTP_COMMAND_TIMEOUT_SECONDS"@,
        300,
        u64::MAX,
    ) {
        Some(failure)
    } else {
        None
    }
}

/// Why values are refused, if they are: numbers come before the policy.
pub open spec fn config_failure(values: Map<Seq<char>, Seq<char>>) -> Option<ConfigFailure> {
    match number_failure(values) {
        Some(failure) => Some(failure),
        None => policy_failure(values),
    }
}

impl Config {
    /// Whether the texts are those that these values set.
    pub open spec fn has_texts_of(self, values: Map<Seq<char>, Seq<char>>) -> bool {
        &&& self.listen_addr@ == setting_or(values, "SMTP_LISTEN_ADDR"@, "0.0.0.0:2525"@)
        &&& self.inbox_dir@ == setting_or(values, "SMTP_INBOX_DIR"@, "inbox"@)
        &&& exists|separator: char| #[trigger] self.has_directories_of(values, separator)
    }

    /// Whether the directories beside the inbox are those that these values set, where
    /// paths have this separator.
    pub open spec fn has_directories_of(
        self,
        values: Map<Seq<char>, Seq<char>>,
        separator: char,
    ) -> bool {
        &&& match setting(values, "SMTP_CLEANED_INBOX_DIR"@) {
            Some(dir) => self.cleaned_inbox_dir@ == dir,
            None => is_cleaned_dir_for(self.inbox_dir@, self.cleaned_inbox_dir@, separator),
        }
        &&& match setting(values, "SMTP_TEMP_DIR"@) {
            Some(dir) => self.temp_dir@ == dir,
            None => is_temp_dir_for(self.inbox_dir@, self.temp_dir@, separator),
        }
    }

    /// Whether the numbers are those that these values set.
    pub open spec fn has_numbers_of(self, values: Map<Seq<char>, Seq<char>>) -> bool {
        &&& word_setting(values, "SMTP_MAX_MESSAGE_BYTES"@, 26214400) == Ok::<_, ConfigFailure>(
            self.max_message_bytes as u64,
        )
        &&& word_setting(values, "SMTP_GLOBAL_RATE_PER_MINUTE"@, 600) == Ok::<_, ConfigFailure>(
            self.global_rate_per_minute as u64,
        )
        &&& word_setting(values, "SMTP_SENDER_RATE_PER_MINUTE"@, 60) == Ok::<_, ConfigFailure>(
            self.sender_rate_per_minute as u64,
        )
        &&& word_setting(values, "SMTP_MAX_CONNECTIONS"@, 100) == Ok::<_, ConfigFailure>(
            self.max_connections as u64,
        )
        &&& number_setting(values, "SMTP_COMMAND_TIMEOUT_SECONDS"@, 300, u64::MAX) == Ok::<
            _,
            ConfigFailure,
        >(self.command_timeout_seconds)
    }

    /// Whether this is what these values set.
    pub open spec fn is_set_by(self, values: Map<Seq<char>, Seq<char>>) -> bool {
        &&& self.has_texts_of(values)
        &&& self.has_numbers_of(values)
        &&& lists(
            texts(self.recipient_domains@),
            domain_items(list_text(setting(values, "SMTP_RECIPIENT_DOMAINS"@))),
        )
        &&& is_policy_of(values, self.auth_results@)
    }

    /// The configuration that these values set.
    pub fn from_values(values: ConfigValues) -> (r: Result<Self, ConfigError>)
        ensures
            match r {
                Ok(config) => config_failure(values@) is None && config.is_set_by(values@),
                Err(error) => config_failure(values@) == Some(error@),
            },
    {
        let listen_addr = config_string(&values, "SMTP_LISTEN_ADDR", "0.0.0.0:2525");
        let inbox_dir = config_string(&values, "SMTP_INBOX_DIR", "inbox");
        let inbox = platform_path(inbox_dir.as_str());
        let cleaned_inbox_dir = match config_optional(&values, "SMTP_CLEANED_INBOX_DIR") {
            Some(dir) => dir,
            None => cleaned_dir_beside(&inbox),
        };
        let temp_dir = match config_optional(&values, "SMTP_TEMP_DIR") {
            Some(dir) => dir,
            None => temp_dir_beside(&inbox),
        };
        let max_message_bytes: usize = match parse_config_usize(
            &values,
            "SMTP_MAX_MESSAGE_BYTES",
            26214400,
        ) {
            Ok(number) => number,
            Err(error) => {
                return Err(error);
            },
        };
        let global_rate_per_minute: usize = match parse_config_usize(
            &values,
            "SMTP_GLOBAL_RATE_PER_MINUTE",
            600,
        ) {
            Ok(number) => number,
            Err(error) => {
                return Err(error);
            },
        };
        let sender_rate_per_minute: usize = match parse_config_usize(
            &values,
            "SMTP_SENDER_RATE_PER_MINUTE",
            60,
        ) {
            Ok(number) => number,
            Err(error) => {
                return Err(error);
            },
        };
        let max_connections: usize = match parse_config_usize(
            &values,
            "SMTP_MAX_CONNECTIONS",
            100,
        ) {
            Ok(number) => number,
            Err(error) => {
                return Err(error);
            },
        };
        let command_timeout_seconds: u64 = match parse_config_u64(
            &values,
            "SMTP_COMMAND_TIMEOUT_SECONDS",
            300,
        ) {
            Ok(number) => number,
            Err(error) => {
                return Err(error);
            },
        };
        let auth_results = match parse_auth_results_config(&values) {
            Ok(policy) => policy,
            Err(error) => {
                return Err(error);
            },
        };
        let config = Config {
            listen_addr,
            inbox_dir,
            cleaned_inbox_dir,
            temp_dir,
            max_message_bytes,
            global_rate_per_minute,
            sender_rate_per_minute,
            max_connections,
            command_timeout_seconds,
            recipient_domains: parse_recipient_domains(
                config_optional(&values, "SMTP_RECIPIENT_DOMAINS"),
            ),
            auth_results,
        };
        assert(config.has_directories_of(values@, inbox@.separator));
        Ok(config)
    }
}

/// The values of a configuration file, if there is one.
pub open spec fn file_values(file: Option<&str>) -> Result<Map<Seq<char>, Seq<char>>, nat> {
    match file {
        Some(content) => values_of_lines(lines(content@)),
        None => Ok(Map::empty()),
    }
}

impl Config {
    /// The configuration of a file, if there is one, and of the environment's variables.
    pub fn from_env(file: Option<&str>, environment: &ConfigValues) -> (r: Result<
        Self,
        ConfigError,
    >)
        ensures
            match file_values(file) {
                Ok(values) => {
                    let all = overlaid(values, environment@, config_key_list());
                    match r {
                        Ok(config) => config_failure(all) is None && config.is_set_by(all),
                        Err(error) => config_failure(all) == Some(error@),
                    }
                },
                Err(line) => r matches Err(error) && error@ == (ConfigFailure::NoKeyValue { line }),
            },
    {
        let mut values = match file {
            Some(content) => match parse_config_text(content) {
                Ok(values) => values,
                Err(error) => {
                    return Err(error);
                },
            },
            None => ConfigValues::new(),
        };
        overlay_environment(&mut values, environment);
        Config::from_values(values)
    }
}

// ---------------------------------------------------------------------------
// What follows from the configuration
// ---------------------------------------------------------------------------
/// How many sessions may be open at a time: as many as configured, but no more than
/// a semaphore can count, and so many if none are configured.
pub fn connection_limit(configured: usize) -> (r: usize)
    ensures
        r == if configured == 0 || configured > usize::MAX / 8 {
            usize::MAX / 8
        } else {
            configured
        },
        1 <= r <= usize::MAX / 8,
{
    let most: usize = max_permits();
    if configured == 0 || configured > most {
        most
    } else {
        configured
    }
}

/// One minute in nanoseconds.
pub const RATE_WINDOW: u128 = 60_000_000_000;

/// The configuration together with the counts that it limits.
#[derive(Debug)]
pub struct AppState {
    pub config: Config,
    pub limiter: RateLimiter,
}

impl AppState {
    /// The state at the start: nothing is counted.
    pub fn new(config: Config) -> (r: Self)
        ensures
            r.config == config,
            r.limiter.wf(),
            r.limiter@ == (LimiterView {
                global_limit: config.global_rate_per_minute,
                sender_limit: config.sender_rate_per_minute,
                window: RATE_WINDOW,
                global: Seq::empty(),
                senders: Map::empty(),
            }),
            r.limiter@.window == 60_000_000_000,
    {
        let limiter = RateLimiter::new(
            config.global_rate_per_minute,
            config.sender_rate_per_minute,
            RATE_WINDOW,
        );
        AppState { config, limiter }
    }
}

// ---------------------------------------------------------------------------
// Laws
// ---------------------------------------------------------------------------
/// Without any value every setting has its default: all mail is accepted into
/// `inbox`, cleaned copies go to `inbox-cleaned`, and temporary files stand outside
/// both.
pub proof fn law_defaults(config: Config)
    requires
        config.is_set_by(Map::empty()),
    ensures
        config_failure(Map::empty()) is None,
        config.listen_addr@ == "0.0.0.0:2525"@,
        config.inbox_dir@ == "inbox"@,
        config.cleaned_inbox_dir@ == "inbox-cleaned"@,
        config.temp_dir@ == ".smtp-receiver-tmp"@,
        config.max_message_bytes == 26214400,
        config.global_rate_per_minute == 600,
        config.sender_rate_per_minute == 60,
        config.max_connections == 100,
        config.command_timeout_seconds == 300,
        config.recipient_domains@.len() == 0,
        config.auth_results.mode == AuthResultsMode::Off,
        config.auth_results.match_mode == AuthResultsMatchMode::Any,
        config.auth_results.trusted_servers@.len() == 0,
        config.auth_results.required_results@.len() == 0,
{
    reveal_strlit("inbox");
    reveal_strlit("-cleaned");
    reveal_strlit("inbox-cleaned");
    reveal_strlit(".");
    reveal_strlit("..");
    reveal_strlit("off");
    reveal_strlit("any");
    assert(lower("off"@) =~= "off"@);
    assert(lower("any"@) =~= "any"@);
    assert(safe_folder_name("inbox"@));
    assert("inbox"@ + "-cleaned"@ =~= "inbox-cleaned"@);
    lemma_empty_list(true);
    lemma_empty_list(false);
    lemma_lists_nothing(texts(config.recipient_domains@));
    lemma_lists_nothing(texts(config.auth_results.trusted_servers@));
    lemma_lists_nothing(texts(config.auth_results.required_results@));
}

proof fn lemma_empty_list(domain: bool)
    ensures
        items_among(Seq::empty(), domain, split(Seq::empty(), ',').len() as int) == Set::<
            Seq<char>,
        >::empty(),
{
    let none: Seq<char> = Seq::empty();
    assert(split(none, ',') =~= seq![none]);
    assert(trim(none) =~= none);
    assert(trim_start_char(none, '@') =~= none);
    assert(lower(none) =~= none);
    assert(items_among(none, domain, 1) =~= Set::empty());
}

proof fn lemma_lists_nothing(list: Seq<Seq<char>>)
    ensures
        lists(list, Set::empty()) ==> list.len() == 0,
{
    if list.len() > 0 {
        assert(list.to_set().contains(list[0]));
    }
}

/// Every listed domain and every listed item is in lower case and not empty.
pub proof fn law_items_are_lower_case(list: Seq<char>, item: Seq<char>)
    requires
        csv_items(list).contains(item) || domain_items(list).contains(item),
    ensures
        item.len() > 0,
        lower(item) == item,
{
    let domain = !csv_items(list).contains(item);
    let i = choose|i: int|
        0 <= i < split(list, ',').len() && item == item_of(
            #[trigger] split(list, ',')[i],
            domain,
        );
    assert(lower(item) =~= item);
}

/// Items with commas between them.
pub open spec fn joined(items: Seq<Seq<char>>) -> Seq<char>
    decreases items.len(),
{
    if items.len() == 0 {
        Seq::empty()
    } else if items.len() == 1 {
        items[0]
    } else {
        items[0].push(',') + joined(items.skip(1))
    }
}

/// The items of a list, joined with commas, are read back as the same list.
pub proof fn law_list_is_read_back(value: Seq<char>, list: Seq<Seq<char>>)
    requires
        lists(list, csv_items(value)),
    ensures
        lists(list, csv_items(joined(list))),
{
    let text = joined(list);
    let again = csv_items(text);
    if list.len() == 0 {
        lemma_empty_list(false);
        assert(list.to_set() =~= Set::empty());
    } else {
        assert forall|i: int| 0 <= i < list.len() implies !(#[trigger] list[i]).contains(',')
            && item_of(list[i], false) == list[i] && list[i].len() > 0 by {
            assert(list.to_set().contains(list[i]));
            lemma_item_is_stable(value, list[i]);
        }
        lemma_split_joined(list);
        assert forall|item: Seq<char>| again.contains(item) == list.to_set().contains(item) by {
            if again.contains(item) {
                let k = choose|k: int|
                    0 <= k < split(text, ',').len() && item == item_of(
                        #[trigger] split(text, ',')[k],
                        false,
                    );
                assert(list[k] == item);
            }
            if list.to_set().contains(item) {
                let k = choose|k: int| 0 <= k < list.len() && list[k] == item;
                assert(split(text, ',')[k] == item);
            }
        }
        assert(again =~= list.to_set());
    }
}

proof fn lemma_split_joined(items: Seq<Seq<char>>)
    requires
        items.len() > 0,
        forall|i: int| 0 <= i < items.len() ==> !(#[trigger] items[i]).contains(','),
    ensures
        split(joined(items), ',') == items,
    decreases items.len(),
{
    let first = items[0];
    let n = first.len() as int;
    let text = joined(items);
    assert forall|j: int| 0 <= j < n implies first[j] != ',' by {
        assert(first.contains(first[j]));
    }
    if items.len() == 1 {
        lemma_find_char_is(text, ',', n);
        assert(split(text, ',') =~= items);
    } else {
        let rest = items.skip(1);
        assert forall|i: int| 0 <= i < rest.len() implies !(#[trigger] rest[i]).contains(',') by {
            assert(rest[i] == items[i + 1]);
        }
        lemma_split_joined(rest);
        assert forall|j: int| 0 <= j < n implies text[j] != ',' by {
            assert(text[j] == first[j]);
        }
        assert(text[n] == ',');
        lemma_find_char_is(text, ',', n);
        assert(text.take(n) =~= first);
        assert(text.skip(n + 1) =~= joined(rest));
        assert(split(text, ',') =~= items);
    }
}

/// The pieces of a text do not hold what they were split at.
proof fn lemma_pieces_are_free(s: Seq<char>, c: char)
    ensures
        forall|i: int| 0 <= i < split(s, c).len() ==> !(#[trigger] split(s, c)[i]).contains(c),
    decreases s.len(),
{
    let i = find_char(s, c) as int;
    lemma_find_char(s, c);
    if i < s.len() {
        lemma_pieces_are_free(s.skip(i + 1), c);
        let rest = split(s.skip(i + 1), c);
        assert forall|k: int| 0 <= k < split(s, c).len() implies !(
        #[trigger] split(s, c)[k]).contains(c) by {
            if k == 0 {
                assert(split(s, c)[0] == s.take(i));
            } else {
                assert(split(s, c)[k] == rest[k - 1]);
            }
        }
    } else {
        assert(split(s, c) == seq![s]);
    }
}

/// An item of a list has no comma, and is its own item.
proof fn lemma_item_is_stable(list: Seq<char>, item: Seq<char>)
    requires
        csv_items(list).contains(item),
    ensures
        item.len() > 0,
        !item.contains(','),
        item_of(item, false) == item,
{
    let i = choose|i: int|
        0 <= i < split(list, ',').len() && item == item_of(#[trigger] split(list, ',')[i], false);
    let piece = split(list, ',')[i];
    let inner = trim(piece);
    lemma_pieces_are_free(list, ',');
    lemma_trim_keeps(piece, ',');
    lemma_trimmed(piece);
    if item.contains(',') {
        let k = choose|k: int| 0 <= k < item.len() && item[k] == ',';
        assert(inner[k] == ',');
        assert(inner.contains(','));
    }
    assert(item[0] == lower_char(inner[0]));
    assert(item.last() == lower_char(inner.last()));
    lemma_trim_start_is(item, 0);
    lemma_trim_end_is(item, item.len() as int);
    assert(item.skip(0) =~= item);
    assert(item.take(item.len() as int) =~= item);
    assert(lower(item) =~= item);
}

/// Lists with commas are read item by item: what stands between two commas is one item, in
/// lower case and without the white space around it, and is none where nothing is left. A
/// domain also loses any `@` in front.
pub proof fn law_lists_are_read_item_by_item(piece: Seq<char>, rest: Seq<char>)
    requires
        !piece.contains(','),
    ensures
        csv_items(piece) == if trim(piece).len() > 0 {
            set![lower(trim(piece))]
        } else {
            Set::<Seq<char>>::empty()
        },
        csv_items(piece + seq![','] + rest) == csv_items(piece).union(csv_items(rest)),
        domain_items(piece) == if trim_start_char(trim(piece), '@').len() > 0 {
            set![lower(trim_start_char(trim(piece), '@'))]
        } else {
            Set::<Seq<char>>::empty()
        },
        domain_items(piece + seq![','] + rest) == domain_items(piece).union(domain_items(rest)),
{
    law_split_at_first(piece, ',', rest);
    assert(piece + seq![','] + rest =~= piece.push(',') + rest);
    lemma_one_item(piece, false);
    lemma_one_item(piece, true);
    lemma_more_items(piece, rest, false);
    lemma_more_items(piece, rest, true);
}

proof fn lemma_one_item(piece: Seq<char>, domain: bool)
    requires
        split(piece, ',') == seq![piece],
    ensures
        items_among(piece, domain, 1) == if item_of(piece, domain).len() > 0 {
            set![item_of(piece, domain)]
        } else {
            Set::<Seq<char>>::empty()
        },
{
    let item = item_of(piece, domain);
    let found = items_among(piece, domain, 1);
    assert(split(piece, ',')[0] == piece);
    if item.len() > 0 {
        assert(found =~= set![item]);
    } else {
        assert(found =~= Set::empty());
    }
}

proof fn lemma_more_items(piece: Seq<char>, rest: Seq<char>, domain: bool)
    requires
        split(piece, ',') == seq![piece],
        split(piece.push(',') + rest, ',') == seq![piece] + split(rest, ','),
    ensures
        ({
            let all = piece.push(',') + rest;
            items_among(all, domain, split(all, ',').len() as int) == items_among(
                piece,
                domain,
                1,
            ).union(items_among(rest, domain, split(rest, ',').len() as int))
        }),
{
    let all = piece.push(',') + rest;
    let pieces = split(all, ',');
    let others = split(rest, ',');
    let whole = items_among(all, domain, pieces.len() as int);
    let first = items_among(piece, domain, 1);
    let behind = items_among(rest, domain, others.len() as int);
    assert(pieces[0] == piece);
    assert(split(piece, ',')[0] == piece);
    assert forall|item: Seq<char>|
        whole.contains(item) == (first.contains(item) || behind.contains(item)) by {
        if whole.contains(item) {
            let i = choose|i: int|
                0 <= i < pieces.len() && item == item_of(#[trigger] split(all, ',')[i], domain);
            if i == 0 {
                assert(first.contains(item));
            } else {
                assert(others[i - 1] == pieces[i]);
                assert(behind.contains(item));
            }
        }
        if behind.contains(item) {
            let i = choose|i: int|
                0 <= i < others.len() && item == item_of(#[trigger] split(rest, ',')[i], domain);
            assert(pieces[i + 1] == others[i]);
        }
    }
    assert(whole =~= first.union(behind));
}

/// A number in a setting is the one that its digits say; one that does not fit is refused
/// under the setting's name; and without the setting the default stands.
pub proof fn law_numbers_are_read(
    values: Map<Seq<char>, Seq<char>>,
    name: Seq<char>,
    n: nat,
    default: u64,
    max: u64,
)
    ensures
        setting(values, name) is None ==> number_setting(values, name, default, max) == Ok::<
            u64,
            ConfigFailure,
        >(default),
        setting(values, name) == Some(decimal(n)) && n <= max ==> number_setting(
            values,
            name,
            default,
            max,
        ) == Ok::<u64, ConfigFailure>(n as u64),
        setting(values, name) == Some(decimal(n)) && n > max ==> number_setting(
            values,
            name,
            default,
            max,
        ) == Err::<u64, ConfigFailure>(
            ConfigFailure::InvalidNumber { name, reason: NumberError::TooLarge },
        ),
{
    law_number_is_read_back(n, 0, max);
    assert(Seq::new(0, |i: int| '0') + decimal(n) =~= decimal(n));
}

/// Each number of the configuration is read from its own setting.
pub proof fn law_each_number_has_its_setting(
    config: Config,
    values: Map<Seq<char>, Seq<char>>,
    n: nat,
)
    requires
        config.is_set_by(values),
        n <= usize::MAX,
    ensures
        setting(values, "SMTP_MAX_MESSAGE_BYTES"@) == Some(decimal(n)) ==> config.max_message_bytes
            == n,
        setting(values, "SMTP_GLOBAL_RATE_PER_MINUTE"@) == Some(decimal(n))
            ==> config.global_rate_per_minute == n,
        setting(values, "SMTP_SENDER_RATE_PER_MINUTE"@) == Some(decimal(n))
            ==> config.sender_rate_per_minute == n,
        setting(values, "SMTP_MAX_CONNECTIONS"@) == Some(decimal(n)) ==> config.max_connections
            == n,
        setting(values, "SMTP_COMMAND_TIMEOUT_SECONDS"@) == Some(decimal(n))
            ==> config.command_timeout_seconds == n,
        setting(values, "SMTP_MAX_MESSAGE_BYTES"@) is None ==> config.max_message_bytes == 26214400,
        setting(values, "SMTP_GLOBAL_RATE_PER_MINUTE"@) is None ==> config.global_rate_per_minute
            == 600,
        setting(values, "SMTP_SENDER_RATE_PER_MINUTE"@) is None ==> config.sender_rate_per_minute
            == 60,
        setting(values, "SMTP_MAX_CONNECTIONS"@) is None ==> config.max_connections == 100,
        setting(values, "SMTP_COMMAND_TIMEOUT_SECONDS"@) is None ==> config.command_timeout_seconds
            == 300,
{
    let word = usize::MAX as u64;
    law_numbers_are_read(values, "SMTP_MAX_MESSAGE_BYTES"@, n, 26214400, word);
    law_numbers_are_read(values, "SMTP_GLOBAL_RATE_PER_MINUTE"@, n, 600, word);
    law_numbers_are_read(values, "SMTP_SENDER_RATE_PER_MINUTE"@, n, 60, word);
    law_numbers_are_read(values, "SMTP_MAX_CONNECTIONS"@, n, 100, word);
    law_numbers_are_read(values, "SMTP_COMMAND_TIMEOUT_SECONDS"@, n, 300, u64::MAX);
}

/// Each text of the configuration is what its own setting says, and so is each list.
pub proof fn law_each_text_has_its_setting(
    config: Config,
    values: Map<Seq<char>, Seq<char>>,
    text: Seq<char>,
)
    requires
        config.is_set_by(values),
    ensures
        setting(values, "SMTP_LISTEN_ADDR"@) == Some(text) ==> config.listen_addr@ == text,
        setting(values, "SMTP_LISTEN_ADDR"@) is None ==> config.listen_addr@ == "0.0.0.0:2525"@,
        setting(values, "SMTP_INBOX_DIR"@) == Some(text) ==> config.inbox_dir@ == text,
        setting(values, "SMTP_INBOX_DIR"@) is None ==> config.inbox_dir@ == "inbox"@,
        setting(values, "SMTP_CLEANED_INBOX_DIR"@) == Some(text) ==> config.cleaned_inbox_dir@
            == text,
        setting(values, "SMTP_CLEANED_INBOX_DIR"@) is None && safe_folder_name(config.inbox_dir@)
            ==> config.cleaned_inbox_dir@ == config.inbox_dir@ + "-cleaned"@,
        setting(values, "SMTP_TEMP_DIR"@) == Some(text) ==> config.temp_dir@ == text,
        setting(values, "SMTP_TEMP_DIR"@) is None && safe_folder_name(config.inbox_dir@)
            ==> config.temp_dir@ == ".smtp-receiver-tmp"@,
        setting(values, "SMTP_RECIPIENT_DOMAINS"@) == Some(text) ==> lists(
            texts(config.recipient_domains@),
            domain_items(text),
        ),
        setting(values, "SMTP_AUTH_RESULTS_TRUSTED_SERVERS"@) == Some(text) ==> lists(
            texts(config.auth_results.trusted_servers@),
            csv_items(text),
        ),
        setting(values, "SMTP_AUTH_RESULTS_REQUIRED"@) == Some(text) ==> lists(
            texts(config.auth_results.required_results@),
            csv_items(text),
        ),
        setting(values, "SMTP_RECIPIENT_DOMAINS"@) is None ==> config.recipient_domains@.len() == 0,
        setting(values, "SMTP_AUTH_RESULTS_TRUSTED_SERVERS"@) is None
            ==> config.auth_results.trusted_servers@.len() == 0,
        setting(values, "SMTP_AUTH_RESULTS_REQUIRED"@) is None
            ==> config.auth_results.required_results@.len() == 0,
{
    lemma_empty_list(true);
    lemma_empty_list(false);
    lemma_lists_nothing(texts(config.recipient_domains@));
    lemma_lists_nothing(texts(config.auth_results.trusted_servers@));
    lemma_lists_nothing(texts(config.auth_results.required_results@));
}

/// The names of the modes, in any case; another one is refused, and without one the policy
/// is off and one result is enough.
pub proof fn law_names_of_modes(values: Map<Seq<char>, Seq<char>>)
    ensures
        match setting(values, "SMTP_AUTH_RESULTS_MODE"@) {
            None => mode_setting(values) == Ok::<_, ConfigFailure>(AuthResultsMode::Off),
            Some(name) => {
                let value = lower(name);
                if value == "off"@ || value == "none"@ || value == "disabled"@ {
                    mode_setting(values) == Ok::<_, ConfigFailure>(AuthResultsMode::Off)
                } else if value == "require"@ || value == "required"@ {
                    mode_setting(values) == Ok::<_, ConfigFailure>(AuthResultsMode::Require)
                } else {
                    mode_setting(values) == Err::<AuthResultsMode, _>(
                        ConfigFailure::InvalidMode { value },
                    )
                }
            },
        },
        match setting(values, "SMTP_AUTH_RESULTS_MATCH"@) {
            None => match_setting(values) == Ok::<_, ConfigFailure>(AuthResultsMatchMode::Any),
            Some(name) => {
                let value = lower(name);
                if value == "any"@ {
                    match_setting(values) == Ok::<_, ConfigFailure>(AuthResultsMatchMode::Any)
                } else if value == "all"@ {
                    match_setting(values) == Ok::<_, ConfigFailure>(AuthResultsMatchMode::All)
                } else {
                    match_setting(values) == Err::<AuthResultsMatchMode, _>(
                        ConfigFailure::InvalidMatch { value },
                    )
                }
            },
        },
{
    reveal_strlit("off");
    reveal_strlit("any");
    reveal_strlit("none");
    reveal_strlit("disabled");
    reveal_strlit("require");
    reveal_strlit("required");
    reveal_strlit("all");
    assert(lower("off"@) =~= "off"@);
    assert(lower("any"@) =~= "any"@);
    assert("require"@[0] == 'r' && "required"@[0] == 'r');
    assert("off"@[0] == 'o' && "none"@[0] == 'n' && "disabled"@[0] == 'd');
    assert("any"@[1] == 'n' && "all"@[1] == 'l');
}

/// Values are refused exactly where one of the numbers or of the modes cannot be read.
pub proof fn law_what_is_refused(values: Map<Seq<char>, Seq<char>>)
    ensures
        config_failure(values) is None <==> {
            &&& readable_number(values, "SMTP_MAX_MESSAGE_BYTES"@, usize::MAX as u64)
            &&& readable_number(values, "SMTP_GLOBAL_RATE_PER_MINUTE"@, usize::MAX as u64)
            &&& readable_number(values, "SMTP_SENDER_RATE_PER_MINUTE"@, usize::MAX as u64)
            &&& readable_number(values, "SMTP_MAX_CONNECTIONS"@, usize::MAX as u64)
            &&& readable_number(values, "SMTP_COMMAND_TIMEOUT_SECONDS"@, u64::MAX)
            &&& mode_setting(values) is Ok
            &&& match_setting(values) is Ok
        },
        config_failure(values) matches Some(ConfigFailure::InvalidNumber { name, reason })
            ==> setting(values, name) matches Some(value) && read_number(
            value,
            if name == "SMTP_COMMAND_TIMEOUT_SECONDS"@ {
                u64::MAX
            } else {
                usize::MAX as u64
            },
        ) == Err::<u64, _>(reason),
{
    lemma_timeout_is_apart();
}

/// Whether a setting is missing or a number.
pub open spec fn readable_number(
    values: Map<Seq<char>, Seq<char>>,
    name: Seq<char>,
    max: u64,
) -> bool {
    setting(values, name) matches Some(value) ==> read_number(value, max) is Ok
}

proof fn lemma_timeout_is_apart()
    ensures
        "SMTP_MAX_MESSAGE_BYTES"@ != "SMTP_COMMAND_TIMEOUT_SECONDS"@,
        "SMTP_GLOBAL_RATE_PER_MINUTE"@ != "SMTP_COMMAND_TIMEOUT_SECONDS"@,
        "SMTP_SENDER_RATE_PER_MINUTE"@ != "SMTP_COMMAND_TIMEOUT_SECONDS"@,
        "SMTP_MAX_CONNECTIONS"@ != "SMTP_COMMAND_TIMEOUT_SECONDS"@,
{
    reveal_strlit("SMTP_MAX_MESSAGE_BYTES");
    reveal_strlit("SMTP_GLOBAL_RATE_PER_MINUTE");
    reveal_strlit("SMTP_SENDER_RATE_PER_MINUTE");
    reveal_strlit("SMTP_MAX_CONNECTIONS");
    reveal_strlit("SMTP_COMMAND_TIMEOUT_SECONDS");
    assert("SMTP_MAX_MESSAGE_BYTES"@.len() == 22);
    assert("SMTP_GLOBAL_RATE_PER_MINUTE"@.len() == 27);
    assert("SMTP_SENDER_RATE_PER_MINUTE"@.len() == 27);
    assert("SMTP_MAX_CONNECTIONS"@.len() == 20);
    assert("SMTP_COMMAND_TIMEOUT_SECONDS"@.len() == 28);
}

/// Of several things that cannot be read the first is reported: the numbers, in their order,
/// and then the mode and the match mode.
pub proof fn law_first_failure_is_reported(values: Map<Seq<char>, Seq<char>>)
    ensures
        ({
            let a = word_setting(values, "SMTP_MAX_MESSAGE_BYTES"@, 26214400);
            let b = word_setting(values, "SMTP_GLOBAL_RATE_PER_MINUTE"@, 600);
            let c = word_setting(values, "SMTP_SENDER_RATE_PER_MINUTE"@, 60);
            let d = word_setting(values, "SMTP_MAX_CONNECTIONS"@, 100);
            let e = number_setting(values, "SMTP_COMMAND_TIMEOUT_SECONDS"@, 300, u64::MAX);
            let numbers = a is Ok && b is Ok && c is Ok && d is Ok && e is Ok;
            &&& a matches Err(failure) ==> config_failure(values) == Some(failure)
            &&& a is Ok ==> (b matches Err(failure) ==> config_failure(values) == Some(failure))
            &&& a is Ok && b is Ok ==> (c matches Err(failure) ==> config_failure(values) == Some(
                failure,
            ))
            &&& a is Ok && b is Ok && c is Ok ==> (d matches Err(failure) ==> config_failure(values)
                == Some(failure))
            &&& a is Ok && b is Ok && c is Ok && d is Ok ==> (e matches Err(failure)
                ==> config_failure(values) == Some(failure))
            &&& numbers ==> (mode_setting(values) matches Err(failure) ==> config_failure(values)
                == Some(failure))
            &&& numbers && mode_setting(values) is Ok ==> (match_setting(values) matches Err(
                failure,
            ) ==> config_failure(values) == Some(failure))
        }),
{
}

} // verus!
