//! Settings by name, from a configuration file and from the environment.
use crate::number::NumberError;
use crate::text::{
    begins_with, chars_of, decimal, decimal_string, is_white_space, law_quotes,
    law_split_at_first, law_trim_takes_off_white_space, lemma_trim_end_is, lemma_trim_start_is,
    lemma_trimmed, lines, lines_of, optional_text, position_of, slice_texts, split_once,
    starts_with, string_of, texts, to_upper, trim, trim_chars, unquoted, upper, upper_char,
};
use vstd::hash_map::StringHashMap;
use vstd::prelude::*;

verus! {

// ---------------------------------------------------------------------------
// Errors
// ---------------------------------------------------------------------------
/// Why a configuration is refused.
#[derive(Clone, Debug, PartialEq, Eq)]
pub enum ConfigError {
    /// A line of the file has no equals sign.
    NoKeyValue { line: usize },
    /// A setting that counts something is no number.
    InvalidNumber { name: String, reason: NumberError },
    /// The mode of the policy on authentication results is unknown.
    InvalidMode { value: String },
    /// The match mode of the policy on authentication results is unknown.
    InvalidMatch { value: String },
    /// What stands at the default path of the configuration file is no file.
    NotRegularFile { path: String },
}

/// The kind of an error, as the standard library's input and output errors have one.
#[derive(Clone, Copy, Debug, PartialEq, Eq, Structural)]
pub enum ErrorKind {
    InvalidInput,
}

/// What a `ConfigError` says.
pub enum ConfigFailure {
    NoKeyValue { line: nat },
    InvalidNumber { name: Seq<char>, reason: NumberError },
    InvalidMode { value: Seq<char> },
    InvalidMatch { value: Seq<char> },
    NotRegularFile { path: Seq<char> },
}

impl View for ConfigError {
    type V = ConfigFailure;

    open spec fn view(&self) -> ConfigFailure {
        match *self {
            ConfigError::NoKeyValue { line } => ConfigFailure::NoKeyValue { line: line as nat },
            ConfigError::InvalidNumber { name, reason } => ConfigFailure::InvalidNumber {
                name: name@,
                reason,
            },
            ConfigError::InvalidMode { value } => ConfigFailure::InvalidMode { value: value@ },
            ConfigError::InvalidMatch { value } => ConfigFailure::InvalidMatch { value: value@ },
            ConfigError::NotRegularFile { path } => ConfigFailure::NotRegularFile { path: path@ },
        }
    }
}

/// What is wrong with a number, in words.
pub open spec fn number_error_text(reason: NumberError) -> Seq<char> {
    match reason {
        NumberError::Empty => "cannot parse integer from empty string"@,
        NumberError::InvalidDigit => "invalid digit found in string"@,
        NumberError::TooLarge => "number too large to fit in target type"@,
    }
}

impl ConfigFailure {
    /// The failure in words.
    pub open spec fn text(self) -> Seq<char> {
        match self {
            ConfigFailure::NoKeyValue { line } => "config line "@ + decimal(line)
                + " must use key=value syntax"@,
            ConfigFailure::InvalidNumber { name, reason } => name
                + " must be a non-negative integer: "@ + number_error_text(reason),
            ConfigFailure::InvalidMode { value } =>
                "SMTP_AUTH_RESULTS_MODE must be off or require, got "@ + value,
            ConfigFailure::InvalidMatch { value } =>
                "SMTP_AUTH_RESULTS_MATCH must be any or all, got "@ + value,
            ConfigFailure::NotRegularFile { path } => path + " is not a regular file"@,
        }
    }
}

fn number_error_message(reason: NumberError) -> (r: &'static str)
    ensures
        r@ == number_error_text(reason),
{
    match reason {
        NumberError::Empty => "cannot parse integer from empty string",
        NumberError::InvalidDigit => "invalid digit found in string",
        NumberError::TooLarge => "number too large to fit in target type",
    }
}

impl ConfigError {
    /// The kind of the error.
    pub fn kind(&self) -> (r: ErrorKind)
        ensures
            r == ErrorKind::InvalidInput,
    {
        ErrorKind::InvalidInput
    }

    /// The error in words.
    pub fn message(&self) -> (r: String)
        ensures
            r@ == self@.text(),
    {
        let mut out = String::new();
        match self {
            ConfigError::NoKeyValue { line } => {
                out.append("config line ");
                out.append(decimal_string(*line as u64).as_str());
                out.append(" must use key=value syntax");
            },
            ConfigError::InvalidNumber { name, reason } => {
                out.append(name.as_str());
                out.append(" must be a non-negative integer: ");
                out.append(number_error_message(*reason));
            },
            ConfigError::InvalidMode { value } => {
                out.append("SMTP_AUTH_RESULTS_MODE must be off or require, got ");
                out.append(value.as_str());
            },
            ConfigError::InvalidMatch { value } => {
                out.append("SMTP_AUTH_RESULTS_MATCH must be any or all, got ");
                out.append(value.as_str());
            },
            ConfigError::NotRegularFile { path } => {
                out.append(path.as_str());
                out.append(" is not a regular file");
            },
        }
        assert(out@ =~= self@.text());
        out
    }
}

// ---------------------------------------------------------------------------
// Values by key
// ---------------------------------------------------------------------------
/// The values of settings by their keys.
pub struct ConfigValues {
    entries: StringHashMap<String>,
}

impl View for ConfigValues {
    type V = Map<Seq<char>, Seq<char>>;

    closed spec fn view(&self) -> Map<Seq<char>, Seq<char>> {
        self.entries@.map_values(|value: String| value@)
    }
}

/// The value of a setting, unless it is missing or empty.
pub open spec fn setting(values: Map<Seq<char>, Seq<char>>, key: Seq<char>) -> Option<Seq<char>> {
    if values.contains_key(key) && values[key].len() > 0 {
        Some(values[key])
    } else {
        None
    }
}

/// The value of a setting, or a default in its place.
pub open spec fn setting_or(
    values: Map<Seq<char>, Seq<char>>,
    key: Seq<char>,
    default: Seq<char>,
) -> Seq<char> {
    match setting(values, key) {
        Some(value) => value,
        None => default,
    }
}

impl ConfigValues {
    /// No values.
    pub fn new() -> (r: Self)
        ensures
            r@ == Map::<Seq<char>, Seq<char>>::empty(),
    {
        let values = ConfigValues { entries: StringHashMap::new() };
        assert(values@ =~= Map::empty());
        values
    }

    /// Sets the value of a key, in place of one that it has.
    pub fn insert(&mut self, key: String, value: String)
        ensures
            final(self)@ == old(self)@.insert(key@, value@),
    {
        let ghost before = self@;
        self.entries.insert(key, value);
        assert(self@ =~= before.insert(key@, value@));
    }

    /// The value of a key.
    pub fn get(&self, key: &str) -> (r: Option<&String>)
        ensures
            match r {
                Some(value) => self@.contains_key(key@) && self@[key@] == value@,
                None => !self@.contains_key(key@),
            },
    {
        self.entries.get(key)
    }
}

/// The value of a setting, unless it is missing or empty.
pub fn config_optional(values: &ConfigValues, key: &str) -> (r: Option<String>)
    ensures
        optional_text(r) == setting(values@, key@),
{
    match values.get(key) {
        Some(value) => {
            if value.as_str().is_empty() {
                None
            } else {
                Some(value.as_str().to_owned())
            }
        },
        None => None,
    }
}

/// The value of a setting, or a default in its place.
pub fn config_string(values: &ConfigValues, key: &str, default: &str) -> (r: String)
    ensures
        r@ == setting_or(values@, key@, default@),
{
    match config_optional(values, key) {
        Some(value) => value,
        None => default.to_owned(),
    }
}

// ---------------------------------------------------------------------------
// The file
// ---------------------------------------------------------------------------
/// A text with underscores in the place of its hyphens.
pub open spec fn with_underscores(s: Seq<char>) -> Seq<char> {
    Seq::new(
        s.len(),
        |i: int|
            if s[i] == '-' {
                '_'
            } else {
                s[i]
            },
    )
}

/// The key that a name in a file stands for: in upper case, with underscores, and
/// with `SMTP_` in front.
pub open spec fn config_key(name: Seq<char>) -> Seq<char> {
    let key = upper(with_underscores(trim(name)));
    if starts_with(key, "SMTP_"@) {
        key
    } else {
        "SMTP_"@ + key
    }
}

/// A value without the double or single quotes around it.
pub open spec fn config_value(value: Seq<char>) -> Seq<char> {
    match unquoted(value, '"') {
        Some(inner) => inner,
        None => match unquoted(value, '\'') {
            Some(inner) => inner,
            None => value,
        },
    }
}

/// What a line of a file says.
pub enum ConfigLine {
    /// Nothing: it is empty or a comment.
    Nothing,
    /// The value of a key.
    Entry { key: Seq<char>, value: Seq<char> },
    /// It cannot be read.
    Unreadable,
}

/// What a line of a file says.
pub open spec fn config_line(raw: Seq<char>) -> ConfigLine {
    let line = trim(raw);
    if line.len() == 0 || line[0] == '#' {
        ConfigLine::Nothing
    } else {
        match split_once(line, '=') {
            Some((name, value)) => ConfigLine::Entry {
                key: config_key(name),
                value: config_value(trim(value)),
            },
            None => ConfigLine::Unreadable,
        }
    }
}

/// The values that lines set, the last one for each key; or the number of the first
/// line that cannot be read, counted from one.
pub open spec fn values_of_lines(lines: Seq<Seq<char>>) -> Result<
    Map<Seq<char>, Seq<char>>,
    nat,
>
    decreases lines.len(),
{
    if lines.len() == 0 {
        Ok(Map::empty())
    } else {
        match values_of_lines(lines.drop_last()) {
            Ok(values) => match config_line(lines.last()) {
                ConfigLine::Nothing => Ok(values),
                ConfigLine::Entry { key, value } => Ok(values.insert(key, value)),
                ConfigLine::Unreadable => Err(lines.len()),
            },
            Err(line) => Err(line),
        }
    }
}

/// The key that a name in a file stands for.
pub fn normalize_config_key(key: &str) -> (r: String)
    ensures
        r@ == config_key(key@),
{
    let chars = chars_of(key);
    let upper_chars = upper_key(trim_chars(chars.as_slice()));
    let normalized = string_of(upper_chars.as_slice());
    if begins_with(upper_chars.as_slice(), "SMTP_") {
        normalized
    } else {
        let mut out = "SMTP_".to_owned();
        out.append(normalized.as_str());
        out
    }
}

fn upper_key(name: &[char]) -> (r: Vec<char>)
    ensures
        r@ == upper(with_underscores(name@)),
{
    let mut out: Vec<char> = Vec::new();
    let mut i: usize = 0;
    while i < name.len()
        invariant
            i <= name@.len(),
            out@ == with_underscores(name@).take(i as int),
        decreases name@.len() - i,
    {
        let c: char = name[i];
        if c == '-' {
            out.push('_');
        } else {
            out.push(c);
        }
        i = i + 1;
    }
    assert(out@ == with_underscores(name@));
    to_upper(out.as_slice())
}

/// A value without the quotes around it.
pub fn trim_config_value(value: &str) -> (r: &str)
    ensures
        r@ == config_value(value@),
{
    let chars = chars_of(value);
    let n: usize = chars.len();
    if n >= 2 && ((chars[0] == '"' && chars[n - 1] == '"') || (chars[0] == '\'' && chars[n - 1]
        == '\'')) {
        value.substring_char(1, n - 1)
    } else {
        value
    }
}

/// The values that a configuration file sets.
pub fn parse_config_text(content: &str) -> (r: Result<ConfigValues, ConfigError>)
    ensures
        match r {
            Ok(values) => values_of_lines(lines(content@)) == Ok::<_, nat>(values@),
            Err(error) => match values_of_lines(lines(content@)) {
                Ok(_) => false,
                Err(line) => error@ == (ConfigFailure::NoKeyValue { line }),
            },
        },
{
    let chars = chars_of(content);
    let all = lines_of(chars.as_slice());
    let ghost wanted = lines(content@);
    let mut values = ConfigValues::new();
    let mut i: usize = 0;
    let total: usize = all.len();
    while i < total
        invariant
            i <= total == all@.len(),
            slice_texts(all@) == wanted,
            wanted == lines(content@),
            values_of_lines(wanted.take(i as int)) == Ok::<_, nat>(values@),
        decreases total - i,
    {
        let line = trim_chars(all[i]);
        proof {
            assert(slice_texts(all@)[i as int] == all@[i as int]@);
            assert(wanted.take(i + 1).drop_last() == wanted.take(i as int));
            assert(wanted.take(i + 1).last() == wanted[i as int]);
        }
        if line.len() > 0 && line[0] != '#' {
            let equals: usize = position_of(line, '=');
            if equals >= line.len() {
                proof {
                    lemma_unreadable_stays(wanted, i + 1);
                }
                return Err(ConfigError::NoKeyValue { line: i + 1 });
            }
            let name = string_of(&line[0..equals]);
            let key = normalize_config_key(name.as_str());
            let value = string_of(trim_chars(&line[equals + 1..line.len()]));
            values.insert(key, trim_config_value(value.as_str()).to_owned());
        }
        i = i + 1;
    }
    assert(wanted.take(total as int) == wanted);
    Ok(values)
}

proof fn lemma_unreadable_stays(lines: Seq<Seq<char>>, count: int)
    requires
        0 <= count <= lines.len(),
        values_of_lines(lines.take(count)) is Err,
    ensures
        values_of_lines(lines) == values_of_lines(lines.take(count)),
    decreases lines.len() - count,
{
    if count < lines.len() {
        assert(lines.take(count + 1).drop_last() == lines.take(count));
        lemma_unreadable_stays(lines, count + 1);
    } else {
        assert(lines.take(count) == lines);
    }
}

// ---------------------------------------------------------------------------
// The environment
// ---------------------------------------------------------------------------
/// The keys of all settings.
pub open spec fn config_key_list() -> Seq<Seq<char>> {
    seq![
        "SMTP_LISTEN_ADDR"@,
        "SMTP_INBOX_DIR"@,
        "SMTP_CLEANED_INBOX_DIR"@,
        "SMTP_TEMP_DIR"@,
        "SMTP_MAX_MESSAGE_BYTES"@,
        "SMTP_GLOBAL_RATE_PER_MINUTE"@,
        "SMTP_SENDER_RATE_PER_MINUTE"@,
        "SMTP_MAX_CONNECTIONS"@,
        "SMTP_COMMAND_TIMEOUT_SECONDS"@,
        "SMTP_RECIPIENT_DOMAINS"@,
        "SMTP_AUTH_RESULTS_MODE"@,
        "SMTP_AUTH_RESULTS_TRUSTED_SERVERS"@,
        "SMTP_AUTH_RESULTS_REQUIRED"@,
        "SMTP_AUTH_RESULTS_MATCH"@,
    ]
}

/// The keys of all settings.
pub fn config_keys() -> (r: Vec<String>)
    ensures
        texts(r@) == config_key_list(),
{
    let keys: Vec<String> = vec![
        "SMTP_LISTEN_ADDR".to_owned(),
        "SMTP_INBOX_DIR".to_owned(),
        "SMTP_CLEANED_INBOX_DIR".to_owned(),
        "SMTP_TEMP_DIR".to_owned(),
        "SMTP_MAX_MESSAGE_BYTES".to_owned(),
        "SMTP_GLOBAL_RATE_PER_MINUTE".to_owned(),
        "SMTP_SENDER_RATE_PER_MINUTE".to_owned(),
        "SMTP_MAX_CONNECTIONS".to_owned(),
        "SMTP_COMMAND_TIMEOUT_SECONDS".to_owned(),
        "SMTP_RECIPIENT_DOMAINS".to_owned(),
        "SMTP_AUTH_RESULTS_MODE".to_owned(),
        "SMTP_AUTH_RESULTS_TRUSTED_SERVERS".to_owned(),
        "SMTP_AUTH_RESULTS_REQUIRED".to_owned(),
        "SMTP_AUTH_RESULTS_MATCH".to_owned(),
    ];
    assert(texts(keys@) =~= config_key_list());
    keys
}

/// Values with those of the environment's variables in their place that are named
/// like one of these keys.
pub open spec fn overlaid(
    values: Map<Seq<char>, Seq<char>>,
    environment: Map<Seq<char>, Seq<char>>,
    keys: Seq<Seq<char>>,
) -> Map<Seq<char>, Seq<char>> {
    values.union_prefer_right(environment.restrict(keys.to_set()))
}

/// Puts the values of the environment's variables in the place of those of the file.
pub fn overlay_environment(values: &mut ConfigValues, environment: &ConfigValues)
    ensures
        final(values)@ == overlaid(old(values)@, environment@, config_key_list()),
{
    let keys = config_keys();
    let ghost names = texts(keys@);
    let ghost before = values@;
    assert(values@ =~= overlaid(before, environment@, names.take(0)));
    let mut i: usize = 0;
    while i < keys.len()
        invariant
            i <= keys@.len(),
            names == texts(keys@),
            values@ == overlaid(before, environment@, names.take(i as int)),
        decreases keys@.len() - i,
    {
        if let Some(value) = environment.get(keys[i].as_str()) {
            values.insert(keys[i].as_str().to_owned(), value.as_str().to_owned());
        }
        proof {
            lemma_one_more_key(before, environment@, names, i as int);
        }
        i = i + 1;
    }
    assert(names.take(names.len() as int) == names);
}

proof fn lemma_one_more_key(
    values: Map<Seq<char>, Seq<char>>,
    environment: Map<Seq<char>, Seq<char>>,
    keys: Seq<Seq<char>>,
    i: int,
)
    requires
        0 <= i < keys.len(),
    ensures
        overlaid(values, environment, keys.take(i + 1)) == if environment.contains_key(keys[i]) {
            overlaid(values, environment, keys.take(i)).insert(keys[i], environment[keys[i]])
        } else {
            overlaid(values, environment, keys.take(i))
        },
{
    let some = keys.take(i);
    let more = keys.take(i + 1);
    assert forall|k: Seq<char>| more.to_set().contains(k) == (some.to_set().contains(k) || k
        == keys[i]) by {
        assert(more == some.push(keys[i]));
        if some.contains(k) {
            let j = choose|j: int| 0 <= j < some.len() && some[j] == k;
            assert(more[j] == k);
        }
        assert(more[i] == keys[i]);
    }
    let a = overlaid(values, environment, more);
    let b = overlaid(values, environment, some);
    if environment.contains_key(keys[i]) {
        assert(a =~= b.insert(keys[i], environment[keys[i]]));
    } else {
        assert(a =~= b);
    }
}

// ---------------------------------------------------------------------------
// Where the file is
// ---------------------------------------------------------------------------
/// Which file is read.
#[derive(Clone, Debug, PartialEq, Eq)]
pub enum ConfigFile {
    /// None.
    Unused,
    /// The one at this path.
    At(String),
    /// The one at the default path, if there is one.
    Default,
}

/// What stands at the default path.
#[derive(Clone, Copy, Debug, PartialEq, Eq, Structural)]
pub enum DefaultFile {
    Missing,
    Regular,
    Other,
}

/// The default path.
pub open spec fn default_config_file() -> Seq<char> {
    "/etc/smtp-receiver/config"@
}

/// The default path.
pub fn default_config_path() -> (r: &'static str)
    ensures
        r@ == default_config_file(),
        r@ == "/etc/smtp-receiver/config"@,
{
    "/etc/smtp-receiver/config"
}

/// Which file is read, by the variable that names one: an empty name stands for no
/// file, and without the variable the default path is looked at.
pub fn choose_config_file(variable: Option<String>) -> (r: ConfigFile)
    ensures
        match variable {
            Some(path) => if path@.len() == 0 {
                r == ConfigFile::Unused
            } else {
                r == ConfigFile::At(path)
            },
            None => r == ConfigFile::Default,
        },
{
    match variable {
        Some(path) => {
            if path.as_str().is_empty() {
                ConfigFile::Unused
            } else {
                ConfigFile::At(path)
            }
        },
        None => ConfigFile::Default,
    }
}

/// The file at the default path: it may be missing, but what is there has to be a
/// regular file.
pub fn config_file_at_default(found: DefaultFile) -> (r: Result<Option<String>, ConfigError>)
    ensures
        match found {
            DefaultFile::Missing => r matches Ok(path) && path is None,
            DefaultFile::Regular => r matches Ok(path) && optional_text(path) == Some(
                default_config_file(),
            ),
            DefaultFile::Other => r matches Err(error) && error@ == (
            ConfigFailure::NotRegularFile { path: default_config_file() }),
        },
{
    match found {
        DefaultFile::Missing => Ok(None),
        DefaultFile::Regular => Ok(Some(default_config_path().to_owned())),
        DefaultFile::Other => Err(
            ConfigError::NotRegularFile { path: default_config_path().to_owned() },
        ),
    }
}

// ---------------------------------------------------------------------------
// Laws
// ---------------------------------------------------------------------------
/// Every key begins with `SMTP_`, so none is empty.
pub proof fn law_keys_have_a_prefix(name: Seq<char>)
    ensures
        starts_with(config_key(name), "SMTP_"@),
        config_key(name).len() > 0,
{
    reveal_strlit("SMTP_");
    let key = upper(with_underscores(trim(name)));
    assert(("SMTP_"@ + key).take("SMTP_"@.len() as int) =~= "SMTP_"@);
}

/// Bare names and names with `SMTP_` in front stand for the same key.
pub proof fn law_bare_and_prefixed_names_agree(name: Seq<char>)
    requires
        trim(name) == name,
        !starts_with(upper(with_underscores(name)), "SMTP_"@),
    ensures
        config_key("SMTP_"@ + name) == config_key(name),
{
    reveal_strlit("SMTP_");
    let long = "SMTP_"@ + name;
    lemma_trimmed(name);
    lemma_trim_start_is(long, 0);
    lemma_trim_end_is(long, long.len() as int);
    assert(long.skip(0) =~= long);
    assert(long.take(long.len() as int) =~= long);
    assert(trim(long) == long);
    assert(upper(with_underscores(long)) =~= "SMTP_"@ + upper(with_underscores(name)));
    let key = upper(with_underscores(name));
    assert(("SMTP_"@ + key).take("SMTP_"@.len() as int) =~= "SMTP_"@);
}

/// A key stands for itself.
pub proof fn law_key_is_stable(name: Seq<char>)
    ensures
        config_key(config_key(name)) == config_key(name),
{
    reveal_strlit("SMTP_");
    let base = trim(name);
    let key = config_key(name);
    law_keys_have_a_prefix(name);
    lemma_trimmed(name);
    assert(key[0] == 'S') by {
        assert(key.take("SMTP_"@.len() as int)[0] == key[0]);
    }
    if base.len() > 0 {
        assert(key.last() == upper_char(with_underscores(base).last()));
    } else {
        assert(key =~= "SMTP_"@);
    }
    lemma_trim_start_is(key, 0);
    lemma_trim_end_is(key, key.len() as int);
    assert(key.skip(0) =~= key);
    assert(key.take(key.len() as int) =~= key);
    assert(trim(key) == key);
    assert forall|i: int| 0 <= i < key.len() implies #[trigger] upper(with_underscores(key))[i]
        == key[i] by {
        let inner = upper(with_underscores(base));
        let j = i - (key.len() - inner.len());
        if j >= 0 {
            assert(key[i] == inner[j]);
        }
    }
    assert(upper(with_underscores(key)) =~= key);
}

/// A variable of the environment wins over the file, also where it is empty; a key
/// that the environment does not have keeps its value.
pub proof fn law_environment_wins(
    values: Map<Seq<char>, Seq<char>>,
    environment: Map<Seq<char>, Seq<char>>,
    key: Seq<char>,
)
    requires
        config_key_list().contains(key),
    ensures
        setting(overlaid(values, environment, config_key_list()), key)
            == if environment.contains_key(key) {
            setting(environment, key)
        } else {
            setting(values, key)
        },
{
    assert(config_key_list().to_set().contains(key));
}

/// Variables that are no settings change nothing.
pub proof fn law_other_variables_are_ignored(
    values: Map<Seq<char>, Seq<char>>,
    environment: Map<Seq<char>, Seq<char>>,
    key: Seq<char>,
)
    requires
        !config_key_list().contains(key),
    ensures
        setting(overlaid(values, environment, config_key_list()), key) == setting(values, key),
{
    assert(!config_key_list().to_set().contains(key));
}

/// The last line that sets a key decides; lines that say nothing change nothing.
pub proof fn law_last_line_decides(lines: Seq<Seq<char>>, line: Seq<char>)
    requires
        values_of_lines(lines) is Ok,
    ensures
        match config_line(line) {
            ConfigLine::Nothing => values_of_lines(lines.push(line)) == values_of_lines(lines),
            ConfigLine::Entry { key, value } => values_of_lines(lines.push(line)) == Ok::<_, nat>(
                values_of_lines(lines)->Ok_0.insert(key, value),
            ),
            ConfigLine::Unreadable => values_of_lines(lines.push(line))
                == Err::<Map<Seq<char>, Seq<char>>, nat>(lines.len() + 1),
        },
{
    assert(lines.push(line).drop_last() =~= lines);
}

/// A name in a file stands for the key of the same letters in upper case, with underscores
/// for hyphens, whatever white space is around it. `SMTP_` is put in front unless it is
/// there.
pub proof fn law_key_of_a_name(front: Seq<char>, name: Seq<char>, back: Seq<char>)
    requires
        forall|i: int| 0 <= i < front.len() ==> is_white_space(#[trigger] front[i]),
        forall|i: int| 0 <= i < back.len() ==> is_white_space(#[trigger] back[i]),
        name.len() > 0 ==> !is_white_space(name[0]) && !is_white_space(name.last()),
    ensures
        ({
            let key = config_key(front + name + back);
            let own = Seq::new(
                name.len(),
                |i: int|
                    if name[i] == '-' {
                        '_'
                    } else {
                        upper(name)[i]
                    },
            );
            let prefix = seq!['S', 'M', 'T', 'P', '_'];
            &&& starts_with(own, prefix) ==> key == own
            &&& !starts_with(own, prefix) ==> key == prefix + own
        }),
{
    reveal_strlit("SMTP_");
    assert("SMTP_"@ =~= seq!['S', 'M', 'T', 'P', '_']);
    law_trim_takes_off_white_space(front, name, back);
    let own = Seq::new(
        name.len(),
        |i: int|
            if name[i] == '-' {
                '_'
            } else {
                upper(name)[i]
            },
    );
    assert(upper(with_underscores(name)) =~= own);
}

/// Double or single quotes round a value are taken off, one pair of them; a value without is
/// as it stands.
pub proof fn law_quoted_values(value: Seq<char>)
    ensures
        config_value(seq!['"'] + value + seq!['"']) == value,
        config_value(seq!['\''] + value + seq!['\'']) == value,
        value.len() < 2 || value[0] != value.last() || (value[0] != '"' && value[0] != '\'')
            ==> config_value(value) == value,
{
    law_quotes(value, value, '"');
    law_quotes(value, value, '\'');
    let single = seq!['\''] + value + seq!['\''];
    assert(single[0] == '\'');
    assert(unquoted(single, '"') is None);
}

/// A line says nothing where it is blank or begins with `#`; otherwise it sets a key, by the
/// name before its first equals sign, to the value behind that; and without an equals sign
/// it cannot be read. White space around the line, the name and the value does not matter.
pub proof fn law_what_a_line_says(
    front: Seq<char>,
    line: Seq<char>,
    back: Seq<char>,
    name: Seq<char>,
    value: Seq<char>,
)
    requires
        forall|i: int| 0 <= i < front.len() ==> is_white_space(#[trigger] front[i]),
        forall|i: int| 0 <= i < back.len() ==> is_white_space(#[trigger] back[i]),
        line.len() > 0 ==> !is_white_space(line[0]) && !is_white_space(line.last()),
        !name.contains('='),
    ensures
        line.len() == 0 || line[0] == '#' ==> config_line(front + line + back)
            == ConfigLine::Nothing,
        line.len() > 0 && line[0] != '#' && !line.contains('=') ==> config_line(
            front + line + back,
        ) == ConfigLine::Unreadable,
        line.len() > 0 && line[0] != '#' && line == name + seq!['='] + value ==> config_line(
            front + line + back,
        ) == (ConfigLine::Entry { key: config_key(name), value: config_value(trim(value)) }),
{
    law_trim_takes_off_white_space(front, line, back);
    law_split_at_first(name, '=', value);
    assert(name + seq!['='] + value =~= name.push('=') + value);
    if !line.contains('=') {
        law_split_at_first(line, '=', value);
    }
}

/// An empty file sets nothing, and the first line that cannot be read is the one reported.
pub proof fn law_first_unreadable_line_is_reported(lines: Seq<Seq<char>>, line: Seq<char>)
    ensures
        values_of_lines(Seq::empty()) == Ok::<_, nat>(Map::<Seq<char>, Seq<char>>::empty()),
        values_of_lines(lines) is Err ==> values_of_lines(lines.push(line)) == values_of_lines(
            lines,
        ),
        values_of_lines(lines) matches Err(n) ==> 1 <= n <= lines.len() && config_line(lines[n - 1])
            == ConfigLine::Unreadable,
    decreases lines.len(),
{
    assert(lines.push(line).drop_last() =~= lines);
    if lines.len() > 0 {
        law_first_unreadable_line_is_reported(lines.drop_last(), line);
    }
}

/// A setting is the value of its own key; an empty value is as none, and none is the default.
pub proof fn law_settings(
    values: Map<Seq<char>, Seq<char>>,
    key: Seq<char>,
    value: Seq<char>,
    other: Seq<char>,
)
    ensures
        setting(Map::empty(), key) is None,
        value.len() > 0 ==> setting(values.insert(key, value), key) == Some(value),
        value.len() == 0 ==> setting(values.insert(key, value), key) is None,
        other != key ==> setting(values.insert(key, value), other) == setting(values, other),
        setting_or(values.insert(key, value), key, other) == if value.len() > 0 {
            value
        } else {
            other
        },
        setting_or(Map::empty(), key, other) == other,
{
}

/// The environment can set every setting that there is, and no other variable counts.
pub proof fn law_variables(key: Seq<char>)
    ensures
        config_key_list().contains(key) <==> (key == "SMTP_LISTEN_ADDR"@ || key
            == "SMTP_INBOX_DIR"@ || key == "SMTP_CLEANED_INBOX_DIR"@ || key == "SMTP_TEMP_DIR"@
            || key == "SMTP_MAX_MESSAGE_BYTES"@ || key == "SMTP_GLOBAL_RATE_PER_MINUTE"@ || key
            == "SMTP_SENDER_RATE_PER_MINUTE"@ || key == "SMTP_MAX_CONNECTIONS"@ || key
            == "SMTP_COMMAND_TIMEOUT_SECONDS"@ || key == "SMTP_RECIPIENT_DOMAINS"@ || key
            == "SMTP_AUTH_RESULTS_MODE"@ || key == "SMTP_AUTH_RESULTS_TRUSTED_SERVERS"@ || key
            == "SMTP_AUTH_RESULTS_REQUIRED"@ || key == "SMTP_AUTH_RESULTS_MATCH"@),
{
    let keys = config_key_list();
    assert(keys[0] == "SMTP_LISTEN_ADDR"@ && keys[1] == "SMTP_INBOX_DIR"@);
    assert(keys[2] == "SMTP_CLEANED_INBOX_DIR"@ && keys[3] == "SMTP_TEMP_DIR"@);
    assert(keys[4] == "SMTP_MAX_MESSAGE_BYTES"@ && keys[5] == "SMTP_GLOBAL_RATE_PER_MINUTE"@);
    assert(keys[6] == "SMTP_SENDER_RATE_PER_MINUTE"@ && keys[7] == "SMTP_MAX_CONNECTIONS"@);
    assert(keys[8] == "SMTP_COMMAND_TIMEOUT_SECONDS"@ && keys[9] == "SMTP_RECIPIENT_DOMAINS"@);
    assert(keys[10] == "SMTP_AUTH_RESULTS_MODE"@);
    assert(keys[11] == "SMTP_AUTH_RESULTS_TRUSTED_SERVERS"@);
    assert(keys[12] == "SMTP_AUTH_RESULTS_REQUIRED"@ && keys[13] == "SMTP_AUTH_RESULTS_MATCH"@);
}

} // verus!
