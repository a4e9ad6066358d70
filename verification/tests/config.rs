use smtp_receiver::auth::{AuthResultsMatchMode, AuthResultsMode};
use smtp_receiver::config::{
    connection_limit, parse_auth_results_config, parse_config_u64, parse_config_usize,
    parse_csv_lowercase, parse_recipient_domains, AppState, Config,
};
use smtp_receiver::limiter::RateLimitDecision;
use smtp_receiver::number::{parse_number, NumberError};
use smtp_receiver::paths::{cleaned_inbox_name, default_cleaned_dir_for, default_temp_dir_for};
use smtp_receiver::settings::{
    choose_config_file, config_file_at_default, config_keys, config_optional, config_string,
    normalize_config_key, overlay_environment, parse_config_text, trim_config_value, ConfigError,
    ConfigFile, ConfigValues, DefaultFile, ErrorKind,
};

fn values(pairs: &[(&str, &str)]) -> ConfigValues {
    let mut values = ConfigValues::new();
    for (key, value) in pairs {
        values.insert(key.to_string(), value.to_string());
    }
    values
}

fn config(pairs: &[(&str, &str)]) -> Result<Config, ConfigError> {
    Config::from_values(values(pairs))
}

#[test]
fn config_file_values_define_listener_storage_limits_and_routing_domains() {
    let values = parse_config_text(
        r#"
            # bare keys and SMTP_* keys are both accepted
            listen_addr = 127.0.0.1:2525
            inbox_dir = /mail/dropoff
            cleaned_inbox_dir = /mail/cleaned
            temp_dir = /mail/tmp
            max_message_bytes = 1024
            global_rate_per_minute = 12
            SMTP_SENDER_RATE_PER_MINUTE = 3
            max_connections = 4
            command_timeout_seconds = 5
            recipient_domains = kautschuk.com, @undenheim.kautschuk.com, kautschuk.com
            auth_results_mode = require
            auth_results_trusted_servers = mx.google.com
            auth_results_required = dkim=pass, dmarc=pass
            auth_results_match = any
            "#,
    )
    .unwrap();

    let config = Config::from_values(values).unwrap();

    assert_eq!(config.listen_addr, "127.0.0.1:2525");
    assert_eq!(config.inbox_dir, "/mail/dropoff");
    assert_eq!(config.cleaned_inbox_dir, "/mail/cleaned");
    assert_eq!(config.temp_dir, "/mail/tmp");
    assert_eq!(config.max_message_bytes, 1024);
    assert_eq!(config.global_rate_per_minute, 12);
    assert_eq!(config.sender_rate_per_minute, 3);
    assert_eq!(config.max_connections, 4);
    assert_eq!(config.command_timeout_seconds, 5);
    assert_eq!(
        config.recipient_domains,
        vec!["kautschuk.com", "undenheim.kautschuk.com"]
    );
    assert_eq!(config.auth_results.mode, AuthResultsMode::Require);
    assert_eq!(config.auth_results.trusted_servers, vec!["mx.google.com"]);
    assert_eq!(
        config.auth_results.required_results,
        vec!["dkim=pass", "dmarc=pass"]
    );
    assert_eq!(config.auth_results.match_mode, AuthResultsMatchMode::Any);
}

#[test]
fn config_file_rejects_lines_without_key_value_syntax() {
    let error = parse_config_text("listen_addr 127.0.0.1:2525").err().unwrap();

    assert_eq!(error.kind(), ErrorKind::InvalidInput);
    assert_eq!(error, ConfigError::NoKeyValue { line: 1 });
    assert_eq!(error.message(), "config line 1 must use key=value syntax");
}

#[test]
fn config_file_counts_lines_and_lets_the_last_value_win() {
    let error = parse_config_text("# comment\r\n\r\na=1\n  nonsense  \nb=2")
        .err()
        .unwrap();
    assert_eq!(error.message(), "config line 4 must use key=value syntax");

    let values = parse_config_text("inbox-dir = a=b\n INBOX_DIR='q'\n = x\n").unwrap();
    assert_eq!(values.get("SMTP_INBOX_DIR").unwrap(), "q");
    assert_eq!(values.get("SMTP_").unwrap(), "x");
    assert!(values.get("INBOX_DIR").is_none());
    let values = parse_config_text("inbox-dir = a=b").unwrap();
    assert_eq!(values.get("SMTP_INBOX_DIR").unwrap(), "a=b");
}

#[test]
fn config_keys_are_normalized() {
    assert_eq!(normalize_config_key(" listen-addr "), "SMTP_LISTEN_ADDR");
    assert_eq!(normalize_config_key("smtp-listen_addr"), "SMTP_LISTEN_ADDR");
    assert_eq!(normalize_config_key("SMTP_X"), "SMTP_X");
    assert_eq!(normalize_config_key("smtp"), "SMTP_SMTP");
    assert_eq!(normalize_config_key(""), "SMTP_");
    for key in config_keys() {
        assert_eq!(normalize_config_key(&key), key);
        assert_eq!(normalize_config_key(&key[5..].to_lowercase()), key);
    }
}

#[test]
fn config_values_lose_matching_quotes() {
    assert_eq!(trim_config_value("\"a b\""), "a b");
    assert_eq!(trim_config_value("'a b'"), "a b");
    assert_eq!(trim_config_value("\"'a'\""), "'a'");
    assert_eq!(trim_config_value("\"a'"), "\"a'");
    assert_eq!(trim_config_value("\""), "\"");
    assert_eq!(trim_config_value("\"\""), "");
    assert_eq!(trim_config_value(""), "");
    assert_eq!(trim_config_value("'\u{e9}'"), "\u{e9}");
}

#[test]
fn empty_settings_count_as_missing() {
    let values = values(&[("SMTP_INBOX_DIR", ""), ("SMTP_TEMP_DIR", "t")]);
    assert_eq!(config_optional(&values, "SMTP_INBOX_DIR"), None);
    assert_eq!(config_optional(&values, "SMTP_TEMP_DIR"), Some("t".to_string()));
    assert_eq!(config_optional(&values, "SMTP_OTHER"), None);
    assert_eq!(config_string(&values, "SMTP_INBOX_DIR", "inbox"), "inbox");
    assert_eq!(config_string(&values, "SMTP_TEMP_DIR", "inbox"), "t");
}

#[test]
fn defaults_are_those_of_the_documentation() {
    let config = config(&[]).unwrap();
    assert_eq!(config.listen_addr, "0.0.0.0:2525");
    assert_eq!(config.inbox_dir, "inbox");
    assert_eq!(config.cleaned_inbox_dir, "inbox-cleaned");
    assert_eq!(config.temp_dir, ".smtp-receiver-tmp");
    assert_eq!(config.max_message_bytes, 26214400);
    assert_eq!(config.global_rate_per_minute, 600);
    assert_eq!(config.sender_rate_per_minute, 60);
    assert_eq!(config.max_connections, 100);
    assert_eq!(config.command_timeout_seconds, 300);
    assert!(config.recipient_domains.is_empty());
    assert_eq!(config.auth_results.mode, AuthResultsMode::Off);
    assert_eq!(config.auth_results.match_mode, AuthResultsMatchMode::Any);
}

#[test]
fn default_directories_stand_beside_the_inbox() {
    assert_eq!(default_cleaned_dir_for("mail/new"), "mail/new-cleaned");
    assert_eq!(default_cleaned_dir_for("/mail/new/"), "/mail/new-cleaned");
    assert_eq!(default_cleaned_dir_for("new"), "new-cleaned");
    assert_eq!(default_cleaned_dir_for("/"), "inbox-cleaned");
    assert_eq!(default_cleaned_dir_for(".."), "inbox-cleaned");
    assert_eq!(default_cleaned_dir_for("a/.."), "a/inbox-cleaned");
    assert_eq!(default_temp_dir_for("mail/new"), "mail/.smtp-receiver-tmp");
    assert_eq!(default_temp_dir_for("new"), ".smtp-receiver-tmp");
    assert_eq!(default_temp_dir_for("/"), ".smtp-receiver-tmp");
    assert_eq!(default_temp_dir_for("/new"), "/.smtp-receiver-tmp");
    assert_eq!(default_temp_dir_for("a//b/"), "a/.smtp-receiver-tmp");
    assert_eq!(default_temp_dir_for("./b"), "./.smtp-receiver-tmp");
    for inbox in ["new", "/new", "mail/new", "a//b/c", "./b", "a/../b"] {
        let parent = std::path::Path::new(inbox).parent().unwrap();
        for dir in [default_temp_dir_for(inbox), default_cleaned_dir_for(inbox)] {
            let found = std::path::Path::new(&dir).parent().unwrap();
            assert_eq!(found.to_str(), parent.to_str(), "{inbox}");
        }
    }
    assert_eq!(cleaned_inbox_name(Some("box".to_string())), "box-cleaned");
    assert_eq!(cleaned_inbox_name(None), "inbox-cleaned");
    let config = config(&[("SMTP_INBOX_DIR", "/var/mail/in")]).unwrap();
    assert_eq!(config.cleaned_inbox_dir, "/var/mail/in-cleaned");
    assert_eq!(config.temp_dir, "/var/mail/.smtp-receiver-tmp");
}

#[test]
fn numbers_are_read_as_decimal_digits() {
    assert_eq!(parse_number("0", u64::MAX), Ok(0));
    assert_eq!(parse_number("+17", u64::MAX), Ok(17));
    assert_eq!(parse_number("007", u64::MAX), Ok(7));
    assert_eq!(parse_number("18446744073709551615", u64::MAX), Ok(u64::MAX));
    for text in [
        "", "+", "-", "-1", "1 ", " 1", "1a", "a", "++1", "\u{661}", "18446744073709551616",
        "99999999999999999999x", "1x99999999999999999999", "0x10",
    ] {
        let expected = match text.parse::<u64>() {
            Ok(_) => panic!("{text} is a number"),
            Err(error) => error.to_string(),
        };
        let found = match parse_number(text, u64::MAX) {
            Ok(_) => panic!("{text} was read"),
            Err(NumberError::Empty) => "cannot parse integer from empty string",
            Err(NumberError::InvalidDigit) => "invalid digit found in string",
            Err(NumberError::TooLarge) => "number too large to fit in target type",
        };
        assert_eq!(found, expected, "{text}");
    }
    assert_eq!(parse_number("256", 255), Err(NumberError::TooLarge));
}

#[test]
fn number_settings_have_defaults_and_errors() {
    let values = values(&[("A", "12"), ("B", "x"), ("C", ""), ("D", "99999999999999999999")]);
    assert_eq!(parse_config_usize(&values, "A", 3), Ok(12));
    assert_eq!(parse_config_usize(&values, "C", 3), Ok(3));
    assert_eq!(parse_config_usize(&values, "E", 3), Ok(3));
    assert_eq!(parse_config_u64(&values, "A", 3), Ok(12));
    assert_eq!(parse_config_u64(&values, "E", 3), Ok(3));
    assert_eq!(
        parse_config_usize(&values, "B", 3).unwrap_err().message(),
        "B must be a non-negative integer: invalid digit found in string"
    );
    assert_eq!(
        parse_config_u64(&values, "D", 3).unwrap_err().message(),
        "D must be a non-negative integer: number too large to fit in target type"
    );
}

#[test]
fn configuration_errors_come_in_order() {
    let broken = [
        ("SMTP_MAX_MESSAGE_BYTES", "x"),
        ("SMTP_GLOBAL_RATE_PER_MINUTE", "x"),
        ("SMTP_SENDER_RATE_PER_MINUTE", "x"),
        ("SMTP_MAX_CONNECTIONS", "x"),
        ("SMTP_COMMAND_TIMEOUT_SECONDS", "x"),
        ("SMTP_AUTH_RESULTS_MODE", "Sometimes"),
        ("SMTP_AUTH_RESULTS_MATCH", "Some"),
    ];
    for first in 0..broken.len() {
        let error = config(&broken[first..]).err().unwrap();
        assert_eq!(error.kind(), ErrorKind::InvalidInput);
        let expected = match first {
            5 => "SMTP_AUTH_RESULTS_MODE must be off or require, got sometimes".to_string(),
            6 => "SMTP_AUTH_RESULTS_MATCH must be any or all, got some".to_string(),
            _ => format!(
                "{} must be a non-negative integer: invalid digit found in string",
                broken[first].0
            ),
        };
        assert_eq!(error.message(), expected);
    }
}

#[test]
fn lists_are_sorted_lower_case_and_unique() {
    let list = Some(" b ,A,, a,\tC".to_string());
    assert_eq!(parse_csv_lowercase(list), vec!["a", "b", "c"]);
    assert_eq!(parse_csv_lowercase(Some("a,b,c".to_string())), vec!["a", "b", "c"]);
    assert!(parse_csv_lowercase(None).is_empty());
    assert!(parse_csv_lowercase(Some(" , ,".to_string())).is_empty());
    let domains = Some("@@X.test, y.test ,x.TEST, @ ,@".to_string());
    assert_eq!(parse_recipient_domains(domains), vec!["x.test", "y.test"]);
    assert!(parse_recipient_domains(None).is_empty());
    // The order is that of the texts' bytes.
    let list = Some("\u{ff5e},\u{10000},z,Z,zz".to_string());
    let mut expected = vec!["\u{ff5e}", "\u{10000}", "z", "zz"];
    expected.sort();
    assert_eq!(parse_csv_lowercase(list), expected);
}

#[test]
fn policy_modes_have_several_names() {
    for (text, mode) in [
        ("off", AuthResultsMode::Off),
        ("None", AuthResultsMode::Off),
        ("DISABLED", AuthResultsMode::Off),
        ("require", AuthResultsMode::Require),
        ("Required", AuthResultsMode::Require),
    ] {
        let values = values(&[
            ("SMTP_AUTH_RESULTS_MODE", text),
            ("SMTP_AUTH_RESULTS_MATCH", "ALL"),
        ]);
        let config = parse_auth_results_config(&values).unwrap();
        assert_eq!(config.mode, mode);
        assert_eq!(config.match_mode, AuthResultsMatchMode::All);
    }
}

#[test]
fn environment_wins_over_the_file() {
    let mut file = values(&[("SMTP_INBOX_DIR", "file"), ("SMTP_TEMP_DIR", "tmp"), ("X", "1")]);
    let environment = values(&[("SMTP_INBOX_DIR", ""), ("X", "2"), ("SMTP_LISTEN_ADDR", ":1")]);
    overlay_environment(&mut file, &environment);
    assert_eq!(file.get("SMTP_INBOX_DIR").unwrap(), "");
    assert_eq!(file.get("SMTP_TEMP_DIR").unwrap(), "tmp");
    assert_eq!(file.get("SMTP_LISTEN_ADDR").unwrap(), ":1");
    assert_eq!(file.get("X").unwrap(), "1");
    assert_eq!(config_keys().len(), 14);
}

#[test]
fn file_and_environment_make_the_configuration() {
    let file = "inbox_dir = file\ntemp_dir = tmp\nmax_connections = x\n";
    let environment = values(&[("SMTP_INBOX_DIR", "environment"), ("SMTP_MAX_CONNECTIONS", "7")]);
    let config = Config::from_env(Some(file), &environment).unwrap();
    assert_eq!(config.inbox_dir, "environment");
    assert_eq!(config.temp_dir, "tmp");
    assert_eq!(config.max_connections, 7);
    let config = Config::from_env(None, &environment).unwrap();
    assert_eq!(config.inbox_dir, "environment");
    assert_eq!(config.temp_dir, ".smtp-receiver-tmp");
    assert_eq!(
        Config::from_env(Some("nonsense"), &environment).err(),
        Some(ConfigError::NoKeyValue { line: 1 })
    );
    assert_eq!(
        Config::from_env(Some(file), &values(&[])).unwrap_err().message(),
        "SMTP_MAX_CONNECTIONS must be a non-negative integer: invalid digit found in string"
    );
}

#[test]
fn config_file_is_chosen_by_the_variable() {
    assert_eq!(choose_config_file(None), ConfigFile::Default);
    assert_eq!(choose_config_file(Some(String::new())), ConfigFile::Unused);
    assert_eq!(
        choose_config_file(Some("/x".to_string())),
        ConfigFile::At("/x".to_string())
    );
    assert_eq!(config_file_at_default(DefaultFile::Missing), Ok(None));
    assert_eq!(
        config_file_at_default(DefaultFile::Regular),
        Ok(Some("/etc/smtp-receiver/config".to_string()))
    );
    assert_eq!(
        config_file_at_default(DefaultFile::Other).unwrap_err().message(),
        "/etc/smtp-receiver/config is not a regular file"
    );
}

#[test]
fn connection_limit_stays_below_the_semaphore() {
    assert_eq!(connection_limit(0), usize::MAX >> 3);
    assert_eq!(connection_limit(0), tokio::sync::Semaphore::MAX_PERMITS);
    assert_eq!(connection_limit(1), 1);
    assert_eq!(connection_limit(usize::MAX >> 3), usize::MAX >> 3);
    assert_eq!(connection_limit(usize::MAX), usize::MAX >> 3);
}

#[test]
fn state_counts_within_one_minute() {
    let config = config(&[("SMTP_SENDER_RATE_PER_MINUTE", "1")]).unwrap();
    let mut state = AppState::new(config);
    let minute: u128 = 60_000_000_000;
    assert_eq!(state.config.sender_rate_per_minute, 1);
    assert_eq!(state.limiter.check_and_record("a", 5), RateLimitDecision::Accepted);
    assert_eq!(
        state.limiter.check_and_record("a", minute + 4),
        RateLimitDecision::SenderLimited
    );
    assert_eq!(
        state.limiter.check_and_record("a", minute + 5),
        RateLimitDecision::Accepted
    );
}
