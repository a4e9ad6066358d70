use smtp_receiver::auth::{
    auth_results_header_satisfies, headers_satisfy_auth_results_policy,
    message_satisfies_auth_results_policy, AuthResultsConfig, AuthResultsMatchMode, AuthResultsMode,
};

fn policy(trusted: &[&str], required: &[&str], match_mode: AuthResultsMatchMode) -> AuthResultsConfig {
    AuthResultsConfig {
        mode: AuthResultsMode::Require,
        trusted_servers: trusted.iter().map(|s| s.to_string()).collect(),
        required_results: required.iter().map(|s| s.to_string()).collect(),
        match_mode,
    }
}

#[test]
fn policy_that_is_off_accepts_everything() {
    let mut config = policy(&[], &[], AuthResultsMatchMode::All);
    config.mode = AuthResultsMode::Off;
    assert!(message_satisfies_auth_results_policy(&config, b""));
}

#[test]
fn incomplete_policy_accepts_nothing() {
    let message = b"Authentication-Results: mx; dkim=pass\r\n\r\n";
    let any = AuthResultsMatchMode::Any;
    assert!(!message_satisfies_auth_results_policy(&policy(&[], &["dkim=pass"], any), message));
    assert!(!message_satisfies_auth_results_policy(&policy(&["mx"], &[], any), message));
    assert!(message_satisfies_auth_results_policy(&policy(&["mx"], &["dkim=pass"], any), message));
}

#[test]
fn header_names_its_server_first() {
    let config = policy(&["mx.example.test."], &["dkim=pass"], AuthResultsMatchMode::Any);
    assert!(auth_results_header_satisfies(&config, "MX.Example.Test; DKIM=Pass"));
    assert!(auth_results_header_satisfies(&config, "  mx.example.test.. 1; dkim=pass"));
    assert!(!auth_results_header_satisfies(&config, "other; x=mx.example.test; dkim=pass"));
    assert!(!auth_results_header_satisfies(&config, "; mx.example.test dkim=pass"));
    assert!(!auth_results_header_satisfies(&config, "mx.example.test; dkim=fail"));
    assert!(!auth_results_header_satisfies(&config, ""));
}

#[test]
fn any_and_all_differ() {
    let required = ["dkim=pass", "spf=pass"];
    let any = policy(&["mx"], &required, AuthResultsMatchMode::Any);
    let all = policy(&["mx"], &required, AuthResultsMatchMode::All);
    assert!(auth_results_header_satisfies(&any, "mx; dkim=pass"));
    assert!(!auth_results_header_satisfies(&all, "mx; dkim=pass"));
    assert!(auth_results_header_satisfies(&all, "mx; spf=pass; dkim=pass"));
}

#[test]
fn only_the_header_of_that_name_counts() {
    let config = policy(&["mx"], &["dkim=pass"], AuthResultsMatchMode::Any);
    let wrong = vec![("X-Authentication-Results".to_string(), "mx; dkim=pass".to_string())];
    assert!(!headers_satisfy_auth_results_policy(&config, &wrong));
    let right = vec![
        ("Authentication-Results".to_string(), "other; dkim=pass".to_string()),
        ("AUTHENTICATION-results".to_string(), "mx; dkim=pass".to_string()),
    ];
    assert!(headers_satisfy_auth_results_policy(&config, &right));
    assert!(!message_satisfies_auth_results_policy(
        &config,
        b"Subject: x\r\n\r\nAuthentication-Results: mx; dkim=pass\r\n"
    ));
}
