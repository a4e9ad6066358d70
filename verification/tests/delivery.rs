use smtp_receiver::auth::{AuthResultsConfig, AuthResultsMatchMode, AuthResultsMode};
use smtp_receiver::bytes::split_headers_body;
use smtp_receiver::config::Config;
use smtp_receiver::delivery::{
    decide_delivery, directory_of, message_filename, message_filename_on, path_of, plan_delivery,
    plan_delivery_on, DeliveryDecision, DeliveryPlan,
};
use smtp_receiver::envelope::message_content;
use smtp_receiver::files::{preparation_steps, Content, FileOp, FilePath, Job, Root, Step};
use smtp_receiver::headers::parse_headers;
use smtp_receiver::ids::IdSource;

fn auth_results_off() -> AuthResultsConfig {
    AuthResultsConfig {
        mode: AuthResultsMode::Off,
        trusted_servers: Vec::new(),
        required_results: Vec::new(),
        match_mode: AuthResultsMatchMode::Any,
    }
}

fn test_config() -> Config {
    Config {
        listen_addr: "127.0.0.1:0".to_string(),
        inbox_dir: "inbox".to_string(),
        cleaned_inbox_dir: "inbox-cleaned".to_string(),
        temp_dir: "tmp".to_string(),
        max_message_bytes: 4096,
        global_rate_per_minute: 10,
        sender_rate_per_minute: 10,
        max_connections: 100,
        command_timeout_seconds: 300,
        recipient_domains: Vec::new(),
        auth_results: auth_results_off(),
    }
}

type Files = Vec<(FilePath, Vec<u8>)>;

fn path(root: Root, folder: Option<&str>, name: &str) -> FilePath {
    FilePath {
        root,
        folder: folder.map(|f| f.to_string()),
        name: name.to_string(),
    }
}

fn put(files: &mut Files, file: FilePath, bytes: Vec<u8>) {
    files.retain(|(f, _)| *f != file);
    files.push((file, bytes));
}

/// Takes the steps until one fails, and then removes what it says. Returns whether all
/// were taken.
fn run(files: &mut Files, steps: &[Step], content: &[u8], cleaned: &[u8], fail_at: usize) -> bool {
    for (index, step) in steps.iter().enumerate() {
        if index == fail_at {
            files.retain(|(f, _)| !step.undo.contains(f));
            return false;
        }
        match &step.op {
            FileOp::CreateDir { .. } => {}
            FileOp::Write { file, content: which } => {
                assert_eq!(file.root, Root::Temp);
                let bytes = match which {
                    Content::Message => content,
                    Content::CleanedCopy => cleaned,
                };
                put(files, file.clone(), bytes.to_vec());
            }
            FileOp::Rename { from, to } => {
                let at = files.iter().position(|(f, _)| f == from).unwrap();
                let (_, bytes) = files.remove(at);
                put(files, to.clone(), bytes);
            }
        }
        for (file, bytes) in files.iter() {
            match file.root {
                Root::Temp => {}
                Root::Inbox => assert_eq!(bytes, content),
                Root::Cleaned => assert_eq!(bytes, cleaned),
            }
        }
    }
    true
}

fn stored(plan: DeliveryPlan) -> (Vec<u8>, Vec<u8>, Job) {
    match plan {
        DeliveryPlan::Store {
            content,
            cleaned,
            job,
        } => (content, cleaned, job),
        other => panic!("expected stored delivery, got {other:?}"),
    }
}

/// The files after a message was dealt with, where there were none.
fn files_after(plan: DeliveryPlan) -> Files {
    let mut files = Vec::new();
    assert!(run(&mut files, &preparation_steps(), &[], &[], usize::MAX));
    if let DeliveryPlan::Store {
        content,
        cleaned,
        job,
    } = plan
    {
        assert!(run(&mut files, &job.steps(), &content, &cleaned, usize::MAX));
    }
    files
}

fn today() -> String {
    chrono::Utc::now().format("%Y-%m-%d").to_string()
}

#[test]
fn message_filename_uses_utc_date_and_url_safe_sha1() {
    let filename = message_filename(b"abc");
    let today = today();

    assert_eq!(filename, format!("{today}-qZk-NkcGgWq6PiVxeFDCbJzQ2J0.eml"));
}

#[test]
fn message_filename_is_known_for_a_date() {
    assert_eq!(
        message_filename_on("2024-02-29", b"abc"),
        "2024-02-29-qZk-NkcGgWq6PiVxeFDCbJzQ2J0.eml"
    );
    assert_eq!(
        message_filename_on("2024-02-29", b""),
        "2024-02-29-2jmj7l5rSw0yVb_vlWAYkK_YBwk.eml"
    );
}

#[test]
fn persist_message_renames_into_inbox_only_when_complete() {
    let plan = plan_delivery(
        &test_config(),
        "<sender@example.test>",
        &["<rcpt@example.test>".to_string()],
        b"Subject: hello\r\n\r\nbody\r\n",
        &mut IdSource::new(),
    );

    let (content, cleaned, job) = stored(plan);
    assert_eq!(job.stored_files().len(), 1);
    let path = &job.stored_files()[0];
    assert_eq!(path.root, Root::Inbox);
    assert_eq!(path.folder, None);
    let today = today();
    assert!(path.name.starts_with(&format!("{today}-")));
    assert!(path.name.ends_with(".eml"));
    let mut files = Vec::new();
    assert!(run(&mut files, &job.steps(), &content, &cleaned, usize::MAX));
    assert_eq!(files.iter().filter(|(f, _)| f.root == Root::Inbox).count(), 1);
    assert!(files.iter().any(|(f, _)| f == path));
    assert!(content.starts_with(b"X-SMTP-Receiver-Envelope-From: <sender@example.test>\r\n"));
    assert!(content.ends_with(b"Subject: hello\r\n\r\nbody\r\n"));
    assert_eq!(files.iter().filter(|(f, _)| f.root == Root::Cleaned).count(), 1);
    assert_eq!(files.len(), 2);
}

#[test]
fn persist_message_routes_to_configured_recipient_username_folders() {
    let mut config = test_config();
    config.recipient_domains = vec![
        "kautschuk.com".to_string(),
        "undenheim.kautschuk.com".to_string(),
    ];

    let plan = plan_delivery(
        &config,
        "<sender@example.test>",
        &["<udo@kautschuk.com>".to_string()],
        b"To: Other <other@example.test>\r\nCc: Alice <alice@undenheim.kautschuk.com>, udo+tag@kautschuk.com\r\n\r\nbody\r\n",
        &mut IdSource::new(),
    );

    let (content, cleaned, job) = stored(plan);
    let paths = job.stored_files();
    assert_eq!(paths.len(), 2);
    assert!(paths.iter().any(|path| path.folder.as_deref() == Some("udo")));
    assert!(paths.iter().any(|path| path.folder.as_deref() == Some("alice")));
    let mut files = Vec::new();
    assert!(run(&mut files, &job.steps(), &content, &cleaned, usize::MAX));
    for root in [Root::Inbox, Root::Cleaned] {
        for folder in ["udo", "alice"] {
            let found = files
                .iter()
                .filter(|(f, _)| f.root == root && f.folder.as_deref() == Some(folder));
            assert_eq!(found.count(), 1);
        }
    }
    assert_eq!(files.len(), 4);
}

#[test]
fn persist_message_ignores_when_no_configured_recipient_domain_matches() {
    let mut config = test_config();
    config.recipient_domains = vec!["kautschuk.com".to_string()];

    let mut ids = IdSource::new();
    let plan = plan_delivery(
        &config,
        "<sender@example.test>",
        &["<outside@example.test>".to_string()],
        b"To: outside@example.test\r\n\r\nbody\r\n",
        &mut ids,
    );

    assert!(matches!(plan, DeliveryPlan::IgnoredNoMatchingRecipient));
    assert_eq!(ids.next, 1);
    let files = files_after(plan);
    assert!(files.iter().all(|(f, _)| f.root != Root::Inbox));
    assert!(files.iter().all(|(f, _)| f.root != Root::Cleaned));
    assert!(files.is_empty());
}

#[test]
fn persist_message_ignores_when_auth_results_policy_fails() {
    let mut config = test_config();
    config.auth_results = AuthResultsConfig {
        mode: AuthResultsMode::Require,
        trusted_servers: vec!["mx.google.com".to_string()],
        required_results: vec!["dmarc=pass".to_string()],
        match_mode: AuthResultsMatchMode::Any,
    };

    let plan = plan_delivery(
        &config,
        "<sender@example.test>",
        &["<rcpt@example.test>".to_string()],
        b"Authentication-Results: mx.google.com; dkim=pass header.i=@example.test\r\nSubject: no dmarc\r\n\r\nbody\r\n",
        &mut IdSource::new(),
    );

    assert!(matches!(plan, DeliveryPlan::IgnoredAuthResults));
    let files = files_after(plan);
    assert!(files.iter().all(|(f, _)| f.root != Root::Inbox));
    assert!(files.is_empty());
}

#[test]
fn persist_message_stores_when_auth_results_policy_passes() {
    let mut config = test_config();
    config.auth_results = AuthResultsConfig {
        mode: AuthResultsMode::Require,
        trusted_servers: vec!["mx.google.com".to_string()],
        required_results: vec!["dkim=pass".to_string(), "dmarc=pass".to_string()],
        match_mode: AuthResultsMatchMode::Any,
    };

    let plan = plan_delivery(
        &config,
        "<sender@example.test>",
        &["<rcpt@example.test>".to_string()],
        b"Authentication-Results: mx.google.com; spf=pass; dkim=pass header.i=@example.test\r\nSubject: pass\r\n\r\nbody\r\n",
        &mut IdSource::new(),
    );

    assert_eq!(stored(plan).2.stored_files().len(), 1);
}

#[test]
fn temporary_names_tell_deliveries_apart() {
    let mut ids = IdSource::new();
    let mut config = test_config();
    config.recipient_domains = vec!["x.test".to_string()];
    let recipients = ["b@x.test".to_string(), "a@x.test".to_string()];
    let plan = plan_delivery_on("2024-01-02", &config, "s", &recipients, b"x", &mut ids);
    let (content, _, job) = stored(plan);
    let name = message_filename_on("2024-01-02", &content);
    assert_eq!(job.filename, name);
    assert_eq!(job.delivery_id, 1);
    assert_eq!(ids.next, 2);
    assert_eq!(job.targets, vec![Some("a".to_string()), Some("b".to_string())]);
    let steps = job.steps();
    assert_eq!(steps.len(), 12);
    let temp = |index: usize, suffix: &str| {
        path(Root::Temp, None, &format!("{name}.1.{index}.{suffix}"))
    };
    assert_eq!(
        steps[0].op,
        FileOp::CreateDir { root: Root::Inbox, folder: Some("a".to_string()) }
    );
    assert_eq!(
        steps[7].op,
        FileOp::CreateDir { root: Root::Cleaned, folder: Some("b".to_string()) }
    );
    assert_eq!(
        steps[8].op,
        FileOp::Write { file: temp(1, "tmp"), content: Content::Message }
    );
    assert_eq!(
        steps[9].op,
        FileOp::Write { file: temp(1, "cleaned.tmp"), content: Content::CleanedCopy }
    );
    assert_eq!(
        steps[10].op,
        FileOp::Rename { from: temp(1, "tmp"), to: path(Root::Inbox, Some("b"), &name) }
    );
    assert_eq!(
        steps[10].undo,
        vec![
            temp(1, "tmp"),
            temp(1, "cleaned.tmp"),
            path(Root::Inbox, Some("a"), &name),
            path(Root::Cleaned, Some("a"), &name),
        ]
    );
    assert_eq!(
        steps[11].undo,
        vec![
            temp(1, "cleaned.tmp"),
            path(Root::Inbox, Some("b"), &name),
            path(Root::Inbox, Some("a"), &name),
            path(Root::Cleaned, Some("a"), &name),
        ]
    );
}

#[test]
fn failed_moves_leave_nothing_behind() {
    let mut config = test_config();
    config.recipient_domains = vec!["x.test".to_string()];
    let recipients = ["b@x.test".to_string(), "a@x.test".to_string()];
    let plan = plan_delivery(&config, "s", &recipients, b"x", &mut IdSource::new());
    let (content, cleaned, job) = stored(plan);
    let steps = job.steps();
    for fail_at in [4, 5, 10, 11] {
        let other = path(Root::Inbox, Some("a"), "other.eml");
        let mut files = vec![(other.clone(), content.clone())];
        assert!(!run(&mut files, &steps, &content, &cleaned, fail_at));
        assert_eq!(files, vec![(other, content.clone())]);
    }
}

#[test]
fn directories_are_prepared_first() {
    let steps = preparation_steps();
    let ops: Vec<FileOp> = steps.into_iter().map(|step| step.op).collect();
    let create = |root: Root| FileOp::CreateDir { root, folder: None };
    assert_eq!(
        ops,
        vec![create(Root::Inbox), create(Root::Cleaned), create(Root::Temp)]
    );
}

#[test]
fn multipart_copies_take_a_number_before_the_delivery() {
    let data = b"Content-Type: multipart/mixed; boundary=b\r\n\r\n--b\r\n\r\none\r\n--b\r\n\r\ntwo\r\n--b--\r\n";
    let mut ids = IdSource { next: 41 };
    let plan = plan_delivery(&test_config(), "s", &["r".to_string()], data, &mut ids);
    let (_, cleaned, job) = stored(plan);
    assert!(String::from_utf8(cleaned).unwrap().contains("smtp-receiver-cleaned-41"));
    assert_eq!(job.delivery_id, 42);
    assert_eq!(ids.next, 43);
}

#[test]
fn envelope_is_read_back() {
    let recipients = ["<a@x.test>".to_string(), "<b@y.test>".to_string()];
    let data = b"Subject: s\r\n\r\nbody\r\n\r\nmore";
    let content = message_content("<s\u{e9}@z.test>", &recipients, data);
    assert_eq!(
        content,
        b"X-SMTP-Receiver-Envelope-From: <s\xc3\xa9@z.test>\r\nX-SMTP-Receiver-Envelope-To: <a@x.test>\r\nX-SMTP-Receiver-Envelope-To: <b@y.test>\r\n\r\nSubject: s\r\n\r\nbody\r\n\r\nmore"
    );
    let (headers, body) = split_headers_body(&content);
    assert_eq!(body, data);
    let headers = parse_headers(headers);
    let pair = |name: &str, value: &str| (name.to_string(), value.to_string());
    assert_eq!(
        headers,
        vec![
            pair("X-SMTP-Receiver-Envelope-From", "<s\u{e9}@z.test>"),
            pair("X-SMTP-Receiver-Envelope-To", "<a@x.test>"),
            pair("X-SMTP-Receiver-Envelope-To", "<b@y.test>"),
        ]
    );
}

#[test]
fn files_have_paths_in_the_configured_directories() {
    let mut config = test_config();
    config.inbox_dir = "/mail/in".to_string();
    let file = path(Root::Inbox, Some("udo"), "a.eml");
    assert_eq!(path_of(&config, &file), "/mail/in/udo/a.eml");
    assert_eq!(path_of(&config, &path(Root::Cleaned, None, "a.eml")), "inbox-cleaned/a.eml");
    assert_eq!(path_of(&config, &path(Root::Temp, None, "a.tmp")), "tmp/a.tmp");
    assert_eq!(directory_of(&config, Root::Inbox, &None), "/mail/in");
    assert_eq!(
        directory_of(&config, Root::Cleaned, &Some("udo".to_string())),
        "inbox-cleaned/udo"
    );
}

#[test]
fn rules_decide_before_anything_is_built() {
    let mut config = test_config();
    let recipients = ["b@x.test".to_string(), "a@x.test".to_string()];
    let targets = |decision: DeliveryDecision| match decision {
        DeliveryDecision::Store(targets) => targets,
        other => panic!("expected a stored message, got {other:?}"),
    };
    assert_eq!(targets(decide_delivery(&config, &recipients, b"x")), vec![None]);
    config.recipient_domains = vec!["x.test".to_string()];
    assert_eq!(
        targets(decide_delivery(&config, &recipients, b"x")),
        vec![Some("a".to_string()), Some("b".to_string())]
    );
    config.recipient_domains = vec!["y.test".to_string()];
    assert!(matches!(
        decide_delivery(&config, &recipients, b"x"),
        DeliveryDecision::IgnoreNoMatchingRecipient
    ));
    config.auth_results.mode = AuthResultsMode::Require;
    assert!(matches!(
        decide_delivery(&config, &recipients, b"x"),
        DeliveryDecision::IgnoreAuthResults
    ));
}
