use smtp_receiver::routing::{
    collect_recipient_folders, domain_end, is_domain_byte, is_local_part_byte, is_safe_folder_name,
    local_part_start, recipient_folders, recipient_folders_for_message,
};

#[test]
fn recipient_folder_detection_uses_to_cc_bcc_and_exact_domains() {
    let domains = vec![
        "kautschuk.com".to_string(),
        "undenheim.kautschuk.com".to_string(),
    ];
    let folders = recipient_folders_for_message(
        &domains,
        &["<bcc@kautschuk.com>".to_string()],
        b"To: Udo <UDO@kautschuk.com>, bad@evil-kautschuk.com\r\nCc: team@undenheim.kautschuk.com\r\nBcc: hidden@kautschuk.com\r\n\r\nbody\r\n",
    );

    assert_eq!(folders, vec!["bcc", "hidden", "team", "udo"]);
}

#[test]
fn recipient_folder_detection_strips_plus_and_hash_detail_suffixes() {
    let domains = vec!["undenheim.kautschuk.com".to_string()];
    let folders = recipient_folders_for_message(
        &domains,
        &[
            "<orders#protocol@undenheim.kautschuk.com>".to_string(),
            "<udo+scanner@undenheim.kautschuk.com>".to_string(),
        ],
        b"To: orders#other@undenheim.kautschuk.com\r\n\r\nbody\r\n",
    );

    assert_eq!(folders, vec!["orders", "udo"]);
}

#[test]
fn recipient_folders_are_empty_without_domains() {
    let folders = recipient_folders_for_message(
        &[],
        &["<a@example.test>".to_string()],
        b"To: b@example.test\r\n\r\n",
    );
    assert!(folders.is_empty());
}

#[test]
fn recipient_folders_are_sorted_and_unique() {
    let domains = vec!["x.test".to_string()];
    let headers = vec![
        ("tO".to_string(), "zoe@x.test, B@X.TEST".to_string()),
        ("Subject".to_string(), "other@x.test".to_string()),
        ("CC".to_string(), "b+1@x.test a@y.test".to_string()),
    ];
    let folders = recipient_folders(&domains, &["a@x.test".to_string()], &headers);
    assert_eq!(folders, vec!["a", "b", "zoe"]);
}

#[test]
fn unsafe_folder_names_are_left_out() {
    let domains = vec!["x.test".to_string()];
    let mut folders: Vec<String> = Vec::new();
    collect_recipient_folders("..@x.test .@x.test a%b@x.test +tag@x.test", &domains, &mut folders);
    assert!(folders.is_empty());
    // The plus sign is looked for first, so the hash sign stays and is refused.
    collect_recipient_folders("a#b+c@x.test", &domains, &mut folders);
    assert!(folders.is_empty());
    collect_recipient_folders("a.b_c-d@x.test", &domains, &mut folders);
    assert_eq!(folders, vec!["a.b_c-d"]);
    // A domain that only begins or ends like a configured one does not match.
    collect_recipient_folders("q@x.test.org q@sub.x.test q@x.test.", &domains, &mut folders);
    assert_eq!(folders, vec!["a.b_c-d"]);
}

#[test]
fn addresses_are_found_by_their_bytes() {
    assert_eq!(local_part_start("<a.b@x>", 4), 1);
    assert_eq!(local_part_start("ab", 0), 0);
    assert_eq!(local_part_start("\u{e9}ab@x", 4), 2);
    assert_eq!(domain_end("a@x.y-z>", 2), 7);
    assert_eq!(domain_end("a@", 2), 2);
    assert_eq!(domain_end("a@", 20), 20);
    for byte in 0..=255u8 {
        let c = byte as char;
        let alphanumeric = byte.is_ascii_alphanumeric();
        assert_eq!(
            is_local_part_byte(byte),
            alphanumeric || "._%+#-".contains(c),
            "{byte}"
        );
        assert_eq!(is_domain_byte(byte), alphanumeric || ".-".contains(c), "{byte}");
    }
}

#[test]
fn folder_names_are_checked() {
    assert!(is_safe_folder_name("a"));
    assert!(is_safe_folder_name("..."));
    assert!(is_safe_folder_name("A-z_0.9"));
    assert!(!is_safe_folder_name(""));
    assert!(!is_safe_folder_name("."));
    assert!(!is_safe_folder_name(".."));
    assert!(!is_safe_folder_name("a/b"));
    assert!(!is_safe_folder_name("\u{e9}"));
    assert!(!is_safe_folder_name("a b"));
}
