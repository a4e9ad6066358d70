use smtp_receiver::clean::clean_message_for_llm;
use smtp_receiver::ids::IdSource;
use smtp_receiver::mime::{parse_message_part, split_multipart_body};

fn cleaned(message: &[u8]) -> String {
    String::from_utf8(clean_message_for_llm(message, &mut IdSource::new())).unwrap()
}

#[test]
fn clean_message_strips_tracking_auth_headers_html_and_keeps_plain_text() {
    let message = b"X-SMTP-Receiver-Envelope-From: <sender@example.test>\r\n\r\nX-Received: ok\r\nX-Spam-Score: 100\r\nARC-Seal: secret\r\nDKIM-Signature: signature\r\nFrom: Sender <sender@example.test>\r\nSubject: Clean me\r\nMIME-Version: 1.0\r\nContent-Type: multipart/alternative; boundary=alt\r\n\r\n--alt\r\nContent-Type: text/plain; charset=utf-8\r\nContent-Transfer-Encoding: quoted-printable\r\n\r\nHello=20plain=20text.\r\n--alt\r\nContent-Type: text/html; charset=utf-8\r\n\r\n<html><body>expensive html</body></html>\r\n--alt--\r\n";

    let cleaned = cleaned(message);

    assert!(cleaned.contains("X-SMTP-Receiver-Envelope-From: <sender@example.test>"));
    assert!(cleaned.contains("X-Received: ok"));
    assert!(cleaned.contains("From: Sender <sender@example.test>"));
    assert!(cleaned.contains("Subject: Clean me"));
    assert!(cleaned.contains("Hello plain text."));
    assert!(!cleaned.contains("X-Spam-Score"));
    assert!(!cleaned.contains("ARC-Seal"));
    assert!(!cleaned.contains("DKIM-Signature"));
    assert!(!cleaned.contains("expensive html"));
    assert!(!cleaned.contains("multipart/alternative"));
}

#[test]
fn clean_message_keeps_attachments_with_minimal_headers() {
    let message = b"Subject: Attachment\r\nMIME-Version: 1.0\r\nContent-Type: multipart/mixed; boundary=mix\r\n\r\n--mix\r\nContent-Type: text/plain\r\n\r\nSee attached.\r\n--mix\r\nContent-Type: application/pdf; name=doc.pdf\r\nContent-Disposition: attachment; filename=doc.pdf\r\nContent-Transfer-Encoding: base64\r\nX-Attachment-Tracker: remove-me\r\n\r\nJVBERi0xLjQK\r\n--mix\r\nContent-Type: application/octet-stream\r\nContent-Transfer-Encoding: base64\r\n\r\nQUJDRA==\r\n--mix--\r\n";

    let cleaned = cleaned(message);

    assert!(cleaned.contains("Content-Type: multipart/mixed"));
    assert!(cleaned.contains("See attached."));
    assert!(cleaned.contains("Content-Type: application/pdf; name=doc.pdf"));
    assert!(cleaned.contains("Content-Disposition: attachment; filename=doc.pdf"));
    assert!(cleaned.contains("Content-Transfer-Encoding: base64"));
    assert!(cleaned.contains("JVBERi0xLjQK"));
    assert!(cleaned.contains("Content-Type: application/octet-stream"));
    assert!(cleaned.contains("QUJDRA=="));
    assert!(!cleaned.contains("X-Attachment-Tracker"));
}

#[test]
fn clean_message_of_one_text_has_no_parts() {
    assert_eq!(
        cleaned(b"Subject: s\r\nX-Spam: y\r\nContent-Type: text/plain; charset=latin1\r\nMIME-Version: 1.0\r\n\r\nhi\r\n"),
        "Subject: s\r\nContent-Type: text/plain; charset=utf-8\r\n\r\nhi\r\n"
    );
    assert_eq!(
        cleaned(b"Content-Type: text/html\r\n\r\n<p>"),
        "Content-Type: text/plain; charset=utf-8\r\n\r\n"
    );
    assert_eq!(cleaned(b""), "Content-Type: text/plain; charset=utf-8\r\n\r\n");
}

#[test]
fn clean_message_with_parts_has_a_numbered_boundary() {
    let mut ids = IdSource { next: 7 };
    let message = b"A: b\r\nContent-Type: image/png\r\n\r\nPNG";
    let output = String::from_utf8(clean_message_for_llm(message, &mut ids)).unwrap();
    assert_eq!(
        output,
        "A: b\r\nMIME-Version: 1.0\r\nContent-Type: multipart/mixed; boundary=\"smtp-receiver-cleaned-7\"\r\n\r\n--smtp-receiver-cleaned-7\r\nContent-Type: image/png\r\n\r\nPNG\r\n--smtp-receiver-cleaned-7--\r\n"
    );
    assert_eq!(ids.next, 8);
    clean_message_for_llm(b"Subject: x\r\n\r\ntext", &mut ids);
    assert_eq!(ids.next, 8);
}

#[test]
fn clean_message_keeps_the_envelope_in_front() {
    assert_eq!(
        cleaned(b"X-SMTP-Receiver-Envelope-From: <a>\r\nX-SMTP-Receiver-Envelope-To: <b>\r\n\r\nSubject: s\r\nX-Mailer: m\r\n\r\nbody"),
        "X-SMTP-Receiver-Envelope-From: <a>\r\nX-SMTP-Receiver-Envelope-To: <b>\r\nSubject: s\r\nContent-Type: text/plain; charset=utf-8\r\n\r\nbody"
    );
}

#[test]
fn clean_message_can_be_taken_apart_again() {
    let message = b"Subject: s\r\nContent-Type: multipart/mixed; boundary=m\r\n\r\n--m\r\nContent-Type: text/plain\r\n\r\nhello\r\nworld\r\n--m\r\nContent-Type: image/png\r\nContent-ID: <1>\r\n\r\nPNG\r\n--m--\r\n";
    let output = clean_message_for_llm(message, &mut IdSource { next: 3 });
    let part = parse_message_part(&output);
    assert_eq!(
        part.headers,
        vec![
            ("Subject".to_string(), "s".to_string()),
            ("MIME-Version".to_string(), "1.0".to_string()),
            (
                "Content-Type".to_string(),
                "multipart/mixed; boundary=\"smtp-receiver-cleaned-3\"".to_string()
            ),
        ]
    );
    let parts = split_multipart_body(part.body, "smtp-receiver-cleaned-3");
    assert_eq!(
        parts,
        vec![
            &b"Content-Type: text/plain; charset=utf-8\r\n\r\nhello\r\nworld"[..],
            &b"Content-Type: image/png\r\nContent-ID: <1>\r\n\r\nPNG"[..],
        ]
    );
    // A copy of the copy keeps the same parts.
    let again = clean_message_for_llm(&output, &mut IdSource { next: 3 });
    assert_eq!(again, output);
}

#[test]
fn cleaning_plain_text_twice_changes_nothing() {
    let messages: [&[u8]; 5] = [
        b"Subject: s\r\nX-Spam: y\r\n\r\nhi\r\n\r\nthere",
        b"A: \r\nB:c\r\nContent-Type: text/html\r\n\r\n<p>",
        b"Subject: one\r\n two\r\n\r\n\xff",
        b"Content-Disposition: inline\r\nContent-Transfer-Encoding: base64\r\n\r\naGk=",
        b"",
    ];
    for message in messages {
        let once = clean_message_for_llm(message, &mut IdSource::new());
        let twice = clean_message_for_llm(&once, &mut IdSource::new());
        assert_eq!(once, twice);
    }
    // A value that a continuation line leaves with a space at its end loses it.
    let once = clean_message_for_llm(b"A: b\r\n \r\n\r\nx", &mut IdSource::new());
    assert!(once.starts_with(b"A: b \r\n"));
    let twice = clean_message_for_llm(&once, &mut IdSource::new());
    assert!(twice.starts_with(b"A: b\r\n"));
}
