use smtp_receiver::headers::{
    boundary_parameter, filter_headers, has_smtp_receiver_envelope, header_value,
    is_attachment_like, media_type, minimal_attachment_headers, parameter_value, parse_header_text,
    parse_headers, remove_header, should_keep_header, trim_quotes, write_headers,
};

fn pairs(list: &[(&str, &str)]) -> Vec<(String, String)> {
    list.iter().map(|(n, v)| (n.to_string(), v.to_string())).collect()
}

#[test]
fn headers_are_read_with_their_continuations() {
    let headers = parse_header_text(
        " lost\r\nSubject: one\r\n  two  \r\n\tthree\nno colon\n: no name\nA :b:c\r\n\r\nLast:",
    );
    assert_eq!(
        headers,
        pairs(&[("Subject", "one two three"), ("A", "b:c"), ("Last", "")])
    );
    assert_eq!(
        parse_headers(b"X: \xff\r\n"),
        pairs(&[("X", "\u{fffd}")])
    );
    assert!(parse_headers(b"").is_empty());
}

#[test]
fn tracking_headers_are_stripped() {
    for name in ["X-Received", "x-smtp-anything", "X-SMTPX", "Subject", "XY", "Received", "arc"] {
        assert!(should_keep_header(name), "{name}");
    }
    for name in ["X-Spam", "x-", "ARC-Seal", "arc-", "DKIM-Signature", "dkimx", "X-Received-By"] {
        assert!(!should_keep_header(name), "{name}");
    }
    let headers = pairs(&[("X-A", "1"), ("B", "2"), ("Dkim", "3"), ("b", "4")]);
    assert_eq!(filter_headers(&headers), pairs(&[("B", "2"), ("b", "4")]));
}

#[test]
fn headers_are_removed_found_and_written() {
    let mut headers = pairs(&[("A", "1"), ("b", "2"), ("a", "3"), ("X-Q", "4")]);
    assert_eq!(header_value(&headers, "A"), Some("1"));
    assert_eq!(header_value(&headers, "B"), Some("2"));
    assert_eq!(header_value(&headers, "c"), None);
    let mut output = b"> ".to_vec();
    write_headers(&mut output, &headers);
    assert_eq!(output, b"> A: 1\r\nb: 2\r\na: 3\r\n");
    remove_header(&mut headers, "a");
    assert_eq!(headers, pairs(&[("b", "2"), ("X-Q", "4")]));
    assert!(has_smtp_receiver_envelope(&pairs(&[("a", ""), ("x-SMTP-Receiver-Q", "")])));
    assert!(!has_smtp_receiver_envelope(&pairs(&[("x-SMTP-Receive", "")])));
}

#[test]
fn content_types_have_parameters() {
    assert_eq!(media_type(" Text/HTML ; charset=x"), "text/html");
    assert_eq!(media_type(""), "");
    assert_eq!(boundary_parameter("a/b; x=1; Boundary = \"q;r\""), Some("\"q".to_string()));
    assert_eq!(boundary_parameter("a/b; boundary=\"q\""), Some("q".to_string()));
    assert_eq!(boundary_parameter("boundary=q"), None);
    assert_eq!(parameter_value("a; n=; n=2", "n"), Some(String::new()));
    assert_eq!(parameter_value("a; n; n=2=3", "N"), Some("2=3".to_string()));
    assert_eq!(trim_quotes("\"a\""), "a");
    assert_eq!(trim_quotes("\"a"), "\"a");
    assert_eq!(trim_quotes("\""), "\"");
    assert_eq!(trim_quotes("\"\""), "");
}

#[test]
fn attachments_are_recognized() {
    let disposition = |value: &str| pairs(&[("Content-Disposition", value)]);
    assert!(is_attachment_like(&disposition("ATTACHMENT"), "text/plain"));
    assert!(is_attachment_like(&disposition("inline; FileName=x"), "text/plain"));
    assert!(!is_attachment_like(&disposition("inline"), "text/plain"));
    assert!(is_attachment_like(&pairs(&[("Content-Type", "text/plain; Name=x")]), "text/plain"));
    assert!(is_attachment_like(&[], "image/png"));
    assert!(is_attachment_like(&[], "multipart/mixed"));
    assert!(!is_attachment_like(&[], "text/html"));
    assert!(!is_attachment_like(&[], "message/rfc822"));
    let headers = pairs(&[
        ("content-id", "<1>"),
        ("X-Other", "y"),
        ("CONTENT-TYPE", "a/b"),
        ("Content-Type", "c/d"),
    ]);
    assert_eq!(
        minimal_attachment_headers(&headers),
        pairs(&[("Content-Type", "a/b"), ("Content-ID", "<1>")])
    );
}

#[test]
fn written_headers_are_read_back() {
    let headers = pairs(&[("Subject", "a: b"), ("X-Received", "\u{e9}"), ("To", "")]);
    let mut output = Vec::new();
    write_headers(&mut output, &headers);
    assert_eq!(parse_headers(&output), headers);
}
