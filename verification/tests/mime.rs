use smtp_receiver::mime::{
    collect_llm_parts, decode_text_body, decoded_or_body, parse_message_part, split_multipart_body,
    transfer_encoding, TransferEncoding,
};

fn encoded(encoding: &str) -> Vec<(String, String)> {
    vec![("Content-Transfer-Encoding".to_string(), encoding.to_string())]
}

#[test]
fn multipart_bodies_are_split_at_their_boundary() {
    let body = b"preamble\r\n--b\r\none\r\n--b \r\nnot\r\n--b\ntwo\n--b--\r\nepilogue\r\n--b\r\nthree";
    let parts = split_multipart_body(body, "b");
    assert_eq!(parts, vec![&b"one\r\n--b \r\nnot"[..], &b"two"[..]]);
    assert!(split_multipart_body(b"no parts", "b").is_empty());
    assert!(split_multipart_body(b"", "b").is_empty());
}

#[test]
fn parts_without_an_end_are_left_out() {
    let parts = split_multipart_body(b"--b\r\none\r\n--b\r\ntwo\r\n", "b");
    assert_eq!(parts, vec![&b"one"[..]]);
    assert_eq!(split_multipart_body(b"--b\r\n--b--", "b"), Vec::<&[u8]>::new());
    assert_eq!(split_multipart_body(b"--b\n\n--b--", "b"), vec![&b""[..]]);
}

#[test]
fn text_is_decoded() {
    assert_eq!(decode_text_body(&encoded("Base64"), b"aGV\r\n sbG8="), b"hello");
    assert_eq!(decode_text_body(&encoded("base64"), b"not base64!"), b"not base64!");
    assert_eq!(decode_text_body(&encoded("QUOTED-printable"), b"a=3Db=\r\nc"), b"a=bc");
    assert_eq!(decode_text_body(&encoded("8bit"), b"a=3Db"), b"a=3Db");
    assert_eq!(decode_text_body(&[], b"\xff"), "\u{fffd}".as_bytes());
    assert_eq!(transfer_encoding(&encoded("BASE64")), TransferEncoding::Base64);
    assert_eq!(transfer_encoding(&encoded("base64x")), TransferEncoding::Identity);
    assert_eq!(transfer_encoding(&[]), TransferEncoding::Identity);
    assert_eq!(decoded_or_body(None, b"body"), b"body");
    assert_eq!(decoded_or_body(Some(b"x".to_vec()), b"body"), b"x");
}

#[test]
fn nested_parts_are_kept_in_order() {
    let message = b"Content-Type: multipart/mixed; boundary=\"o\"\r\n\r\n--o\r\nContent-Type: multipart/alternative; boundary=i\r\n\r\n--i\r\nContent-Type: text/plain\r\n\r\ntext\r\n--i\r\nContent-Type: text/html\r\n\r\n<p>\r\n--i--\r\n--o\r\nContent-Type: image/png\r\nContent-ID: <c>\r\n\r\nPNG\x00\r\n--o--\r\n";
    let part = parse_message_part(message);
    let kept = collect_llm_parts(&part);
    assert_eq!(kept.len(), 2);
    assert_eq!(kept[0].body, b"text");
    assert!(!kept[0].is_attachment);
    assert_eq!(kept[1].body, b"PNG\x00");
    assert!(kept[1].is_attachment);
    assert_eq!(
        kept[1].headers,
        vec![
            ("Content-Type".to_string(), "image/png".to_string()),
            ("Content-ID".to_string(), "<c>".to_string()),
        ]
    );
}

#[test]
fn other_text_is_dropped() {
    let html = parse_message_part(b"Content-Type: text/html\r\n\r\n<p>");
    assert!(collect_llm_parts(&html).is_empty());
    let mail = parse_message_part(b"Content-Type: message/rfc822\r\n\r\nSubject: x");
    assert!(collect_llm_parts(&mail).is_empty());
    // Without a boundary a multipart body cannot be split and is kept as it is.
    let whole = parse_message_part(b"Content-Type: multipart/mixed\r\n\r\n--x");
    let kept = collect_llm_parts(&whole);
    assert_eq!(kept.len(), 1);
    assert!(kept[0].is_attachment);
}
