use smtp_receiver::data::{
    read_line_limited, DataReader, LineStep, ReadDataError, MAX_COMMAND_LINE_BYTES,
};

/// Reads the whole input in pieces of at most `size` bytes. What is left comes with
/// the result.
fn read_all(input: &[u8], max: usize, size: usize) -> (Result<Vec<u8>, ReadDataError>, Vec<u8>) {
    let mut reader = DataReader::new(max);
    let mut rest = input;
    loop {
        let available = &rest[..rest.len().min(size)];
        let step = reader.read_data(available);
        rest = &rest[step.consumed..];
        if let Some(outcome) = step.outcome {
            return (outcome, rest.to_vec());
        }
    }
}

#[test]
fn read_data_unstuffs_dots_and_stops_at_terminator() {
    let input = b"Subject: test\r\n..starts with dot\r\n.\r\nignored\r\n";

    let (data, rest) = read_all(input, 1024, usize::MAX);
    assert_eq!(data.unwrap(), b"Subject: test\r\n.starts with dot\r\n");
    assert_eq!(rest, b"ignored\r\n");
}

#[test]
fn read_data_rejects_oversized_messages() {
    let input = b"123456\r\n.\r\n";

    assert!(matches!(
        read_all(input, 5, usize::MAX).0,
        Err(ReadDataError::TooLarge)
    ));
}

#[test]
fn read_data_does_not_depend_on_the_pieces() {
    let inputs: [&[u8]; 8] = [
        b"Subject: test\r\n..starts with dot\r\n.\r\nignored\r\n",
        b"..\r\n.x\r\n\r\n.\n",
        b".\r\n",
        b"",
        b"no end\r\n",
        b"no end of the line",
        b"a\n.",
        b"123456\r\n.\r\n",
    ];
    for input in inputs {
        for max in [0usize, 3, 5, 8, 9, 1024] {
            let (whole, rest) = read_all(input, max, usize::MAX);
            for size in 1..8 {
                let (pieces, other_rest) = read_all(input, max, size);
                assert_eq!(whole, pieces, "{input:?} {max} {size}");
                if whole.is_ok() {
                    assert_eq!(rest, other_rest);
                }
            }
        }
    }
}

#[test]
fn read_data_fills_the_message_exactly() {
    assert_eq!(read_all(b"12345\r\n.\r\n", 7, 2).0, Ok(b"12345\r\n".to_vec()));
    assert_eq!(read_all(b"12345\r\n.\r\n", 6, 2).0, Err(ReadDataError::TooLarge));
    assert_eq!(read_all(b"..\r\n.\r\n", 3, 9).0, Ok(b".\r\n".to_vec()));
    assert_eq!(read_all(b"...\r\n.\r\n", 4, 9).0, Ok(b"..\r\n".to_vec()));
    assert_eq!(read_all(b".\r\n", 0, 9).0, Ok(Vec::new()));
}

#[test]
fn read_data_ends_with_the_connection() {
    assert_eq!(read_all(b"", 10, 9).0, Err(ReadDataError::Closed));
    assert_eq!(read_all(b"line\r\n", 10, 9).0, Err(ReadDataError::Closed));
    assert_eq!(read_all(b"line", 10, 9).0, Err(ReadDataError::Closed));
    // What is there of a line at the end of the connection counts as a line.
    assert_eq!(read_all(b"line\r\n.", 10, 9).0, Ok(b"line\r\n".to_vec()));
    assert_eq!(read_all(b"line\n.\n", 10, 9).0, Ok(b"line\n".to_vec()));
}

#[test]
fn sent_messages_are_read_back() {
    for message in ["", "a\r\n", ".\r\n", "..\r\n.x\r\n\r\ny\n", "\n\n.\n"] {
        let mut sent = String::new();
        for line in message.split_inclusive('\n') {
            if line.starts_with('.') {
                sent.push('.');
            }
            sent.push_str(line);
        }
        sent.push_str(".\r\nQUIT\r\n");
        let (data, rest) = read_all(sent.as_bytes(), message.len(), 3);
        assert_eq!(data.unwrap(), message.as_bytes());
        assert_eq!(rest, b"QUIT\r\n");
        if !message.is_empty() {
            assert_eq!(
                read_all(sent.as_bytes(), message.len() - 1, 3).0,
                Err(ReadDataError::TooLarge)
            );
        }
    }
}

#[test]
fn lines_are_read_up_to_a_limit() {
    let mut line = Vec::new();
    assert_eq!(read_line_limited(&mut line, b"ab", 4), LineStep::More { consumed: 2 });
    assert_eq!(read_line_limited(&mut line, b"c\nd", 4), LineStep::Done { consumed: 2 });
    assert_eq!(line, b"abc\n");
    assert_eq!(read_line_limited(&mut line, b"e", 4), LineStep::TooLong);
    assert_eq!(line, b"abc\n");
    assert_eq!(read_line_limited(&mut line, b"", 0), LineStep::Done { consumed: 0 });
    assert_eq!(MAX_COMMAND_LINE_BYTES, 8 * 1024);
}
