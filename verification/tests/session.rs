use smtp_receiver::auth::{AuthResultsConfig, AuthResultsMatchMode, AuthResultsMode};
use smtp_receiver::config::{AppState, Config};
use smtp_receiver::connection::Connection;
use smtp_receiver::delivery::{plan_delivery, DeliveryPlan};
use smtp_receiver::files::{Content, FileOp, FilePath, Root};
use smtp_receiver::ids::IdSource;
use smtp_receiver::limiter::RateLimitDecision;
use smtp_receiver::session::{
    parse_command, parse_command_line, Action, Command, Event, Reply, Session,
};

fn test_config(max_message_bytes: usize, global: usize, sender: usize) -> Config {
    Config {
        listen_addr: "127.0.0.1:0".to_string(),
        inbox_dir: "inbox".to_string(),
        cleaned_inbox_dir: "inbox-cleaned".to_string(),
        temp_dir: "tmp".to_string(),
        max_message_bytes,
        global_rate_per_minute: global,
        sender_rate_per_minute: sender,
        max_connections: 100,
        command_timeout_seconds: 300,
        recipient_domains: Vec::new(),
        auth_results: AuthResultsConfig {
            mode: AuthResultsMode::Off,
            trusted_servers: Vec::new(),
            required_results: Vec::new(),
            match_mode: AuthResultsMatchMode::Any,
        },
    }
}

/// A server whose files are kept in memory.
struct Server {
    state: AppState,
    connection: Connection,
    ids: IdSource,
    files: Vec<(FilePath, Vec<u8>)>,
    input: Vec<u8>,
    open: bool,
}

impl Server {
    fn start(config: Config) -> (Server, String) {
        let (connection, reply) = Connection::start(config.max_message_bytes);
        let server = Server {
            state: AppState::new(config),
            connection,
            ids: IdSource::new(),
            files: Vec::new(),
            input: Vec::new(),
            open: true,
        };
        (server, reply.text().to_string())
    }

    /// Sends bytes and returns what the server answers.
    fn send(&mut self, text: &str) -> String {
        self.input.extend_from_slice(text.as_bytes());
        let mut output = String::new();
        while self.open && !self.input.is_empty() {
            let received = self.connection.receive(&self.input);
            self.input.drain(..received.consumed);
            let mut next = received.action;
            while let Some(action) = next {
                next = self.perform(action, &mut output);
            }
        }
        output
    }

    fn perform(&mut self, action: Action, output: &mut String) -> Option<Action> {
        match action {
            Action::Answer(reply) | Action::ReadData(reply) => {
                output.push_str(reply.text());
                None
            }
            Action::Dismiss(reply) => {
                output.push_str(reply.text());
                self.open = false;
                None
            }
            Action::End | Action::Abort => {
                self.open = false;
                None
            }
            Action::CheckRate(sender) => {
                let decision = self.state.limiter.check_and_record(&sender, 7);
                Some(self.connection.decide(sender, decision))
            }
            Action::Deliver {
                sender,
                recipients,
                data,
            } => {
                let plan =
                    plan_delivery(&self.state.config, &sender, &recipients, &data, &mut self.ids);
                if let DeliveryPlan::Store {
                    content,
                    cleaned,
                    job,
                } = plan
                {
                    for step in job.steps() {
                        match step.op {
                            FileOp::CreateDir { .. } => {}
                            FileOp::Write { file, content: Content::Message } => {
                                self.files.push((file, content.clone()))
                            }
                            FileOp::Write { file, content: Content::CleanedCopy } => {
                                self.files.push((file, cleaned.clone()))
                            }
                            FileOp::Rename { from, to } => {
                                let at = self.files.iter().position(|(f, _)| *f == from).unwrap();
                                self.files[at].0 = to;
                            }
                        }
                    }
                }
                Some(self.connection.finish_delivery(true))
            }
        }
    }

    fn files_in(&self, root: Root) -> Vec<&[u8]> {
        let in_root = |file: &&(FilePath, Vec<u8>)| file.0.root == root;
        self.files.iter().filter(in_root).map(|(_, bytes)| bytes.as_slice()).collect()
    }
}

#[test]
fn smtp_session_delivers_complete_message_file() {
    let (mut server, greeting) = Server::start(test_config(4096, 10, 10));

    assert_eq!(greeting, "220 smtp-receiver ready\r\n");
    assert_eq!(
        server.send("EHLO local\r\n"),
        "250-smtp-receiver\r\n250-8BITMIME\r\n250 SIZE\r\n"
    );
    assert_eq!(
        server.send("MAIL FROM:<sender@example.test>\r\n"),
        "250 sender accepted\r\n"
    );
    assert_eq!(
        server.send("RCPT TO:<inbox@example.test>\r\n"),
        "250 recipient accepted\r\n"
    );
    assert_eq!(server.send("DATA\r\n"), "354 end with <CRLF>.<CRLF>\r\n");
    assert_eq!(
        server.send("Subject: integration\r\n\r\nhello\r\n.\r\n"),
        "250 message accepted\r\n"
    );

    let files = server.files_in(Root::Inbox);
    assert_eq!(files.len(), 1);
    let cleaned_files = server.files_in(Root::Cleaned);
    assert_eq!(cleaned_files.len(), 1);
    assert!(server.files_in(Root::Temp).is_empty());
    let content = files[0];
    assert!(content.starts_with(b"X-SMTP-Receiver-Envelope-From: <sender@example.test>\r\n"));
    assert!(content
        .windows(b"Subject: integration".len())
        .any(|window| window == b"Subject: integration"));
    let cleaned_content = String::from_utf8(cleaned_files[0].to_vec()).unwrap();
    assert!(cleaned_content.contains("Subject: integration"));
    assert!(cleaned_content.contains("hello"));
}

#[test]
fn smtp_session_does_not_expose_partial_message_in_inbox() {
    let (mut server, _) = Server::start(test_config(4096, 10, 10));

    server.send("MAIL FROM:<sender@example.test>\r\n");
    server.send("RCPT TO:<inbox@example.test>\r\n");
    server.send("DATA\r\n");
    server.send("Subject: partial\r\n\r\nbody without terminator\r\n");

    assert!(server.files_in(Root::Inbox).is_empty());
    assert!(server.files_in(Root::Cleaned).is_empty());

    assert_eq!(server.send(".\r\n"), "250 message accepted\r\n");
    assert_eq!(server.files_in(Root::Inbox).len(), 1);
    assert_eq!(server.files_in(Root::Cleaned).len(), 1);
}

#[test]
fn smtp_session_enforces_rate_limits_without_writing_message() {
    let (mut server, _) = Server::start(test_config(4096, 1, 10));

    assert_eq!(
        server.send("MAIL FROM:<one@example.test>\r\n"),
        "250 sender accepted\r\n"
    );
    assert_eq!(
        server.send("MAIL FROM:<two@example.test>\r\n"),
        "451 global rate limit exceeded; try again later\r\n"
    );
    assert_eq!(
        server.send("DATA\r\n"),
        "503 MAIL FROM and RCPT TO required first\r\n"
    );
    assert!(server.files_in(Root::Inbox).is_empty());
}

#[test]
fn smtp_session_enforces_sender_rate_limit() {
    let (mut server, _) = Server::start(test_config(4096, 10, 1));

    assert_eq!(
        server.send("MAIL FROM:<sender@example.test>\r\n"),
        "250 sender accepted\r\n"
    );
    assert_eq!(
        server.send("MAIL FROM:<sender@example.test>\r\n"),
        "451 sender rate limit exceeded; try again later\r\n"
    );
}

#[test]
fn session_answers_every_command() {
    let (mut server, _) = Server::start(test_config(20, 10, 10));
    assert_eq!(server.send("helo x\n"), "250-smtp-receiver\r\n250-8BITMIME\r\n250 SIZE\r\n");
    assert_eq!(server.send("HELO\r\n"), "502 command not implemented\r\n");
    assert_eq!(server.send("rcpt to:<a>\r\n"), "503 MAIL FROM required first\r\n");
    assert_eq!(server.send("NoOp\r\n"), "250 ok\r\n");
    assert_eq!(server.send("NOOP \r\n"), "502 command not implemented\r\n");
    assert_eq!(server.send("\r\n"), "502 command not implemented\r\n");
    assert_eq!(server.send("mail from:<a>\r\n"), "250 sender accepted\r\n");
    assert_eq!(server.send("DATA\r\n"), "503 MAIL FROM and RCPT TO required first\r\n");
    assert_eq!(server.send("RCPT TO:<b>\r\n"), "250 recipient accepted\r\n");
    assert_eq!(server.send("RSET\r\n"), "250 reset ok\r\n");
    assert_eq!(server.send("RCPT TO:<b>\r\n"), "503 MAIL FROM required first\r\n");
    assert_eq!(server.send("\u{e9}QUIT\r\n"), "502 command not implemented\r\n");
    assert_eq!(server.send("quit\r\n"), "221 bye\r\n");
    assert!(!server.open);
}

#[test]
fn session_takes_pipelined_commands_one_by_one() {
    let (mut server, _) = Server::start(test_config(4096, 10, 10));
    assert_eq!(
        server.send("MAIL FROM:<a>\r\nRCPT TO:<b>\r\nDATA\r\nS: x\r\n\r\nNOOP\r\n.\r\nQUIT\r\n"),
        "250 sender accepted\r\n250 recipient accepted\r\n354 end with <CRLF>.<CRLF>\r\n250 message accepted\r\n221 bye\r\n"
    );
    assert!(server.files_in(Root::Inbox)[0].ends_with(b"S: x\r\n\r\nNOOP\r\n"));
}

#[test]
fn session_refuses_what_is_too_large() {
    let (mut server, _) = Server::start(test_config(4, 10, 10));
    server.send("MAIL FROM:<a>\r\nRCPT TO:<b>\r\nDATA\r\n");
    assert_eq!(
        server.send("12345\r\n.\r\n"),
        "552 message exceeds configured size limit\r\n"
    );
    assert!(!server.open);
    let (mut server, _) = Server::start(test_config(4, 10, 10));
    let long = "x".repeat(8192);
    assert_eq!(server.send(&long), "");
    assert_eq!(server.send("\n"), "500 command line too long\r\n");
    assert!(!server.open);
    let (mut server, _) = Server::start(test_config(4, 10, 10));
    assert_eq!(
        server.send(&format!("{}\r\n", &long[..8190])),
        "502 command not implemented\r\n"
    );
}

#[test]
fn connection_times_out_and_closes() {
    let (mut connection, _) = Connection::start(100);
    assert!(matches!(connection.time_out(), Action::Dismiss(Reply::IdleTimeout)));
    let (mut connection, _) = Connection::start(100);
    assert!(matches!(connection.receive(b"").action, Some(Action::End)));
    let (mut connection, _) = Connection::start(100);
    assert!(connection.receive(b"QUIT").action.is_none());
    assert!(matches!(
        connection.receive(b"").action,
        Some(Action::Dismiss(Reply::Bye))
    ));
    let (mut connection, _) = Connection::start(100);
    connection.decide("<a>".to_string(), RateLimitDecision::Accepted);
    connection.receive(b"RCPT TO:<b>\n");
    assert!(matches!(
        connection.receive(b"data\n").action,
        Some(Action::ReadData(Reply::StartData))
    ));
    assert!(connection.receive(b"x\n").action.is_none());
    assert!(matches!(connection.receive(b"").action, Some(Action::Abort)));
    let (mut connection, _) = Connection::start(100);
    connection.decide("<a>".to_string(), RateLimitDecision::Accepted);
    connection.receive(b"RCPT TO:<b>\n");
    connection.receive(b"data\n");
    assert!(matches!(connection.time_out(), Action::Dismiss(Reply::DataTimeout)));
    let (mut connection, _) = Connection::start(100);
    assert!(matches!(
        connection.finish_delivery(false),
        Action::Answer(Reply::StorageError)
    ));
}

#[test]
fn commands_are_parsed_in_any_case() {
    assert_eq!(parse_command("Mail From: <A@b> "), Command::Mail("<A@b>".to_string()));
    assert_eq!(parse_command("MAIL FROM:"), Command::Mail(String::new()));
    assert_eq!(parse_command("rcpt to:\t<C@d>"), Command::Recipient("<C@d>".to_string()));
    assert_eq!(parse_command("ehlo "), Command::Hello);
    assert_eq!(parse_command("EHLO"), Command::Unknown);
    assert_eq!(parse_command("data"), Command::Data);
    assert_eq!(parse_command(" DATA"), Command::Unknown);
    assert_eq!(parse_command("rset"), Command::Reset);
    assert_eq!(parse_command("MAIL FROM:\u{e9}"), Command::Mail("\u{e9}".to_string()));
    assert_eq!(
        parse_command_line(b"MAIL FROM:<\xff>\r\n"),
        Command::Mail("<\u{fffd}>".to_string())
    );
    assert_eq!(parse_command_line(b"QUIT\n"), Command::Quit);
    assert_eq!(parse_command_line(b"QUIT\r"), Command::Unknown);
    assert_eq!(parse_command_line(b"noop"), Command::Noop);
}

#[test]
fn accepted_sender_begins_a_new_message() {
    let (mut session, _) = Session::start();
    let decide = |session: &mut Session, sender: &str, decision: RateLimitDecision| {
        session.handle(Event::RateDecided {
            sender: sender.to_string(),
            decision,
        })
    };
    decide(&mut session, "a", RateLimitDecision::Accepted);
    session.handle_command(Command::Recipient("r".to_string()));
    // A refused sender leaves the message as it was.
    let action = decide(&mut session, "b", RateLimitDecision::GlobalLimited);
    assert!(matches!(action, Action::Answer(Reply::GlobalLimited)));
    assert!(matches!(
        session.handle_command(Command::Data),
        Action::ReadData(Reply::StartData)
    ));
    // An accepted one forgets the recipients.
    decide(&mut session, "c", RateLimitDecision::Accepted);
    assert!(matches!(
        session.handle_command(Command::Data),
        Action::Answer(Reply::EnvelopeRequired)
    ));
    session.handle_command(Command::Recipient("s".to_string()));
    session.handle_command(Command::Recipient("t".to_string()));
    match session.handle(Event::DataRead(b"x".to_vec())) {
        Action::Deliver {
            sender,
            recipients,
            data,
        } => {
            assert_eq!(sender, "c");
            assert_eq!(recipients, vec!["s", "t"]);
            assert_eq!(data, b"x");
        }
        other => panic!("unexpected {other:?}"),
    }
    assert!(matches!(
        session.handle_command(Command::Data),
        Action::Answer(Reply::EnvelopeRequired)
    ));
}

#[test]
fn connection_takes_any_size_limit() {
    for max in [usize::MAX, usize::MAX - 3, usize::MAX - 4] {
        let (mut server, _) = Server::start(test_config(max, 10, 10));
        assert_eq!(server.send("NOOP\r\n"), "250 ok\r\n");
        server.send("MAIL FROM:<a>\r\nRCPT TO:<b>\r\nDATA\r\n");
        assert_eq!(server.send("S: x\r\n\r\nbody\r\n.\r\n"), "250 message accepted\r\n");
        assert_eq!(server.files_in(Root::Inbox).len(), 1);
    }
}
