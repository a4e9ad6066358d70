//! One client's session: what each command and each other event leads to.
use crate::bytes::{trim_line_ending, without_line_ending};
use crate::limiter::RateLimitDecision;
use crate::outside::{decode_lossy, utf8_lossy};
use crate::text::{
    begins_with, chars_of, optional_text, same_chars, starts_with, string_of, texts, to_upper, trim,
    trim_chars, upper,
};
use crate::utf8::{is_one_line, lemma_trim_stays_on_line};
use vstd::prelude::*;
use vstd::utf8::{decode_utf8, valid_utf8};

verus! {

// ---------------------------------------------------------------------------
// Replies
// ---------------------------------------------------------------------------
/// What the server answers.
#[derive(Clone, Copy, Debug, PartialEq, Eq, Structural)]
pub enum Reply {
    Ready,
    TooManyConnections,
    LineTooLong,
    IdleTimeout,
    Hello,
    SenderAccepted,
    GlobalLimited,
    SenderLimited,
    SenderRequired,
    RecipientAccepted,
    EnvelopeRequired,
    StartData,
    MessageAccepted,
    StorageError,
    MessageTooLarge,
    DataTimeout,
    ResetOk,
    NoopOk,
    Bye,
    NotImplemented,
}

impl Reply {
    /// The reply as it is sent.
    pub open spec fn spec_text(self) -> Seq<char> {
        match self {
            Reply::Ready => "220 smtp-receiver ready\r\n"@,
            Reply::TooManyConnections =>
                "421 too many concurrent connections; try again later\r\n"@,
            Reply::LineTooLong => "500 command line too long\r\n"@,
            Reply::IdleTimeout => "421 idle timeout\r\n"@,
            Reply::Hello => "250-smtp-receiver\r\n250-8BITMIME\r\n250 SIZE\r\n"@,
            Reply::SenderAccepted => "250 sender accepted\r\n"@,
            Reply::GlobalLimited => "451 global rate limit exceeded; try again later\r\n"@,
            Reply::SenderLimited => "451 sender rate limit exceeded; try again later\r\n"@,
            Reply::SenderRequired => "503 MAIL FROM required first\r\n"@,
            Reply::RecipientAccepted => "250 recipient accepted\r\n"@,
            Reply::EnvelopeRequired => "503 MAIL FROM and RCPT TO required first\r\n"@,
            Reply::StartData => "354 end with <CRLF>.<CRLF>\r\n"@,
            Reply::MessageAccepted => "250 message accepted\r\n"@,
            Reply::StorageError => "451 local storage error; try again later\r\n"@,
            Reply::MessageTooLarge => "552 message exceeds configured size limit\r\n"@,
            Reply::DataTimeout => "421 DATA timeout\r\n"@,
            Reply::ResetOk => "250 reset ok\r\n"@,
            Reply::NoopOk => "250 ok\r\n"@,
            Reply::Bye => "221 bye\r\n"@,
            Reply::NotImplemented => "502 command not implemented\r\n"@,
        }
    }

    /// The reply as it is sent.
    pub fn text(self) -> (r: &'static str)
        ensures
            r@ == self.spec_text(),
    {
        match self {
            Reply::Ready => "220 smtp-receiver ready\r\n",
            Reply::TooManyConnections => "421 too many concurrent connections; try again later\r\n",
            Reply::LineTooLong => "500 command line too long\r\n",
            Reply::IdleTimeout => "421 idle timeout\r\n",
            Reply::Hello => "250-smtp-receiver\r\n250-8BITMIME\r\n250 SIZE\r\n",
            Reply::SenderAccepted => "250 sender accepted\r\n",
            Reply::GlobalLimited => "451 global rate limit exceeded; try again later\r\n",
            Reply::SenderLimited => "451 sender rate limit exceeded; try again later\r\n",
            Reply::SenderRequired => "503 MAIL FROM required first\r\n",
            Reply::RecipientAccepted => "250 recipient accepted\r\n",
            Reply::EnvelopeRequired => "503 MAIL FROM and RCPT TO required first\r\n",
            Reply::StartData => "354 end with <CRLF>.<CRLF>\r\n",
            Reply::MessageAccepted => "250 message accepted\r\n",
            Reply::StorageError => "451 local storage error; try again later\r\n",
            Reply::MessageTooLarge => "552 message exceeds configured size limit\r\n",
            Reply::DataTimeout => "421 DATA timeout\r\n",
            Reply::ResetOk => "250 reset ok\r\n",
            Reply::NoopOk => "250 ok\r\n",
            Reply::Bye => "221 bye\r\n",
            Reply::NotImplemented => "502 command not implemented\r\n",
        }
    }
}

// ---------------------------------------------------------------------------
// Commands
// ---------------------------------------------------------------------------
/// A command of a client.
#[derive(Clone, Debug, PartialEq, Eq)]
pub enum Command {
    Hello,
    Mail(String),
    Recipient(String),
    Data,
    Reset,
    Noop,
    Quit,
    Unknown,
}

/// What a `Command` says.
pub enum CommandView {
    Hello,
    Mail(Seq<char>),
    Recipient(Seq<char>),
    Data,
    Reset,
    Noop,
    Quit,
    Unknown,
}

impl View for Command {
    type V = CommandView;

    open spec fn view(&self) -> CommandView {
        match *self {
            Command::Hello => CommandView::Hello,
            Command::Mail(sender) => CommandView::Mail(sender@),
            Command::Recipient(recipient) => CommandView::Recipient(recipient@),
            Command::Data => CommandView::Data,
            Command::Reset => CommandView::Reset,
            Command::Noop => CommandView::Noop,
            Command::Quit => CommandView::Quit,
            Command::Unknown => CommandView::Unknown,
        }
    }
}

/// The command that a text is. Case does not matter, but for the addresses, which
/// keep theirs and lose the white space around them.
pub open spec fn command_of(text: Seq<char>) -> CommandView {
    let word = upper(text);
    if starts_with(word, "HELO "@) || starts_with(word, "EHLO "@) {
        CommandView::Hello
    } else if starts_with(word, "MAIL FROM:"@) {
        CommandView::Mail(trim(text.skip(10)))
    } else if starts_with(word, "RCPT TO:"@) {
        CommandView::Recipient(trim(text.skip(8)))
    } else if word == "DATA"@ {
        CommandView::Data
    } else if word == "RSET"@ {
        CommandView::Reset
    } else if word == "NOOP"@ {
        CommandView::Noop
    } else if word == "QUIT"@ {
        CommandView::Quit
    } else {
        CommandView::Unknown
    }
}

fn is_word(chars: &[char], word: &str) -> (r: bool)
    ensures
        r == (chars@ == word@),
{
    let other = chars_of(word);
    same_chars(chars, other.as_slice())
}

/// The command that a text is.
pub fn parse_command(text: &str) -> (r: Command)
    ensures
        r@ == command_of(text@),
{
    let chars = chars_of(text);
    let word = to_upper(chars.as_slice());
    let upper_chars = word.as_slice();
    proof {
        reveal_strlit("MAIL FROM:");
        reveal_strlit("RCPT TO:");
    }
    if begins_with(upper_chars, "HELO ") || begins_with(upper_chars, "EHLO ") {
        Command::Hello
    } else if begins_with(upper_chars, "MAIL FROM:") {
        let rest: &[char] = &chars.as_slice()[10..chars.len()];
        assert(rest@ =~= text@.skip(10));
        Command::Mail(string_of(trim_chars(rest)))
    } else if begins_with(upper_chars, "RCPT TO:") {
        let rest: &[char] = &chars.as_slice()[8..chars.len()];
        assert(rest@ =~= text@.skip(8));
        Command::Recipient(string_of(trim_chars(rest)))
    } else if is_word(upper_chars, "DATA") {
        Command::Data
    } else if is_word(upper_chars, "RSET") {
        Command::Reset
    } else if is_word(upper_chars, "NOOP") {
        Command::Noop
    } else if is_word(upper_chars, "QUIT") {
        Command::Quit
    } else {
        Command::Unknown
    }
}

/// The text of a line with a command.
pub open spec fn line_text(line: Seq<u8>) -> Seq<char> {
    utf8_lossy(without_line_ending(line))
}

/// The command on a line.
pub fn parse_command_line(line: &[u8]) -> (r: Command)
    ensures
        r@ == command_of(line_text(line@)),
        valid_utf8(without_line_ending(line@)) ==> r@ == command_of(
            decode_utf8(without_line_ending(line@)),
        ),
{
    let text = decode_lossy(trim_line_ending(line));
    parse_command(text.as_str())
}

// ---------------------------------------------------------------------------
// The session
// ---------------------------------------------------------------------------
/// What a client has said of the next message.
#[derive(Debug)]
pub struct Session {
    sender: Option<String>,
    recipients: Vec<String>,
}

/// What a `Session` holds.
#[verifier::ext_equal]
pub struct SessionView {
    pub sender: Option<Seq<char>>,
    pub recipients: Seq<Seq<char>>,
}

impl View for Session {
    type V = SessionView;

    closed spec fn view(&self) -> SessionView {
        SessionView { sender: optional_text(self.sender), recipients: texts(self.recipients@) }
    }
}

/// What happened.
#[derive(Debug)]
pub enum Event {
    /// A line was read; an empty one if the connection is at its end.
    Line(Vec<u8>),
    /// A line was longer than a command may be.
    LineTooLong,
    /// No line came in time.
    IdleTimeout,
    /// The rate limiter decided on this sender.
    RateDecided { sender: String, decision: RateLimitDecision },
    /// The data of the message was read.
    DataRead(Vec<u8>),
    /// The data of the message is larger than allowed.
    DataTooLarge,
    /// The connection was closed before the end of the data.
    DataClosed,
    /// The end of the data did not come in time.
    DataTimeout,
    /// The message was stored, or ignored by a rule.
    Delivered,
    /// The message could not be stored.
    DeliveryFailed,
}

/// What an `Event` says.
pub enum EventView {
    Closed,
    Command(CommandView),
    LineTooLong,
    IdleTimeout,
    RateDecided { sender: Seq<char>, decision: RateLimitDecision },
    DataRead(Seq<u8>),
    DataTooLarge,
    DataClosed,
    DataTimeout,
    Delivered,
    DeliveryFailed,
}

impl View for Event {
    type V = EventView;

    open spec fn view(&self) -> EventView {
        match *self {
            Event::Line(line) => if line@.len() == 0 {
                EventView::Closed
            } else {
                EventView::Command(command_of(line_text(line@)))
            },
            Event::LineTooLong => EventView::LineTooLong,
            Event::IdleTimeout => EventView::IdleTimeout,
            Event::RateDecided { sender, decision } => EventView::RateDecided {
                sender: sender@,
                decision,
            },
            Event::DataRead(data) => EventView::DataRead(data@),
            Event::DataTooLarge => EventView::DataTooLarge,
            Event::DataClosed => EventView::DataClosed,
            Event::DataTimeout => EventView::DataTimeout,
            Event::Delivered => EventView::Delivered,
            Event::DeliveryFailed => EventView::DeliveryFailed,
        }
    }
}

/// What is to be done.
#[derive(Debug)]
pub enum Action {
    /// Send a reply and read the next line.
    Answer(Reply),
    /// Send a reply and end the session.
    Dismiss(Reply),
    /// End the session.
    End,
    /// End the session: the client broke it off.
    Abort,
    /// Ask the rate limiter about this sender.
    CheckRate(String),
    /// Send a reply and read the data of a message.
    ReadData(Reply),
    /// Store a message.
    Deliver { sender: String, recipients: Vec<String>, data: Vec<u8> },
}

/// What an `Action` says.
pub enum ActionView {
    Answer(Reply),
    Dismiss(Reply),
    End,
    Abort,
    CheckRate(Seq<char>),
    ReadData(Reply),
    Deliver { sender: Seq<char>, recipients: Seq<Seq<char>>, data: Seq<u8> },
}

impl View for Action {
    type V = ActionView;

    open spec fn view(&self) -> ActionView {
        match *self {
            Action::Answer(reply) => ActionView::Answer(reply),
            Action::Dismiss(reply) => ActionView::Dismiss(reply),
            Action::End => ActionView::End,
            Action::Abort => ActionView::Abort,
            Action::CheckRate(sender) => ActionView::CheckRate(sender@),
            Action::ReadData(reply) => ActionView::ReadData(reply),
            Action::Deliver { sender, recipients, data } => ActionView::Deliver {
                sender: sender@,
                recipients: texts(recipients@),
                data: data@,
            },
        }
    }
}

impl SessionView {
    /// A session in which no message was announced.
    pub open spec fn empty() -> SessionView {
        SessionView { sender: None, recipients: Seq::empty() }
    }

    /// The session after a command.
    pub open spec fn after_command(self, command: CommandView) -> SessionView {
        match command {
            CommandView::Recipient(recipient) => if self.sender is Some {
                SessionView { sender: self.sender, recipients: self.recipients.push(recipient) }
            } else {
                self
            },
            CommandView::Reset => SessionView::empty(),
            _ => self,
        }
    }

    /// What a command leads to.
    pub open spec fn action_on_command(self, command: CommandView) -> ActionView {
        match command {
            CommandView::Hello => ActionView::Answer(Reply::Hello),
            CommandView::Mail(sender) => ActionView::CheckRate(sender),
            CommandView::Recipient(_) => if self.sender is Some {
                ActionView::Answer(Reply::RecipientAccepted)
            } else {
                ActionView::Answer(Reply::SenderRequired)
            },
            CommandView::Data => if self.sender is Some && self.recipients.len() > 0 {
                ActionView::ReadData(Reply::StartData)
            } else {
                ActionView::Answer(Reply::EnvelopeRequired)
            },
            CommandView::Reset => ActionView::Answer(Reply::ResetOk),
            CommandView::Noop => ActionView::Answer(Reply::NoopOk),
            CommandView::Quit => ActionView::Dismiss(Reply::Bye),
            CommandView::Unknown => ActionView::Answer(Reply::NotImplemented),
        }
    }

    /// The session after an event.
    pub open spec fn after(self, event: EventView) -> SessionView {
        match event {
            EventView::Command(command) => self.after_command(command),
            EventView::RateDecided { sender, decision } => match decision {
                RateLimitDecision::Accepted => SessionView {
                    sender: Some(sender),
                    recipients: Seq::empty(),
                },
                _ => self,
            },
            EventView::DataRead(_) => SessionView::empty(),
            _ => self,
        }
    }

    /// What an event leads to.
    pub open spec fn action(self, event: EventView) -> ActionView {
        match event {
            EventView::Closed => ActionView::End,
            EventView::Command(command) => self.action_on_command(command),
            EventView::LineTooLong => ActionView::Dismiss(Reply::LineTooLong),
            EventView::IdleTimeout => ActionView::Dismiss(Reply::IdleTimeout),
            EventView::RateDecided { decision, .. } => match decision {
                RateLimitDecision::Accepted => ActionView::Answer(Reply::SenderAccepted),
                RateLimitDecision::GlobalLimited => ActionView::Answer(Reply::GlobalLimited),
                RateLimitDecision::SenderLimited => ActionView::Answer(Reply::SenderLimited),
            },
            EventView::DataRead(data) => ActionView::Deliver {
                sender: match self.sender {
                    Some(sender) => sender,
                    None => Seq::empty(),
                },
                recipients: self.recipients,
                data,
            },
            EventView::DataTooLarge => ActionView::Dismiss(Reply::MessageTooLarge),
            EventView::DataClosed => ActionView::Abort,
            EventView::DataTimeout => ActionView::Dismiss(Reply::DataTimeout),
            EventView::Delivered => ActionView::Answer(Reply::MessageAccepted),
            EventView::DeliveryFailed => ActionView::Answer(Reply::StorageError),
        }
    }
}

impl Session {
    /// A session at its start, and the reply that opens it.
    pub fn start() -> (r: (Self, Reply))
        ensures
            r.0@ == SessionView::empty(),
            r.1 == Reply::Ready,
    {
        let session = Session { sender: None, recipients: Vec::new() };
        assert(session@ =~= SessionView::empty());
        (session, Reply::Ready)
    }

    fn clear(&mut self)
        ensures
            final(self)@ == SessionView::empty(),
    {
        self.sender = None;
        self.recipients = Vec::new();
        assert(self@ =~= SessionView::empty());
    }

    /// What a command leads to.
    pub fn handle_command(&mut self, command: Command) -> (r: Action)
        ensures
            final(self)@ == old(self)@.after_command(command@),
            r@ == old(self)@.action_on_command(command@),
    {
        let ghost before = self@;
        match command {
            Command::Hello => Action::Answer(Reply::Hello),
            Command::Mail(sender) => Action::CheckRate(sender),
            Command::Recipient(recipient) => {
                if self.sender.is_none() {
                    Action::Answer(Reply::SenderRequired)
                } else {
                    self.recipients.push(recipient);
                    assert(self@ =~= before.after_command(CommandView::Recipient(recipient@)));
                    Action::Answer(Reply::RecipientAccepted)
                }
            },
            Command::Data => {
                if self.sender.is_none() || self.recipients.len() == 0 {
                    Action::Answer(Reply::EnvelopeRequired)
                } else {
                    Action::ReadData(Reply::StartData)
                }
            },
            Command::Reset => {
                self.clear();
                Action::Answer(Reply::ResetOk)
            },
            Command::Noop => Action::Answer(Reply::NoopOk),
            Command::Quit => Action::Dismiss(Reply::Bye),
            Command::Unknown => Action::Answer(Reply::NotImplemented),
        }
    }

    /// What an event leads to.
    pub fn handle(&mut self, event: Event) -> (r: Action)
        ensures
            final(self)@ == old(self)@.after(event@),
            r@ == old(self)@.action(event@),
    {
        match event {
            Event::Line(line) => {
                if line.len() == 0 {
                    return Action::End;
                }
                let command = parse_command_line(line.as_slice());
                self.handle_command(command)
            },
            Event::LineTooLong => Action::Dismiss(Reply::LineTooLong),
            Event::IdleTimeout => Action::Dismiss(Reply::IdleTimeout),
            Event::RateDecided { sender, decision } => match decision {
                RateLimitDecision::Accepted => {
                    self.clear();
                    self.sender = Some(sender);
                    Action::Answer(Reply::SenderAccepted)
                },
                RateLimitDecision::GlobalLimited => Action::Answer(Reply::GlobalLimited),
                RateLimitDecision::SenderLimited => Action::Answer(Reply::SenderLimited),
            },
            Event::DataRead(data) => {
                let mut envelope = Session { sender: None, recipients: Vec::new() };
                assert(envelope@ =~= SessionView::empty());
                std::mem::swap(self, &mut envelope);
                let sender = match envelope.sender {
                    Some(sender) => sender,
                    None => {
                        let none = String::new();
                        assert(none@ =~= Seq::<char>::empty());
                        none
                    },
                };
                Action::Deliver { sender, recipients: envelope.recipients, data }
            },
            Event::DataTooLarge => Action::Dismiss(Reply::MessageTooLarge),
            Event::DataClosed => Action::Abort,
            Event::DataTimeout => Action::Dismiss(Reply::DataTimeout),
            Event::Delivered => Action::Answer(Reply::MessageAccepted),
            Event::DeliveryFailed => Action::Answer(Reply::StorageError),
        }
    }
}

// ---------------------------------------------------------------------------
// Laws
// ---------------------------------------------------------------------------
/// The session after a series of events.
pub open spec fn session_after(events: Seq<EventView>) -> SessionView
    decreases events.len(),
{
    if events.len() == 0 {
        SessionView::empty()
    } else {
        session_after(events.drop_last()).after(events.last())
    }
}

/// Recipients are only known together with a sender.
pub proof fn law_recipients_have_a_sender(events: Seq<EventView>)
    ensures
        session_after(events).recipients.len() > 0 ==> session_after(events).sender is Some,
    decreases events.len(),
{
    if events.len() > 0 {
        law_recipients_have_a_sender(events.drop_last());
    }
}

/// The data of a message is asked for exactly where a sender and a recipient are
/// known and the client says `DATA`.
pub proof fn law_data_needs_an_envelope(session: SessionView, event: EventView)
    ensures
        session.action(event) is ReadData <==> (event matches EventView::Command(
            CommandView::Data,
        ) && session.sender is Some && session.recipients.len() > 0),
{
}

/// Whether the rate limiter accepted a sender.
pub open spec fn accepts_sender(event: EventView) -> bool {
    event matches EventView::RateDecided { decision, .. } && decision
        == RateLimitDecision::Accepted
}

/// A client that the rate limiter never accepted is never asked for data.
pub proof fn law_refused_client_sends_no_data(events: Seq<EventView>, event: EventView)
    requires
        forall|i: int| 0 <= i < events.len() ==> !accepts_sender(#[trigger] events[i]),
    ensures
        session_after(events) == SessionView::empty(),
        !(session_after(events).action(event) is ReadData),
    decreases events.len(),
{
    if events.len() > 0 {
        let before = events.drop_last();
        assert forall|i: int| 0 <= i < before.len() implies !accepts_sender(#[trigger] before[i]) by {
            assert(before[i] == events[i]);
        }
        law_refused_client_sends_no_data(before, event);
        assert(!accepts_sender(events[events.len() - 1]));
    }
}

/// Any recipient is accepted once a sender is.
pub proof fn law_any_recipient_is_accepted(session: SessionView, recipient: Seq<char>)
    requires
        session.sender is Some,
    ensures
        session.action(EventView::Command(CommandView::Recipient(recipient)))
            == ActionView::Answer(Reply::RecipientAccepted),
        session.after(EventView::Command(CommandView::Recipient(recipient))).recipients
            == session.recipients.push(recipient),
{
}

/// A sender that the rate limiter refuses leaves the announced message as it was.
pub proof fn law_refused_sender_changes_nothing(
    session: SessionView,
    sender: Seq<char>,
    decision: RateLimitDecision,
)
    requires
        decision != RateLimitDecision::Accepted,
    ensures
        session.after(EventView::RateDecided { sender, decision }) == session,
{
}

/// An accepted sender begins a new message: recipients named before are forgotten.
pub proof fn law_accepted_sender_begins_anew(session: SessionView, sender: Seq<char>)
    ensures
        session.after(
            EventView::RateDecided { sender, decision: RateLimitDecision::Accepted },
        ) == SessionView::empty().after(
            EventView::RateDecided { sender, decision: RateLimitDecision::Accepted },
        ),
{
}

/// After `RSET`, and after a message was handed over, the session is as at its start.
pub proof fn law_reset_and_data_clear(session: SessionView, data: Seq<u8>)
    ensures
        session.after(EventView::Command(CommandView::Reset)) == SessionView::empty(),
        session.after(EventView::DataRead(data)) == SessionView::empty(),
{
}

/// The events of a client that announces a sender and then these recipients.
pub open spec fn envelope_events(sender: Seq<char>, recipients: Seq<Seq<char>>) -> Seq<EventView>
    decreases recipients.len(),
{
    if recipients.len() == 0 {
        seq![EventView::RateDecided { sender, decision: RateLimitDecision::Accepted }]
    } else {
        envelope_events(sender, recipients.drop_last()).push(
            EventView::Command(CommandView::Recipient(recipients.last())),
        )
    }
}

/// A message is handed over with the sender and the recipients that the client
/// announced, in their order.
pub proof fn law_message_keeps_its_envelope(
    sender: Seq<char>,
    recipients: Seq<Seq<char>>,
    data: Seq<u8>,
)
    ensures
        session_after(envelope_events(sender, recipients)).action(EventView::DataRead(data)) == (
        ActionView::Deliver { sender, recipients, data }),
{
    lemma_envelope(sender, recipients);
}

proof fn lemma_envelope(sender: Seq<char>, recipients: Seq<Seq<char>>)
    ensures
        session_after(envelope_events(sender, recipients)) == (SessionView {
            sender: Some(sender),
            recipients,
        }),
    decreases recipients.len(),
{
    let events = envelope_events(sender, recipients);
    if recipients.len() == 0 {
        assert(events.drop_last() =~= Seq::empty());
        assert(recipients =~= Seq::empty());
    } else {
        lemma_envelope(sender, recipients.drop_last());
        assert(events.drop_last() =~= envelope_events(sender, recipients.drop_last()));
        assert(recipients.drop_last().push(recipients.last()) =~= recipients);
    }
}

/// Which command a text is does not depend on case.
pub proof fn law_commands_ignore_case(text: Seq<char>, other: Seq<char>)
    requires
        upper(text) == upper(other),
    ensures
        match command_of(text) {
            CommandView::Mail(_) => command_of(other) is Mail,
            CommandView::Recipient(_) => command_of(other) is Recipient,
            command => command_of(other) == command,
        },
{
}

/// The addresses of a command that stands on one line do so too, and have no white
/// space around them.
pub proof fn law_addresses_stand_on_one_line(text: Seq<char>)
    requires
        is_one_line(text),
    ensures
        command_of(text) matches CommandView::Mail(sender) ==> is_one_line(sender) && trim(sender)
            == sender,
        command_of(text) matches CommandView::Recipient(recipient) ==> is_one_line(recipient)
            && trim(recipient) == recipient,
{
    reveal_strlit("MAIL FROM:");
    reveal_strlit("RCPT TO:");
    if text.len() >= 10 {
        assert(is_one_line(text.skip(10)));
        lemma_trim_stays_on_line(text.skip(10));
    }
    if text.len() >= 8 {
        assert(is_one_line(text.skip(8)));
        lemma_trim_stays_on_line(text.skip(8));
    }
}

/// Every reply begins with a code of three digits and ends its line.
pub proof fn law_replies_are_lines(reply: Reply)
    ensures
        ({
            let text = reply.spec_text();
            let n = text.len() as int;
            &&& n >= 6
            &&& '2' <= text[0] <= '5'
            &&& '0' <= text[1] <= '9'
            &&& '0' <= text[2] <= '9'
            &&& text[n - 2] == '\r'
            &&& text[n - 1] == '\n'
        }),
{
    reveal_strlit("220 smtp-receiver ready\r\n");
    reveal_strlit("421 too many concurrent connections; try again later\r\n");
    reveal_strlit("500 command line too long\r\n");
    reveal_strlit("421 idle timeout\r\n");
    reveal_strlit("250-smtp-receiver\r\n250-8BITMIME\r\n250 SIZE\r\n");
    reveal_strlit("250 sender accepted\r\n");
    reveal_strlit("451 global rate limit exceeded; try again later\r\n");
    reveal_strlit("451 sender rate limit exceeded; try again later\r\n");
    reveal_strlit("503 MAIL FROM required first\r\n");
    reveal_strlit("250 recipient accepted\r\n");
    reveal_strlit("503 MAIL FROM and RCPT TO required first\r\n");
    reveal_strlit("354 end with <CRLF>.<CRLF>\r\n");
    reveal_strlit("250 message accepted\r\n");
    reveal_strlit("451 local storage error; try again later\r\n");
    reveal_strlit("552 message exceeds configured size limit\r\n");
    reveal_strlit("421 DATA timeout\r\n");
    reveal_strlit("250 reset ok\r\n");
    reveal_strlit("250 ok\r\n");
    reveal_strlit("221 bye\r\n");
    reveal_strlit("502 command not implemented\r\n");
}

/// A text is a command by the word that it begins with, or is, in any case. What follows the
/// word of a sender or a recipient is the address; every other text is unknown.
pub proof fn law_command_words(word: Seq<char>, rest: Seq<char>)
    ensures
        upper(word) == "HELO "@ || upper(word) == "EHLO "@ ==> command_of(word + rest)
            == CommandView::Hello,
        upper(word) == "MAIL FROM:"@ ==> command_of(word + rest) == CommandView::Mail(trim(rest)),
        upper(word) == "RCPT TO:"@ ==> command_of(word + rest) == CommandView::Recipient(
            trim(rest),
        ),
        upper(word) == "DATA"@ ==> command_of(word) == CommandView::Data,
        upper(word) == "RSET"@ ==> command_of(word) == CommandView::Reset,
        upper(word) == "NOOP"@ ==> command_of(word) == CommandView::Noop,
        upper(word) == "QUIT"@ ==> command_of(word) == CommandView::Quit,
{
    reveal_strlit("HELO ");
    reveal_strlit("EHLO ");
    reveal_strlit("MAIL FROM:");
    reveal_strlit("RCPT TO:");
    reveal_strlit("DATA");
    reveal_strlit("RSET");
    reveal_strlit("NOOP");
    reveal_strlit("QUIT");
    let text = word + rest;
    let n = word.len() as int;
    assert(upper(word).len() == n);
    assert(upper(text).take(n) =~= upper(word));
    assert(text.skip(n) =~= rest);
    assert("DATA"@[0] == 'D' && "RSET"@[0] == 'R' && "NOOP"@[0] == 'N' && "QUIT"@[0] == 'Q');
    if upper(word) == "MAIL FROM:"@ {
        assert(upper(text)[0] == upper(word)[0]);
        assert(upper(word)[0] == 'M');
        lemma_other_word(upper(text), "HELO "@, 'M');
        lemma_other_word(upper(text), "EHLO "@, 'M');
    }
    if upper(word) == "RCPT TO:"@ {
        assert(upper(text)[0] == upper(word)[0]);
        assert(upper(word)[0] == 'R');
        lemma_other_word(upper(text), "HELO "@, 'R');
        lemma_other_word(upper(text), "EHLO "@, 'R');
        lemma_other_word(upper(text), "MAIL FROM:"@, 'R');
    }
}

proof fn lemma_other_word(text: Seq<char>, word: Seq<char>, first: char)
    requires
        text.len() > 0,
        text[0] == first,
        word.len() > 0,
        word[0] != first,
    ensures
        !starts_with(text, word),
{
    if starts_with(text, word) {
        assert(text.take(word.len() as int)[0] == text[0]);
    }
}

/// A text that begins with none of the words of a greeting, a sender or a recipient, and is
/// none of the other commands, is unknown; and only that is.
pub proof fn law_unknown_commands(text: Seq<char>)
    ensures
        command_of(text) == CommandView::Unknown <==> {
            let word = upper(text);
            &&& !starts_with(word, "HELO "@)
            &&& !starts_with(word, "EHLO "@)
            &&& !starts_with(word, "MAIL FROM:"@)
            &&& !starts_with(word, "RCPT TO:"@)
            &&& word != "DATA"@
            &&& word != "RSET"@
            &&& word != "NOOP"@
            &&& word != "QUIT"@
        },
{
}

/// A client is answered by what it said and by what came of it: a greeting, a reset, a
/// command that does nothing and an unknown one at once; a sender as the rate limiter
/// decides; and a message by whether it was stored.
pub proof fn law_answers(session: SessionView, sender: Seq<char>, recipient: Seq<char>)
    ensures
        session.action(EventView::Command(CommandView::Hello)) == ActionView::Answer(Reply::Hello),
        session.action(EventView::Command(CommandView::Mail(sender))) == ActionView::CheckRate(
            sender,
        ),
        session.action(EventView::Command(CommandView::Reset)) == ActionView::Answer(
            Reply::ResetOk,
        ),
        session.action(EventView::Command(CommandView::Noop)) == ActionView::Answer(Reply::NoopOk),
        session.action(EventView::Command(CommandView::Unknown)) == ActionView::Answer(
            Reply::NotImplemented,
        ),
        session.action(
            EventView::RateDecided { sender, decision: RateLimitDecision::Accepted },
        ) == ActionView::Answer(Reply::SenderAccepted),
        session.action(
            EventView::RateDecided { sender, decision: RateLimitDecision::GlobalLimited },
        ) == ActionView::Answer(Reply::GlobalLimited),
        session.action(
            EventView::RateDecided { sender, decision: RateLimitDecision::SenderLimited },
        ) == ActionView::Answer(Reply::SenderLimited),
        session.sender is None ==> session.action(
            EventView::Command(CommandView::Recipient(recipient)),
        ) == ActionView::Answer(Reply::SenderRequired),
        session.sender is None || session.recipients.len() == 0 ==> session.action(
            EventView::Command(CommandView::Data),
        ) == ActionView::Answer(Reply::EnvelopeRequired),
        session.sender is Some && session.recipients.len() > 0 ==> session.action(
            EventView::Command(CommandView::Data),
        ) == ActionView::ReadData(Reply::StartData),
        session.action(EventView::Delivered) == ActionView::Answer(Reply::MessageAccepted),
        session.action(EventView::DeliveryFailed) == ActionView::Answer(Reply::StorageError),
{
}

/// A session ends where the client says so or breaks it off, and where a line, a message or
/// the time for one is exceeded; and nowhere else. All but a client that has gone are told.
pub proof fn law_endings(session: SessionView, event: EventView)
    ensures
        session.action(event) == ActionView::Dismiss(Reply::Bye) <==> event == EventView::Command(
            CommandView::Quit,
        ),
        session.action(event) == ActionView::Dismiss(Reply::LineTooLong) <==> event
            == EventView::LineTooLong,
        session.action(event) == ActionView::Dismiss(Reply::IdleTimeout) <==> event
            == EventView::IdleTimeout,
        session.action(event) == ActionView::Dismiss(Reply::MessageTooLarge) <==> event
            == EventView::DataTooLarge,
        session.action(event) == ActionView::Dismiss(Reply::DataTimeout) <==> event
            == EventView::DataTimeout,
        session.action(event) is Dismiss ==> event == EventView::Command(CommandView::Quit) || event
            == EventView::LineTooLong || event == EventView::IdleTimeout || event
            == EventView::DataTooLarge || event == EventView::DataTimeout,
        session.action(event) == ActionView::End <==> event == EventView::Closed,
        session.action(event) == ActionView::Abort <==> event == EventView::DataClosed,
{
}

/// What is known of the next message is changed by an accepted sender, a recipient, a reset
/// and the end of its data, and by nothing else.
pub proof fn law_other_events_change_nothing(session: SessionView, event: EventView)
    requires
        !accepts_sender(event),
        !(event is DataRead),
        event != EventView::Command(CommandView::Reset),
        !(event matches EventView::Command(CommandView::Recipient(_)) && session.sender is Some),
    ensures
        session.after(event) == session,
{
}

/// Every reply is its code, its words and the end of the line; the greeting is answered with
/// one line for each of the two extensions.
pub proof fn law_what_replies_say(reply: Reply)
    ensures
        reply.spec_text() == match reply {
            Reply::Ready => "220 "@ + "smtp-receiver ready"@ + "\r\n"@,
            Reply::TooManyConnections =>
                "421 "@ + "too many concurrent connections; try again later"@ + "\r\n"@,
            Reply::LineTooLong => "500 "@ + "command line too long"@ + "\r\n"@,
            Reply::IdleTimeout => "421 "@ + "idle timeout"@ + "\r\n"@,
            Reply::Hello => "250-smtp-receiver\r\n"@ + "250-8BITMIME\r\n"@ + "250 SIZE\r\n"@,
            Reply::SenderAccepted => "250 "@ + "sender accepted"@ + "\r\n"@,
            Reply::GlobalLimited =>
                "451 "@ + "global rate limit exceeded; try again later"@ + "\r\n"@,
            Reply::SenderLimited =>
                "451 "@ + "sender rate limit exceeded; try again later"@ + "\r\n"@,
            Reply::SenderRequired => "503 "@ + "MAIL FROM required first"@ + "\r\n"@,
            Reply::RecipientAccepted => "250 "@ + "recipient accepted"@ + "\r\n"@,
            Reply::EnvelopeRequired => "503 "@ + "MAIL FROM and RCPT TO required first"@ + "\r\n"@,
            Reply::StartData => "354 "@ + "end with <CRLF>.<CRLF>"@ + "\r\n"@,
            Reply::MessageAccepted => "250 "@ + "message accepted"@ + "\r\n"@,
            Reply::StorageError => "451 "@ + "local storage error; try again later"@ + "\r\n"@,
            Reply::MessageTooLarge => "552 "@ + "message exceeds configured size limit"@ + "\r\n"@,
            Reply::DataTimeout => "421 "@ + "DATA timeout"@ + "\r\n"@,
            Reply::ResetOk => "250 "@ + "reset ok"@ + "\r\n"@,
            Reply::NoopOk => "250 "@ + "ok"@ + "\r\n"@,
            Reply::Bye => "221 "@ + "bye"@ + "\r\n"@,
            Reply::NotImplemented => "502 "@ + "command not implemented"@ + "\r\n"@,
        },
{
    match reply {
        Reply::Ready => {
            reveal_strlit("220 smtp-receiver ready\r\n");
            reveal_strlit("220 ");
            reveal_strlit("smtp-receiver ready");
            reveal_strlit("\r\n");
            assert(reply.spec_text() =~= "220 "@ + "smtp-receiver ready"@ + "\r\n"@);
        },
        Reply::TooManyConnections => {
            reveal_strlit("421 too many concurrent connections; try again later\r\n");
            reveal_strlit("421 ");
            reveal_strlit("too many concurrent connections; try again later");
            reveal_strlit("\r\n");
            assert(reply.spec_text() =~= "421 "@
                + "too many concurrent connections; try again later"@ + "\r\n"@);
        },
        Reply::LineTooLong => {
            reveal_strlit("500 command line too long\r\n");
            reveal_strlit("500 ");
            reveal_strlit("command line too long");
            reveal_strlit("\r\n");
            assert(reply.spec_text() =~= "500 "@ + "command line too long"@ + "\r\n"@);
        },
        Reply::IdleTimeout => {
            reveal_strlit("421 idle timeout\r\n");
            reveal_strlit("421 ");
            reveal_strlit("idle timeout");
            reveal_strlit("\r\n");
            assert(reply.spec_text() =~= "421 "@ + "idle timeout"@ + "\r\n"@);
        },
        Reply::Hello => {
            reveal_strlit("250-smtp-receiver\r\n250-8BITMIME\r\n250 SIZE\r\n");
            reveal_strlit("250-smtp-receiver\r\n");
            reveal_strlit("250-8BITMIME\r\n");
            reveal_strlit("250 SIZE\r\n");
            assert(reply.spec_text() =~= "250-smtp-receiver\r\n"@
                + "250-8BITMIME\r\n"@ + "250 SIZE\r\n"@);
        },
        Reply::SenderAccepted => {
            reveal_strlit("250 sender accepted\r\n");
            reveal_strlit("250 ");
            reveal_strlit("sender accepted");
            reveal_strlit("\r\n");
            assert(reply.spec_text() =~= "250 "@ + "sender accepted"@ + "\r\n"@);
        },
        Reply::GlobalLimited => {
            reveal_strlit("451 global rate limit exceeded; try again later\r\n");
            reveal_strlit("451 ");
            reveal_strlit("global rate limit exceeded; try again later");
            reveal_strlit("\r\n");
            assert(reply.spec_text() =~= "451 "@
                + "global rate limit exceeded; try again later"@ + "\r\n"@);
        },
        Reply::SenderLimited => {
            reveal_strlit("451 sender rate limit exceeded; try again later\r\n");
            reveal_strlit("451 ");
            reveal_strlit("sender rate limit exceeded; try again later");
            reveal_strlit("\r\n");
            assert(reply.spec_text() =~= "451 "@
                + "sender rate limit exceeded; try again later"@ + "\r\n"@);
        },
        Reply::SenderRequired => {
            reveal_strlit("503 MAIL FROM required first\r\n");
            reveal_strlit("503 ");
            reveal_strlit("MAIL FROM required first");
            reveal_strlit("\r\n");
            assert(reply.spec_text() =~= "503 "@ + "MAIL FROM required first"@ + "\r\n"@);
        },
        Reply::RecipientAccepted => {
            reveal_strlit("250 recipient accepted\r\n");
            reveal_strlit("250 ");
            reveal_strlit("recipient accepted");
            reveal_strlit("\r\n");
            assert(reply.spec_text() =~= "250 "@ + "recipient accepted"@ + "\r\n"@);
        },
        Reply::EnvelopeRequired => {
            reveal_strlit("503 MAIL FROM and RCPT TO required first\r\n");
            reveal_strlit("503 ");
            reveal_strlit("MAIL FROM and RCPT TO required first");
            reveal_strlit("\r\n");
            assert(reply.spec_text() =~= "503 "@
                + "MAIL FROM and RCPT TO required first"@ + "\r\n"@);
        },
        Reply::StartData => {
            reveal_strlit("354 end with <CRLF>.<CRLF>\r\n");
            reveal_strlit("354 ");
            reveal_strlit("end with <CRLF>.<CRLF>");
            reveal_strlit("\r\n");
            assert(reply.spec_text() =~= "354 "@ + "end with <CRLF>.<CRLF>"@ + "\r\n"@);
        },
        Reply::MessageAccepted => {
            reveal_strlit("250 message accepted\r\n");
            reveal_strlit("250 ");
            reveal_strlit("message accepted");
            reveal_strlit("\r\n");
            assert(reply.spec_text() =~= "250 "@ + "message accepted"@ + "\r\n"@);
        },
        Reply::StorageError => {
            reveal_strlit("451 local storage error; try again later\r\n");
            reveal_strlit("451 ");
            reveal_strlit("local storage error; try again later");
            reveal_strlit("\r\n");
            assert(reply.spec_text() =~= "451 "@
                + "local storage error; try again later"@ + "\r\n"@);
        },
        Reply::MessageTooLarge => {
            reveal_strlit("552 message exceeds configured size limit\r\n");
            reveal_strlit("552 ");
            reveal_strlit("message exceeds configured size limit");
            reveal_strlit("\r\n");
            assert(reply.spec_text() =~= "552 "@
                + "message exceeds configured size limit"@ + "\r\n"@);
        },
        Reply::DataTimeout => {
            reveal_strlit("421 DATA timeout\r\n");
            reveal_strlit("421 ");
            reveal_strlit("DATA timeout");
            reveal_strlit("\r\n");
            assert(reply.spec_text() =~= "421 "@ + "DATA timeout"@ + "\r\n"@);
        },
        Reply::ResetOk => {
            reveal_strlit("250 reset ok\r\n");
            reveal_strlit("250 ");
            reveal_strlit("reset ok");
            reveal_strlit("\r\n");
            assert(reply.spec_text() =~= "250 "@ + "reset ok"@ + "\r\n"@);
        },
        Reply::NoopOk => {
            reveal_strlit("250 ok\r\n");
            reveal_strlit("250 ");
            reveal_strlit("ok");
            reveal_strlit("\r\n");
            assert(reply.spec_text() =~= "250 "@ + "ok"@ + "\r\n"@);
        },
        Reply::Bye => {
            reveal_strlit("221 bye\r\n");
            reveal_strlit("221 ");
            reveal_strlit("bye");
            reveal_strlit("\r\n");
            assert(reply.spec_text() =~= "221 "@ + "bye"@ + "\r\n"@);
        },
        Reply::NotImplemented => {
            reveal_strlit("502 command not implemented\r\n");
            reveal_strlit("502 ");
            reveal_strlit("command not implemented");
            reveal_strlit("\r\n");
            assert(reply.spec_text() =~= "502 "@ + "command not implemented"@ + "\r\n"@);
        },
    }
}

/// The data of a message is handed over byte for byte, with the sender and the recipients
/// that are known.
pub proof fn law_message_is_handed_over(session: SessionView, data: Seq<u8>)
    ensures
        session.action(EventView::DataRead(data)) == (ActionView::Deliver {
            sender: if session.sender is Some {
                session.sender->0
            } else {
                Seq::empty()
            },
            recipients: session.recipients,
            data,
        }),
{
}

} // verus!
