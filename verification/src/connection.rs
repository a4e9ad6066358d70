//! One client's connection: the bytes that come in become commands and messages, and
//! these become what is to be done.
use crate::bytes::{first_line_len, without_line_ending};
use crate::data::{
    read_line_limited, DataReader, DataResult, DataView, LineStep, ReadDataError,
    MAX_COMMAND_LINE_BYTES,
};
use crate::limiter::RateLimitDecision;
use crate::outside::utf8_lossy;
use crate::session::{
    command_of, line_text, Action, ActionView, CommandView, Event, EventView, Reply, Session,
    SessionView,
};
use vstd::prelude::*;

verus! {

/// A connection: the session, what is there of the next line, and the reader of a
/// message's data while one is sent.
#[derive(Debug)]
pub struct Connection {
    session: Session,
    line: Vec<u8>,
    data: Option<DataReader>,
    max_message_bytes: usize,
}

/// What a `Connection` holds.
#[verifier::ext_equal]
pub struct ConnectionView {
    pub session: SessionView,
    pub line: Seq<u8>,
    pub data: Option<DataView>,
    pub max_message_bytes: nat,
}

impl View for Connection {
    type V = ConnectionView;

    closed spec fn view(&self) -> ConnectionView {
        ConnectionView {
            session: self.session@,
            line: self.line@,
            data: match self.data {
                Some(reader) => Some(reader@),
                None => None,
            },
            max_message_bytes: self.max_message_bytes as nat,
        }
    }
}

/// What came of the bytes that were available: how many were taken, and what is to be
/// done, if anything is.
#[derive(Debug)]
pub struct Received {
    pub consumed: usize,
    pub action: Option<Action>,
}

/// The action of a `Received`.
pub open spec fn received_action(received: Received) -> Option<ActionView> {
    match received.action {
        Some(action) => Some(action@),
        None => None,
    }
}

/// The event that a complete line is.
pub open spec fn line_event(line: Seq<u8>) -> EventView {
    if line.len() == 0 {
        EventView::Closed
    } else {
        EventView::Command(command_of(line_text(line)))
    }
}

/// The event that the end of a message's data is.
pub open spec fn data_event(result: DataResult) -> EventView {
    match result {
        DataResult::Complete(message) => EventView::DataRead(message),
        DataResult::TooLarge => EventView::DataTooLarge,
        DataResult::Closed => EventView::DataClosed,
    }
}

/// How large a message may be: as large as configured, but no larger than what can be
/// counted together with the line that ends it.
pub open spec fn largest_message(max_message_bytes: nat) -> nat {
    if max_message_bytes < usize::MAX - 3 {
        max_message_bytes
    } else {
        (usize::MAX - 3) as nat
    }
}

impl ConnectionView {
    /// The event that available bytes are, if they complete a line or a message, or are
    /// too many; none are available at the end of the connection.
    pub open spec fn event(self, available: Seq<u8>) -> Option<EventView> {
        let n = first_line_len(available) as int;
        match self.data {
            Some(data) => match data.outcome(available) {
                Some(result) => Some(data_event(result)),
                None => None,
            },
            None => if available.len() == 0 {
                Some(line_event(self.line))
            } else if self.line.len() + n > MAX_COMMAND_LINE_BYTES {
                Some(EventView::LineTooLong)
            } else if available[n - 1] == 10 {
                Some(line_event(self.line + available.take(n)))
            } else {
                None
            },
        }
    }

    /// How many of the available bytes are taken.
    pub open spec fn taken(self, available: Seq<u8>) -> nat {
        match self.data {
            Some(data) => data.taken(available),
            None => if available.len() > 0 && self.line.len() + first_line_len(available)
                > MAX_COMMAND_LINE_BYTES {
                0
            } else {
                first_line_len(available)
            },
        }
    }

    /// The connection after an event: a new line begins, and the data of a message
    /// where the client is asked for it.
    pub open spec fn after(self, event: EventView) -> ConnectionView {
        ConnectionView {
            session: self.session.after(event),
            line: Seq::empty(),
            data: if self.session.action(event) is ReadData {
                Some(
                    DataView {
                        max: largest_message(self.max_message_bytes),
                        message: Seq::empty(),
                        line: Seq::empty(),
                    },
                )
            } else {
                None
            },
            max_message_bytes: self.max_message_bytes,
        }
    }

    /// The connection after available bytes that complete nothing.
    pub open spec fn grown(self, available: Seq<u8>) -> ConnectionView {
        match self.data {
            Some(data) => ConnectionView { data: Some(data.next(available)), ..self },
            None => ConnectionView { line: self.line + available, ..self },
        }
    }

    /// The event that no bytes in time are.
    pub open spec fn timeout_event(self) -> EventView {
        if self.data is Some {
            EventView::DataTimeout
        } else {
            EventView::IdleTimeout
        }
    }
}

impl Connection {
    /// Whether the parts fit together.
    pub closed spec fn wf(&self) -> bool {
        self.data matches Some(reader) ==> reader.wf()
    }

    /// A connection at its start, and the reply that opens it.
    pub fn start(max_message_bytes: usize) -> (r: (Self, Reply))
        ensures
            r.0.wf(),
            r.0@ == (ConnectionView {
                session: SessionView::empty(),
                line: Seq::empty(),
                data: None,
                max_message_bytes: max_message_bytes as nat,
            }),
            r.1 == Reply::Ready,
    {
        let (session, reply) = Session::start();
        let connection = Connection { session, line: Vec::new(), data: None, max_message_bytes };
        (connection, reply)
    }

    fn handle(&mut self, event: Event) -> (r: Action)
        requires
            old(self).wf(),
        ensures
            final(self).wf(),
            final(self)@ == old(self)@.after(event@),
            r@ == old(self)@.session.action(event@),
    {
        let action = self.session.handle(event);
        self.line = Vec::new();
        self.data = match &action {
            Action::ReadData(_) => {
                let largest: usize = usize::MAX - 3;
                if self.max_message_bytes < largest {
                    Some(DataReader::new(self.max_message_bytes))
                } else {
                    Some(DataReader::new(largest))
                }
            },
            _ => None,
        };
        action
    }

    /// Takes in the available bytes, none at the end of the connection.
    pub fn receive(&mut self, available: &[u8]) -> (r: Received)
        requires
            old(self).wf(),
        ensures
            final(self).wf(),
            r.consumed == old(self)@.taken(available@),
            match old(self)@.event(available@) {
                Some(event) => final(self)@ == old(self)@.after(event) && received_action(r) == Some(
                    old(self)@.session.action(event),
                ),
                None => final(self)@ == old(self)@.grown(available@) && r.action is None,
            },
    {
        let ghost before = self@;
        let mut data: Option<DataReader> = None;
        std::mem::swap(&mut data, &mut self.data);
        if let Some(mut reader) = data {
            let step = reader.read_data(available);
            let event = match step.outcome {
                None => {
                    self.data = Some(reader);
                    assert(self@ =~= before.grown(available@));
                    return Received { consumed: step.consumed, action: None };
                },
                Some(Ok(message)) => Event::DataRead(message),
                Some(Err(ReadDataError::TooLarge)) => Event::DataTooLarge,
                Some(Err(ReadDataError::Closed)) => Event::DataClosed,
            };
            let action = self.handle(event);
            return Received { consumed: step.consumed, action: Some(action) };
        }
        match read_line_limited(&mut self.line, available, MAX_COMMAND_LINE_BYTES) {
            LineStep::More { consumed } => {
                proof {
                    crate::bytes::lemma_first_line_len(available@);
                    assert(available@.take(available@.len() as int) =~= available@);
                }
                assert(self@ =~= before.grown(available@));
                Received { consumed, action: None }
            },
            LineStep::TooLong => {
                let action = self.handle(Event::LineTooLong);
                Received { consumed: 0, action: Some(action) }
            },
            LineStep::Done { consumed } => {
                let mut line: Vec<u8> = Vec::new();
                std::mem::swap(&mut line, &mut self.line);
                let action = self.handle(Event::Line(line));
                Received { consumed, action: Some(action) }
            },
        }
    }

    /// No bytes came in time.
    pub fn time_out(&mut self) -> (r: Action)
        requires
            old(self).wf(),
        ensures
            final(self).wf(),
            final(self)@ == old(self)@.after(old(self)@.timeout_event()),
            r@ == old(self)@.session.action(old(self)@.timeout_event()),
    {
        if self.data.is_some() {
            self.handle(Event::DataTimeout)
        } else {
            self.handle(Event::IdleTimeout)
        }
    }

    /// The rate limiter decided on a sender.
    pub fn decide(&mut self, sender: String, decision: RateLimitDecision) -> (r: Action)
        requires
            old(self).wf(),
        ensures
            final(self).wf(),
            final(self)@ == old(self)@.after(
                (EventView::RateDecided { sender: sender@, decision }),
            ),
            r@ == old(self)@.session.action(
                (EventView::RateDecided { sender: sender@, decision }),
            ),
    {
        self.handle(Event::RateDecided { sender, decision })
    }

    /// A message was dealt with, or could not be stored.
    pub fn finish_delivery(&mut self, stored: bool) -> (r: Action)
        requires
            old(self).wf(),
        ensures
            final(self).wf(),
            final(self)@ == old(self)@.after(
                if stored {
                    EventView::Delivered
                } else {
                    EventView::DeliveryFailed
                },
            ),
            r@ == ActionView::Answer(
                if stored {
                    Reply::MessageAccepted
                } else {
                    Reply::StorageError
                },
            ),
    {
        if stored {
            self.handle(Event::Delivered)
        } else {
            self.handle(Event::DeliveryFailed)
        }
    }
}

// ---------------------------------------------------------------------------
// Laws
// ---------------------------------------------------------------------------
/// How a line with a command is cut into pieces does not matter: after a piece that
/// completes nothing, the rest leads where the whole would have led.
pub proof fn law_command_pieces_do_not_matter(
    connection: ConnectionView,
    available: Seq<u8>,
    later: Seq<u8>,
)
    requires
        connection.data is None,
        connection.event(available) is None,
        later.len() > 0,
    ensures
        connection.event(available + later) == connection.grown(available).event(later),
        connection.event(available + later) is Some ==> {
            let event = connection.event(available + later).unwrap();
            connection.grown(available).after(event) == connection.after(event)
        },
{
    let whole = available + later;
    let n = first_line_len(available) as int;
    let k = first_line_len(later) as int;
    crate::bytes::lemma_first_line_len(available);
    crate::bytes::lemma_first_line_len(later);
    assert(n == available.len());
    assert(available[n - 1] != 10);
    assert forall|j: int| 0 <= j < n + k - 1 implies whole[j] != 10 by {
        if j < n {
            assert(whole[j] == available[j]);
        } else {
            assert(whole[j] == later[j - n]);
        }
    }
    crate::bytes::lemma_first_line_len_is(whole, n + k);
    assert(whole[n + k - 1] == later[k - 1]);
    assert(connection.line + whole.take(n + k) =~= (connection.line + available) + later.take(k));
}

/// A client is not kept waiting: every complete line is answered, or ends the session,
/// or asks the rate limiter.
pub proof fn law_every_command_is_answered(session: SessionView, line: Seq<u8>)
    ensures
        !(session.action(line_event(line)) is Deliver),
        !(session.action(line_event(line)) is Abort),
        session.action(line_event(line)) is End <==> line.len() == 0,
{
}

/// A line with a command may have 8192 bytes, with its ending: one with more is refused as
/// soon as that is known, and any other is the command that it holds.
pub proof fn law_command_lines_are_limited(
    connection: ConnectionView,
    line: Seq<u8>,
    rest: Seq<u8>,
)
    requires
        connection.data is None,
        connection.line.len() <= 8192,
        line.len() > 0,
        line.last() == 10,
        forall|i: int| 0 <= i < line.len() - 1 ==> #[trigger] line[i] != 10,
    ensures
        connection.line.len() + line.len() > 8192 ==> connection.event(line + rest) == Some(
            EventView::LineTooLong,
        ) && connection.taken(line + rest) == 0,
        connection.line.len() + line.len() <= 8192 ==> connection.event(line + rest) == Some(
            EventView::Command(
                command_of(utf8_lossy(without_line_ending(connection.line + line))),
            ),
        ) && connection.taken(line + rest) == line.len(),
{
    let stream = line + rest;
    let n = line.len() as int;
    assert forall|j: int| 0 <= j < n - 1 implies stream[j] != 10 by {
        assert(stream[j] == line[j]);
    }
    assert(stream[n - 1] == line[n - 1]);
    crate::bytes::lemma_first_line_len_is(stream, n);
    assert(stream.take(n) =~= line);
}

/// Bytes without a line ending are kept as the beginning of a line, as long as that has no
/// more than 8192 bytes.
pub proof fn law_incomplete_lines_are_kept(connection: ConnectionView, piece: Seq<u8>)
    requires
        connection.data is None,
        piece.len() > 0,
        forall|i: int| 0 <= i < piece.len() ==> #[trigger] piece[i] != 10,
    ensures
        connection.line.len() + piece.len() > 8192 ==> connection.event(piece) == Some(
            EventView::LineTooLong,
        ),
        connection.line.len() + piece.len() <= 8192 ==> connection.event(piece) is None
            && connection.taken(piece) == piece.len() && connection.grown(piece).line
            == connection.line + piece && connection.grown(piece).session == connection.session,
{
    let n = piece.len() as int;
    assert(piece[n - 1] != 10);
    crate::bytes::lemma_first_line_len_is(piece, n);
}

/// At the end of the connection what is there of a line is a command, and nothing is the
/// end.
pub proof fn law_end_of_connection(connection: ConnectionView)
    requires
        connection.data is None,
    ensures
        connection.line.len() == 0 ==> connection.event(Seq::empty()) == Some(EventView::Closed),
        connection.line.len() > 0 ==> connection.event(Seq::empty()) == Some(
            EventView::Command(command_of(utf8_lossy(without_line_ending(connection.line)))),
        ),
{
}

/// A client that says nothing in time is dismissed, with the reply for a message's data
/// while that is read, and with the one for a command otherwise.
pub proof fn law_silent_client_is_dismissed(connection: ConnectionView)
    ensures
        connection.session.action(connection.timeout_event()) == ActionView::Dismiss(
            if connection.data is Some {
                Reply::DataTimeout
            } else {
                Reply::IdleTimeout
            },
        ),
{
}

/// The data of a message is read from the event on that asks for it, as large as the
/// settings allow; after any other event a command is.
pub proof fn law_data_follows_its_command(connection: ConnectionView, event: EventView)
    ensures
        connection.after(event).line.len() == 0,
        connection.after(event).max_message_bytes == connection.max_message_bytes,
        connection.after(event).session == connection.session.after(event),
        connection.after(event).data is Some <==> (event == EventView::Command(CommandView::Data)
            && connection.session.sender is Some && connection.session.recipients.len() > 0),
        connection.after(event).data matches Some(data) ==> data.message.len() == 0
            && data.line.len() == 0 && (connection.max_message_bytes <= usize::MAX - 3 ==> data.max
            == connection.max_message_bytes) && (connection.max_message_bytes > usize::MAX - 3
            ==> data.max == usize::MAX - 3),
{
}

/// What comes of reading the data is what is done: a message is handed over, one that is too
/// large is refused, and one that is broken off ends the session.
pub proof fn law_data_leads_to_delivery(connection: ConnectionView, available: Seq<u8>)
    requires
        connection.data is Some,
    ensures
        match connection.data->0.outcome(available) {
            Some(DataResult::Complete(message)) => connection.event(available) == Some(
                EventView::DataRead(message),
            ),
            Some(DataResult::TooLarge) => connection.event(available) == Some(
                EventView::DataTooLarge,
            ),
            Some(DataResult::Closed) => connection.event(available) == Some(EventView::DataClosed),
            None => connection.event(available) is None && connection.grown(available).data == Some(
                connection.data->0.next(available),
            ) && connection.grown(available).session == connection.session,
        },
        connection.taken(available) == connection.data->0.taken(available),
{
}

} // verus!
