//! Lines of a connection, and the data of a message that they carry.
use crate::bytes::{
    append_bytes, first_line_len, is_data_terminator, is_terminator, law_terminator,
    lemma_first_line_len,
    lemma_first_line_len_is, without_line_ending,
};
use vstd::prelude::*;

verus! {

// ---------------------------------------------------------------------------
// Lines
// ---------------------------------------------------------------------------
/// How many bytes a line with a command may have.
pub const MAX_COMMAND_LINE_BYTES: usize = 8192;

/// How far reading a line has come.
#[derive(Clone, Copy, Debug, PartialEq, Eq, Structural)]
pub enum LineStep {
    /// These many bytes were taken, and the line goes on.
    More { consumed: usize },
    /// These many bytes were taken, and the line is complete.
    Done { consumed: usize },
    /// The line is longer than it may be.
    TooLong,
}

/// Adds to a line what is available of it. Nothing is available at the end of the
/// connection: the line then ends as it is.
pub fn read_line_limited(out: &mut Vec<u8>, available: &[u8], max_bytes: usize) -> (r: LineStep)
    ensures
        ({
            let n = first_line_len(available@);
            if available@.len() == 0 {
                final(out)@ == old(out)@ && r == (LineStep::Done { consumed: 0 })
            } else if old(out)@.len() + n > max_bytes {
                final(out)@ == old(out)@ && r == LineStep::TooLong
            } else {
                &&& final(out)@ == old(out)@ + available@.take(n as int)
                &&& n <= usize::MAX
                &&& r == if available@[n - 1] == 10 {
                    LineStep::Done { consumed: n as usize }
                } else {
                    LineStep::More { consumed: n as usize }
                }
            }
        }),
{
    let total: usize = available.len();
    if total == 0 {
        return LineStep::Done { consumed: 0 };
    }
    let mut index: usize = 0;
    while index < total && available[index] != 10
        invariant
            index <= total == available@.len(),
            forall|j: int| 0 <= j < index ==> available@[j] != 10,
        decreases total - index,
    {
        index = index + 1;
    }
    let found: bool = index < total;
    let take_len: usize = if found {
        index + 1
    } else {
        total
    };
    proof {
        lemma_first_line_len_is(available@, take_len as int);
    }
    if out.len() > max_bytes || take_len > max_bytes - out.len() {
        return LineStep::TooLong;
    }
    append_bytes(out, &available[0..take_len]);
    if found {
        LineStep::Done { consumed: take_len }
    } else {
        LineStep::More { consumed: take_len }
    }
}

// ---------------------------------------------------------------------------
// Data
// ---------------------------------------------------------------------------
/// Why the data of a message was not read.
#[derive(Clone, Copy, Debug, PartialEq, Eq, Structural)]
pub enum ReadDataError {
    /// There is more of it than is allowed.
    TooLarge,
    /// The connection was closed before its end.
    Closed,
}

/// What came of reading the data of a message.
pub enum DataResult {
    Complete(Seq<u8>),
    TooLarge,
    Closed,
}

/// What a `Result` says of the data of a message.
pub open spec fn data_result(result: Result<Vec<u8>, ReadDataError>) -> DataResult {
    match result {
        Ok(message) => DataResult::Complete(message@),
        Err(ReadDataError::TooLarge) => DataResult::TooLarge,
        Err(ReadDataError::Closed) => DataResult::Closed,
    }
}

/// A line without the dot that was put in front of a line with a dot.
pub open spec fn unstuffed(line: Seq<u8>) -> Seq<u8> {
    if line.len() >= 2 && line[0] == 46 && line[1] == 46 {
        line.skip(1)
    } else {
        line
    }
}

/// How far reading the data of a message has come: what is stored, and what is
/// there of the next line.
#[verifier::ext_equal]
pub struct DataView {
    pub max: nat,
    pub message: Seq<u8>,
    pub line: Seq<u8>,
}

impl DataView {
    /// How long the next line may be: what is left of the message, and three bytes
    /// so that the line at the end always fits.
    pub open spec fn room(self) -> int {
        self.max - self.message.len() + 3
    }

    /// What follows from a line that is complete: the end of reading, or that the
    /// line is stored.
    pub open spec fn finished_by(self, line: Seq<u8>) -> Option<DataResult> {
        if line.len() == 0 {
            Some(DataResult::Closed)
        } else if is_terminator(line) {
            Some(DataResult::Complete(self.message))
        } else if self.message.len() + unstuffed(line).len() > self.max {
            Some(DataResult::TooLarge)
        } else {
            None
        }
    }

    /// What is there after a line was stored.
    pub open spec fn with_line(self, line: Seq<u8>) -> DataView {
        DataView { max: self.max, message: self.message + unstuffed(line), line: Seq::empty() }
    }

    /// How many of the available bytes are taken.
    pub open spec fn taken(self, available: Seq<u8>) -> nat {
        if available.len() > 0 && self.line.len() + first_line_len(available) > self.room() {
            0
        } else {
            first_line_len(available)
        }
    }

    /// What follows from these available bytes, none at the end of the connection.
    pub open spec fn outcome(self, available: Seq<u8>) -> Option<DataResult> {
        let n = first_line_len(available) as int;
        let whole = self.line + available.take(n);
        if available.len() > 0 && self.line.len() + n > self.room() {
            Some(DataResult::TooLarge)
        } else if available.len() == 0 || available[n - 1] == 10 {
            self.finished_by(whole)
        } else {
            None
        }
    }

    /// What is there after these available bytes, if reading goes on.
    pub open spec fn next(self, available: Seq<u8>) -> DataView {
        let n = first_line_len(available) as int;
        let whole = self.line + available.take(n);
        if available.len() == 0 || available[n - 1] == 10 {
            self.with_line(whole)
        } else {
            DataView { max: self.max, message: self.message, line: whole }
        }
    }

    /// What comes of reading all of a stream, up to the end of the connection.
    pub open spec fn result(self, stream: Seq<u8>) -> DataResult
        decreases stream.len(), self.line.len(),
    {
        let n = first_line_len(stream) as int;
        let whole = self.line + stream.take(n);
        proof {
            lemma_first_line_len(stream);
        }
        if stream.len() > 0 && self.line.len() + n > self.room() {
            DataResult::TooLarge
        } else {
            match self.finished_by(whole) {
                Some(result) => result,
                None => self.with_line(whole).result(stream.skip(n)),
            }
        }
    }
}

/// What comes of reading all of a stream as the data of a message.
pub open spec fn read_stream(stream: Seq<u8>, max: nat) -> DataResult {
    DataView { max, message: Seq::empty(), line: Seq::empty() }.result(stream)
}

/// A reader of the data of one message.
#[derive(Debug)]
pub struct DataReader {
    max: usize,
    message: Vec<u8>,
    line: Vec<u8>,
}

/// What a reader made of the available bytes: how many it took, and what came of
/// reading, once it is over.
#[derive(Debug)]
pub struct DataStep {
    pub consumed: usize,
    pub outcome: Option<Result<Vec<u8>, ReadDataError>>,
}

/// What a step says of the end of reading.
pub open spec fn step_outcome(step: DataStep) -> Option<DataResult> {
    match step.outcome {
        Some(result) => Some(data_result(result)),
        None => None,
    }
}

impl View for DataReader {
    type V = DataView;

    closed spec fn view(&self) -> DataView {
        DataView { max: self.max as nat, message: self.message@, line: self.line@ }
    }
}

impl DataReader {
    /// Whether the message fits.
    pub open spec fn wf(&self) -> bool {
        &&& self@.max <= usize::MAX - 3
        &&& self@.message.len() <= self@.max
    }

    /// A reader that has read nothing.
    pub fn new(max_message_bytes: usize) -> (r: Self)
        requires
            max_message_bytes <= usize::MAX - 3,
        ensures
            r.wf(),
            r@ == (DataView {
                max: max_message_bytes as nat,
                message: Seq::empty(),
                line: Seq::empty(),
            }),
    {
        DataReader { max: max_message_bytes, message: Vec::new(), line: Vec::new() }
    }

    /// Reads on with the available bytes, none at the end of the connection.
    pub fn read_data(&mut self, available: &[u8]) -> (r: DataStep)
        requires
            old(self).wf(),
        ensures
            final(self).wf(),
            r.consumed == old(self)@.taken(available@),
            step_outcome(r) == old(self)@.outcome(available@),
            r.outcome is None ==> final(self)@ == old(self)@.next(available@),
    {
        let ghost before = self@;
        let remaining: usize = self.max - self.message.len();
        proof {
            lemma_first_line_len(available@);
        }
        let consumed: usize = match read_line_limited(&mut self.line, available, remaining + 3) {
            LineStep::TooLong => {
                return DataStep { consumed: 0, outcome: Some(Err(ReadDataError::TooLarge)) };
            },
            LineStep::More { consumed } => {
                return DataStep { consumed, outcome: None };
            },
            LineStep::Done { consumed } => consumed,
        };
        let ghost whole = before.line + available@.take(first_line_len(available@) as int);
        assert(self.line@ =~= whole);
        if self.line.len() == 0 {
            return DataStep { consumed, outcome: Some(Err(ReadDataError::Closed)) };
        }
        if is_data_terminator(self.line.as_slice()) {
            let mut message: Vec<u8> = Vec::new();
            std::mem::swap(&mut message, &mut self.message);
            return DataStep { consumed, outcome: Some(Ok(message)) };
        }
        let mut line: Vec<u8> = Vec::new();
        std::mem::swap(&mut line, &mut self.line);
        let stuffed: bool = line.len() >= 2 && line[0] == 46 && line[1] == 46;
        let stored: &[u8] = if stuffed {
            &line.as_slice()[1..line.len()]
        } else {
            line.as_slice()
        };
        assert(stored@ =~= unstuffed(whole));
        if stored.len() > remaining {
            return DataStep { consumed, outcome: Some(Err(ReadDataError::TooLarge)) };
        }
        append_bytes(&mut self.message, stored);
        assert(self@ =~= before.next(available@));
        DataStep { consumed, outcome: None }
    }
}

// ---------------------------------------------------------------------------
// Laws
// ---------------------------------------------------------------------------
/// How a stream is cut into pieces does not matter: what comes of reading the whole
/// of it is what comes of reading the first piece and then the rest.
pub proof fn law_pieces_do_not_matter(state: DataView, available: Seq<u8>, later: Seq<u8>)
    requires
        available.len() > 0,
    ensures
        state.result(available + later) == match state.outcome(available) {
            Some(result) => result,
            None => state.next(available).result(
                available.skip(state.taken(available) as int) + later,
            ),
        },
{
    let stream = available + later;
    let n = first_line_len(available) as int;
    lemma_first_line_len(available);
    assert(stream.take(n) =~= available.take(n));
    if available[n - 1] == 10 {
        lemma_first_line_len_is(stream, n);
        assert(stream.skip(n) =~= available.skip(n) + later);
    } else {
        let k = first_line_len(later) as int;
        lemma_first_line_len(later);
        assert(n == available.len());
        assert(available.take(n) =~= available);
        assert(available.skip(n) + later =~= later);
        assert forall|j: int| 0 <= j < n + k - 1 implies stream[j] != 10 by {
            if j < n {
                assert(stream[j] == available[j]);
            } else {
                assert(stream[j] == later[j - n]);
            }
        }
        lemma_first_line_len_is(stream, n + k);
        assert(stream.take(n + k) =~= available + later.take(k));
        assert(state.line + stream.take(n + k) =~= (state.line + available) + later.take(k));
        assert(stream.skip(n + k) =~= later.skip(k));
    }
}

/// At the end of the connection what is there of a line counts as a line.
pub proof fn law_end_completes_the_line(state: DataView)
    ensures
        state.result(Seq::empty()) == match state.outcome(Seq::empty()) {
            Some(result) => result,
            None => state.next(Seq::empty()).result(Seq::empty()),
        },
{
    let none: Seq<u8> = Seq::empty();
    assert(none.take(0) =~= none);
    assert(none.skip(0) =~= none);
}

/// No message is read that is larger than allowed.
pub proof fn law_message_fits(state: DataView, stream: Seq<u8>, message: Seq<u8>)
    requires
        state.message.len() <= state.max,
        state.result(stream) == DataResult::Complete(message),
    ensures
        message.len() <= state.max,
    decreases stream.len(), state.line.len(),
{
    let n = first_line_len(stream) as int;
    let whole = state.line + stream.take(n);
    lemma_first_line_len(stream);
    if state.finished_by(whole) is None {
        law_message_fits(state.with_line(whole), stream.skip(n), message);
    }
}

/// A message with a dot put in front of each line that begins with one.
pub open spec fn stuffed(message: Seq<u8>) -> Seq<u8>
    decreases message.len(),
{
    if message.len() == 0 {
        Seq::empty()
    } else {
        let n = first_line_len(message) as int;
        proof {
            lemma_first_line_len(message);
        }
        stuffed_line(message.take(n)) + stuffed(message.skip(n))
    }
}

/// A line with a dot put in front if it begins with one.
pub open spec fn stuffed_line(line: Seq<u8>) -> Seq<u8> {
    if line.len() > 0 && line[0] == 46 {
        seq![46u8] + line
    } else {
        line
    }
}

/// The line that ends the data of a message.
pub open spec fn end_of_data() -> Seq<u8> {
    seq![46u8, 13, 10]
}

/// A message of whole lines that is sent with its dots stuffed is read back as it
/// was, whatever follows it; unless it is larger than allowed, and then it is
/// refused.
pub proof fn law_sent_message_is_read_back(message: Seq<u8>, rest: Seq<u8>, max: nat)
    requires
        message.len() > 0 ==> message.last() == 10,
    ensures
        read_stream(stuffed(message) + end_of_data() + rest, max) == if message.len() <= max {
            DataResult::Complete(message)
        } else {
            DataResult::TooLarge
        },
{
    let start = DataView { max, message: Seq::empty(), line: Seq::empty() };
    lemma_sent_lines(start, message, rest);
    assert(start.message + message =~= message);
}

proof fn lemma_sent_lines(state: DataView, message: Seq<u8>, rest: Seq<u8>)
    requires
        state.line.len() == 0,
        state.message.len() <= state.max,
        message.len() > 0 ==> message.last() == 10,
    ensures
        state.result(stuffed(message) + end_of_data() + rest) == if state.message.len()
            + message.len() <= state.max {
            DataResult::Complete(state.message + message)
        } else {
            DataResult::TooLarge
        },
    decreases message.len(),
{
    let stream = stuffed(message) + end_of_data() + rest;
    if message.len() == 0 {
        lemma_first_line_len_is(stream, 3);
        let whole = state.line + stream.take(3);
        assert(whole =~= end_of_data());
        assert(without_line_ending(end_of_data()) =~= seq![46u8]);
        assert(state.message + message =~= state.message);
    } else {
        let n = first_line_len(message) as int;
        lemma_first_line_len(message);
        let line = message.take(n);
        let later = message.skip(n);
        let sent = stuffed_line(line);
        assert(line.last() == 10);
        assert(stream =~= sent + (stuffed(later) + end_of_data() + rest));
        assert forall|j: int| 0 <= j < sent.len() - 1 implies stream[j] != 10 by {
            if sent.len() > line.len() {
                if j > 0 {
                    assert(stream[j] == line[j - 1]);
                }
            } else {
                assert(stream[j] == line[j]);
            }
        }
        assert(stream[sent.len() - 1] == 10);
        lemma_first_line_len_is(stream, sent.len() as int);
        let whole = state.line + stream.take(sent.len() as int);
        assert(whole =~= sent);
        assert(stream.skip(sent.len() as int) =~= stuffed(later) + end_of_data() + rest);
        lemma_sent_is_no_end(line);
        assert(unstuffed(sent) =~= line);
        if state.message.len() + line.len() <= state.max {
            let next = state.with_line(sent);
            assert(next.message =~= state.message + line);
            lemma_sent_lines(next, later, rest);
            assert(next.message + later =~= state.message + message);
        }
    }
}

proof fn lemma_sent_is_no_end(line: Seq<u8>)
    requires
        line.len() > 0,
        line.last() == 10,
    ensures
        !is_terminator(stuffed_line(line)),
{
    let sent = stuffed_line(line);
    let text = without_line_ending(sent);
    if line[0] == 46 {
        assert(sent[0] == 46 && sent[1] == 46);
        assert(text.len() >= 2);
    } else if text.len() > 0 {
        assert(text[0] == line[0]);
    }
}

/// A line loses the first of two dots that it begins with, and every other line, one with a
/// single dot too, is stored as it came.
pub proof fn law_stuffed_dot_is_taken_off(line: Seq<u8>)
    ensures
        unstuffed(seq![46u8, 46u8] + line) == seq![46u8] + line,
        line.len() < 2 || line[0] != 46 || line[1] != 46 ==> unstuffed(line) == line,
{
    assert(unstuffed(seq![46u8, 46u8] + line) =~= seq![46u8] + line);
}

/// The data of a message is read line by line. A dot alone on a line ends it; any other line
/// is added to the message, or refused where the message would become larger than allowed.
pub proof fn law_data_is_read_line_by_line(
    message: Seq<u8>,
    line: Seq<u8>,
    rest: Seq<u8>,
    max: nat,
)
    requires
        message.len() <= max,
        line.len() > 0,
        line.last() == 10,
        forall|i: int| 0 <= i < line.len() - 1 ==> #[trigger] line[i] != 10,
    ensures
        ({
            let state = DataView { max, message, line: Seq::empty() };
            let stored = if line.len() >= 2 && line[0] == 46 && line[1] == 46 {
                line.skip(1)
            } else {
                line
            };
            let next = DataView { max, message: message + stored, line: Seq::empty() };
            state.result(line + rest) == if line == seq![46u8, 10u8] || line == seq![
                46u8,
                13u8,
                10u8,
            ] {
                DataResult::Complete(message)
            } else if message.len() + stored.len() > max {
                DataResult::TooLarge
            } else {
                next.result(rest)
            }
        }),
{
    let state = DataView { max, message, line: Seq::empty() };
    let stream = line + rest;
    let n = line.len() as int;
    assert forall|j: int| 0 <= j < n - 1 implies stream[j] != 10 by {
        assert(stream[j] == line[j]);
    }
    assert(stream[n - 1] == line[n - 1]);
    lemma_first_line_len_is(stream, n);
    assert(state.line + stream.take(n) =~= line);
    assert(stream.skip(n) =~= rest);
    law_terminator(line);
}

/// Where the connection ends before the data does, there is no message.
pub proof fn law_unfinished_data_is_no_message(state: DataView)
    requires
        state.line.len() == 0,
    ensures
        state.result(Seq::empty()) == DataResult::Closed,
{
    let none: Seq<u8> = Seq::empty();
    assert(none.take(0) =~= none);
    assert(state.line + none =~= none);
}

/// What is there of a line where the connection ends counts as a line: a dot alone completes
/// the message, anything else is too much of it or leaves it without its end.
pub proof fn law_last_line_needs_no_ending(state: DataView)
    requires
        state.line.len() > 0,
        state.line.last() != 10,
    ensures
        state.line == seq![46u8] ==> state.result(Seq::empty()) == DataResult::Complete(
            state.message,
        ),
        state.line != seq![46u8] ==> state.result(Seq::empty()) == if state.message.len()
            + unstuffed(state.line).len() > state.max {
            DataResult::TooLarge
        } else {
            DataResult::Closed
        },
{
    let none: Seq<u8> = Seq::empty();
    assert(none.take(0) =~= none);
    assert(none.skip(0) =~= none);
    assert(state.line + none =~= state.line);
    law_terminator(state.line);
    law_unfinished_data_is_no_message(state.with_line(state.line));
}

/// A line of the data without its ending is kept while it could still be stored, or be the
/// line that ends the data; as soon as it cannot, the message is too large.
pub proof fn law_incomplete_data_lines(state: DataView, piece: Seq<u8>)
    requires
        state.message.len() <= state.max,
        piece.len() > 0,
        forall|i: int| 0 <= i < piece.len() ==> #[trigger] piece[i] != 10,
    ensures
        state.message.len() + state.line.len() + piece.len() > state.max + 3 ==> state.outcome(
            piece,
        ) == Some(DataResult::TooLarge) && state.taken(piece) == 0,
        state.message.len() + state.line.len() + piece.len() <= state.max + 3 ==> state.outcome(
            piece,
        ) is None && state.taken(piece) == piece.len() && state.next(piece) == (DataView {
            max: state.max,
            message: state.message,
            line: state.line + piece,
        }),
{
    let n = piece.len() as int;
    assert(piece[n - 1] != 10);
    lemma_first_line_len_is(piece, n);
    assert(piece.take(n) =~= piece);
}

/// A reader reports each end of reading by its own name.
pub proof fn law_results_of_reading(message: Vec<u8>)
    ensures
        data_result(Ok(message)) == DataResult::Complete(message@),
        data_result(Err(ReadDataError::TooLarge)) == DataResult::TooLarge,
        data_result(Err(ReadDataError::Closed)) == DataResult::Closed,
{
}

} // verus!
