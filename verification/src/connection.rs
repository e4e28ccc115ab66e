//! One TCP sender's messages, octet-counted or newline-terminated, RFC 6587.
//!
//! A connection decides what is to be read next and what is made of it; the
//! reading itself is its caller's.
use vstd::prelude::*;
use vstd::utf8::*;

use crate::arrival;
use crate::arrival::{Arrived, ArrivedView};
use crate::ascii::{NEWLINE, NINE, RETURN, SPACE, ZERO};
use crate::error::ProtocolError;
use crate::text;

verus! {

/// The most an octet-counted frame may say before it is refused.
pub const MAX_FRAME: usize = 16_777_216;

/// What a connection is in the middle of.
#[derive(Clone, Copy, Debug, PartialEq, Eq, Structural)]
pub enum Stage {
    /// Between messages.
    Opening,
    /// The octet count of a frame comes next.
    Counting,
    /// So many octets of a message come next.
    Counted(usize),
    /// A line comes next.
    Line,
}

/// What is to be read.
#[derive(Clone, Copy, Debug, PartialEq, Eq, Structural)]
pub enum Want {
    /// The next byte, which stays unread; nothing where the sender closed.
    Peek,
    /// Everything up to this byte, the byte included, or up to the end.
    Until(u8),
    /// So many bytes, or fewer where the sender closes before.
    Exactly(usize),
}

impl Stage {
    /// What is to be read at this stage.
    pub open spec fn wants(self) -> Want {
        match self {
            Stage::Opening => Want::Peek,
            Stage::Counting => Want::Until(SPACE),
            Stage::Counted(count) => Want::Exactly(count),
            Stage::Line => Want::Until(NEWLINE),
        }
    }
}

/// What came of a read.
#[derive(Clone, Debug, PartialEq, Eq)]
pub enum Progress {
    /// More is to be read.
    Reading,
    /// The next message.
    Message(Arrived),
    /// The sender closed between messages.
    Closed,
    /// What was sent is refused.
    Refused(ProtocolError),
}

/// What came of a read, the message as what it says.
pub enum ProgressView {
    Reading,
    Message(ArrivedView),
    Closed,
    Refused(ProtocolError),
}

impl View for Progress {
    type V = ProgressView;

    open spec fn view(&self) -> ProgressView {
        match *self {
            Progress::Reading => ProgressView::Reading,
            Progress::Message(message) => ProgressView::Message(message@),
            Progress::Closed => ProgressView::Closed,
            Progress::Refused(error) => ProgressView::Refused(error),
        }
    }
}

/// `byte` is an ASCII digit.
pub open spec fn is_digit(byte: u8) -> bool {
    ZERO <= byte <= NINE
}

/// The octet count that `raw` writes.
pub open spec fn count_of(raw: Seq<u8>) -> Result<usize, ProtocolError> {
    match text::strict(raw) {
        Some(chars) => match text::number(text::trim(chars)) {
            Some(count) => if count <= MAX_FRAME {
                Ok(count as usize)
            } else if count <= usize::MAX {
                Err(ProtocolError::CountTooLarge)
            } else {
                Err(ProtocolError::CountNotANumber)
            },
            None => Err(ProtocolError::CountNotANumber),
        },
        None => Err(ProtocolError::CountNotANumber),
    }
}

/// `raw` without the line ends that close it.
pub open spec fn line_of(raw: Seq<u8>) -> Seq<u8>
    decreases raw.len(),
{
    if raw.len() > 0 && (raw.last() == NEWLINE || raw.last() == RETURN) {
        line_of(raw.drop_last())
    } else {
        raw
    }
}

/// `raw` taken as a message from `peer`.
pub open spec fn delivered(peer: Seq<char>, raw: Seq<u8>) -> ProgressView {
    match arrival::arrival(peer, raw) {
        Ok(message) => ProgressView::Message(message),
        Err(error) => ProgressView::Refused(error),
    }
}

/// What comes of reading `read` at `stage`, and the stage that follows.
pub open spec fn advance(peer: Seq<char>, stage: Stage, read: Seq<u8>) -> (Stage, ProgressView) {
    match stage {
        Stage::Opening => if read.len() == 0 {
            (Stage::Opening, ProgressView::Closed)
        } else if is_digit(read[0]) {
            (Stage::Counting, ProgressView::Reading)
        } else {
            (Stage::Line, ProgressView::Reading)
        },
        Stage::Counting => match count_of(read) {
            Ok(count) => (Stage::Counted(count), ProgressView::Reading),
            Err(error) => (Stage::Opening, ProgressView::Refused(error)),
        },
        Stage::Counted(count) => if read.len() == count {
            (Stage::Opening, delivered(peer, read))
        } else {
            (Stage::Opening, ProgressView::Refused(ProtocolError::BrokenOff))
        },
        Stage::Line => if read.len() > 0 && read.last() == NEWLINE {
            (Stage::Opening, delivered(peer, line_of(read)))
        } else {
            (Stage::Opening, ProgressView::Refused(ProtocolError::BrokenOff))
        },
    }
}

/// A message as an octet-counted frame: its length in decimal, a space, and
/// the message.
pub open spec fn frame_bytes(message: Seq<u8>) -> Seq<u8> {
    encode_utf8(text::decimal(message.len()) + " "@) + message
}

/// `message` as an octet-counted frame.
pub fn frame(message: &[u8]) -> (r: Vec<u8>)
    ensures
        r@ == frame_bytes(message@),
{
    let mut count: String = String::new();
    text::append_decimal(&mut count, message.len() as u64);
    count.append(" ");
    proof {
        assert(count@ =~= text::decimal(message@.len()) + " "@);
    }
    let mut out: Vec<u8> = count.as_str().as_bytes_vec();
    out.extend_from_slice(message);
    proof {
        assert(out@ =~= frame_bytes(message@));
    }
    out
}

/// The octet count of a frame, from what was read up to the space.
///
/// # Errors
/// Where that is not a number, or one over [`MAX_FRAME`].
pub fn octet_count(raw: &[u8]) -> (r: Result<usize, ProtocolError>)
    ensures
        r == count_of(raw@),
{
    match text::from_utf8(raw) {
        Some(chars) => {
            let chars: Vec<char> = text::chars_of(chars);
            match text::read_number(text::trimmed(chars.as_slice())) {
                Some(count) => if count > MAX_FRAME {
                    Err(ProtocolError::CountTooLarge)
                } else {
                    Ok(count)
                },
                None => Err(ProtocolError::CountNotANumber),
            }
        },
        None => Err(ProtocolError::CountNotANumber),
    }
}

/// `raw` without the line ends that close it.
pub fn without_line_ends(raw: &[u8]) -> (r: &[u8])
    ensures
        r@ == line_of(raw@),
{
    let mut end: usize = raw.len();
    proof {
        assert(raw@.take(end as int) == raw@);
    }
    while end > 0 && (raw[end - 1] == NEWLINE || raw[end - 1] == RETURN)
        invariant
            end <= raw.len(),
            line_of(raw@) == line_of(raw@.take(end as int)),
        decreases end,
    {
        proof {
            assert(raw@.take(end as int).drop_last() == raw@.take(end - 1));
        }
        end = end - 1;
    }
    proof {
        assert(raw@.take(end as int) == raw@.subrange(0, end as int));
    }
    vstd::slice::slice_subrange(raw, 0, end)
}

/// One TCP sender.
#[derive(Clone, Debug, PartialEq, Eq)]
pub struct Connection {
    peer: String,
    stage: Stage,
}

/// Who sends, and what the connection is in the middle of.
#[verifier::ext_equal]
pub struct ConnectionView {
    pub peer: Seq<char>,
    pub stage: Stage,
}

impl View for Connection {
    type V = ConnectionView;

    closed spec fn view(&self) -> ConnectionView {
        ConnectionView { peer: self.peer@, stage: self.stage }
    }
}

impl Connection {
    /// A sender at `peer`, of whom nothing has been read.
    pub fn new(peer: &str) -> (r: Self)
        ensures
            r@ == (ConnectionView { peer: peer@, stage: Stage::Opening }),
    {
        Connection { peer: peer.to_string(), stage: Stage::Opening }
    }

    /// What is to be read next.
    pub fn wants(&self) -> (r: Want)
        ensures
            r == self@.stage.wants(),
    {
        match self.stage {
            Stage::Opening => Want::Peek,
            Stage::Counting => Want::Until(SPACE),
            Stage::Counted(count) => Want::Exactly(count),
            Stage::Line => Want::Until(NEWLINE),
        }
    }

    /// Go on with what was read: the next message, or that the sender closed
    /// between messages, or that more is to be read.
    ///
    /// A frame that breaks off is refused, an octet count that is no number or
    /// is over [`MAX_FRAME`], and a message that is not RFC 5424.
    pub fn next_message(&mut self, read: &[u8]) -> (r: Progress)
        ensures
            final(self)@.peer == old(self)@.peer,
            (final(self)@.stage, r@) == advance(old(self)@.peer, old(self)@.stage, read@),
    {
        match self.stage {
            Stage::Opening => {
                if read.len() == 0 {
                    return Progress::Closed;
                }
                if ZERO <= read[0] && read[0] <= NINE {
                    self.stage = Stage::Counting;
                } else {
                    self.stage = Stage::Line;
                }
                Progress::Reading
            },
            Stage::Counting => match octet_count(read) {
                Ok(count) => {
                    self.stage = Stage::Counted(count);
                    Progress::Reading
                },
                Err(error) => {
                    self.stage = Stage::Opening;
                    Progress::Refused(error)
                },
            },
            Stage::Counted(count) => {
                self.stage = Stage::Opening;
                if read.len() != count {
                    return Progress::Refused(ProtocolError::BrokenOff);
                }
                self.deliver(read)
            },
            Stage::Line => {
                self.stage = Stage::Opening;
                if read.len() == 0 || read[read.len() - 1] != NEWLINE {
                    return Progress::Refused(ProtocolError::BrokenOff);
                }
                self.deliver(without_line_ends(read))
            },
        }
    }

    /// `raw` as a message from this sender.
    fn deliver(&self, raw: &[u8]) -> (r: Progress)
        ensures
            r@ == delivered(self@.peer, raw@),
    {
        match arrival::arrived(self.peer.as_str(), raw) {
            Ok(message) => Progress::Message(message),
            Err(error) => Progress::Refused(error),
        }
    }

    /// Give up what is being read, after a read that failed.
    pub fn abandon(&mut self)
        ensures
            final(self)@ == (ConnectionView { peer: old(self)@.peer, stage: Stage::Opening }),
    {
        self.stage = Stage::Opening;
    }
}

} // verus!
