//! What a sender's whole stream of bytes comes to, read as a connection wants
//! it read.
use vstd::prelude::*;
use vstd::utf8::*;

use crate::arrival;
use crate::arrival::ArrivedView;
use crate::ascii::{NEWLINE, RETURN, SPACE};
use crate::calendar;
use crate::connection;
use crate::connection::{ConnectionView, ProgressView, Stage, Want};
use crate::error::ProtocolError;
use crate::laws;
use crate::message;
use crate::node::Settings;
use crate::session;
use crate::session::{Gathering, SessionView};
use crate::text;

verus! {

/// What a read takes from the front of `stream`, and what it leaves.
pub open spec fn read_from(want: Want, stream: Seq<u8>) -> (Seq<u8>, Seq<u8>) {
    match want {
        Want::Peek => if stream.len() == 0 {
            (stream, stream)
        } else {
            (stream.take(1), stream)
        },
        Want::Until(byte) => match stream.index_of_first(byte) {
            Some(at) => (stream.take(at + 1), stream.skip(at + 1)),
            None => (stream, Seq::empty()),
        },
        Want::Exactly(count) => if count <= stream.len() {
            (stream.take(count as int), stream.skip(count as int))
        } else {
            (stream, Seq::empty())
        },
    }
}

/// How many reads a message is away at most, not counting the one at hand.
pub open spec fn reads_left(stage: Stage) -> nat {
    match stage {
        Stage::Opening => 2,
        Stage::Counting => 1,
        Stage::Counted(_) => 0,
        Stage::Line => 0,
    }
}

/// What comes next out of `stream`, and what is left of it.
pub open spec fn next_from(peer: Seq<char>, stage: Stage, stream: Seq<u8>) -> (
    ProgressView,
    Seq<u8>,
)
    decreases reads_left(stage),
{
    let (read, rest) = read_from(stage.wants(), stream);
    match connection::advance(peer, stage, read) {
        (next, ProgressView::Reading) => next_from(peer, next, rest),
        (_, done) => (done, rest),
    }
}

/// A read takes from the stream what it leaves out of it, and takes something
/// where it makes a message.
proof fn lemma_reads_get_on(peer: Seq<char>, stage: Stage, stream: Seq<u8>)
    ensures
        ({
            let (read, rest) = read_from(stage.wants(), stream);
            let (next, progress) = connection::advance(peer, stage, read);
            &&& rest.len() <= stream.len()
            &&& progress is Message ==> rest.len() < stream.len()
            &&& progress is Reading ==> reads_left(next) < reads_left(stage)
        }),
{
    stream.index_of_first_ensures(SPACE);
    stream.index_of_first_ensures(NEWLINE);
}

/// How a session with this `stream` ends, and what has arrived by then.
pub open spec fn run(session: SessionView, stream: Seq<u8>) -> (SessionView, Gathering)
    decreases stream.len(), reads_left(session.connection.stage),
    via run_gets_on
{
    let (read, rest) = read_from(session.connection.stage.wants(), stream);
    match session::gather(session, read) {
        (next, Gathering::Reading) => run(next, rest),
        done => done,
    }
}

#[via_fn]
proof fn run_gets_on(session: SessionView, stream: Seq<u8>) {
    lemma_reads_get_on(session.connection.peer, session.connection.stage, stream);
}

/// The octet count in front of a message is read back, or refused where it is
/// too large.
proof fn lemma_count_is_read(n: nat)
    ensures
        connection::count_of(encode_utf8(text::decimal(n) + " "@)) == if n
            <= connection::MAX_FRAME {
            Ok::<usize, ProtocolError>(n as usize)
        } else if n <= usize::MAX {
            Err::<usize, ProtocolError>(ProtocolError::CountTooLarge)
        } else {
            Err::<usize, ProtocolError>(ProtocolError::CountNotANumber)
        },
{
    let digits = text::decimal(n);
    let chars = digits + " "@;
    reveal_strlit(" ");
    text::lemma_decimal(n);
    encode_utf8_valid_utf8(chars);
    encode_utf8_decode_utf8(chars);
    assert(text::is_digit(chars[0])) by {
        assert(chars[0] == digits[0]);
    }
    assert(text::trim_start(chars) == chars);
    assert(chars.drop_last() =~= digits);
    assert(text::is_digit(digits.last()));
    assert(text::trim_end(digits) == digits);
    assert(text::trim_end(chars) == digits);
}

/// The first two reads of a frame: the first byte, the count.
proof fn lemma_count_reads(n: nat, behind: Seq<u8>)
    ensures
        ({
            let count = encode_utf8(text::decimal(n) + " "@);
            let stream = count + behind;
            &&& count.len() > 0
            &&& connection::is_digit(stream[0])
            &&& read_from(Want::Until(SPACE), stream) == (count, behind)
        }),
{
    let chars = text::decimal(n);
    let digits = encode_utf8(chars);
    let space = seq![SPACE];
    let count = encode_utf8(chars + " "@);
    let stream = count + behind;
    reveal_strlit(" ");
    text::lemma_ascii_text(space);
    assert(" "@ =~= Seq::new(space.len(), |i: int| space[i] as char));
    text::lemma_encode_concat(chars, " "@);
    text::lemma_decimal(n);
    assert(is_ascii_chars(chars));
    is_ascii_chars_encode_utf8(chars);
    assert forall|i: int| 0 <= i < digits.len() implies connection::is_digit(
        #[trigger] digits[i],
    ) by {
        assert(text::is_digit(chars[i]));
        assert(digits[i] == chars[i] as u8);
    }
    assert(!digits.contains(SPACE));
    assert(stream =~= digits + (seq![SPACE] + behind));
    laws::lemma_first(digits, SPACE, behind);
    assert(stream.take(digits.len() as int + 1) =~= count);
    assert(stream[0] == digits[0]);
}

/// The three reads of a frame: the first byte, the count, the message.
proof fn lemma_frame_reads(message: Seq<u8>, rest: Seq<u8>)
    requires
        message.len() <= connection::MAX_FRAME,
    ensures
        ({
            let stream = connection::frame_bytes(message) + rest;
            let count = encode_utf8(text::decimal(message.len()) + " "@);
            &&& stream.len() > 0
            &&& connection::is_digit(stream[0])
            &&& count.len() > 0
            &&& read_from(Want::Until(SPACE), stream) == (count, message + rest)
            &&& connection::count_of(count) == Ok::<usize, ProtocolError>(message.len() as usize)
            &&& read_from(Want::Exactly(message.len() as usize), message + rest) == (
                message,
                rest,
            )
        }),
{
    let count = encode_utf8(text::decimal(message.len()) + " "@);
    lemma_count_reads(message.len(), message + rest);
    assert(connection::frame_bytes(message) + rest =~= count + (message + rest));
    lemma_count_is_read(message.len());
    assert((message + rest).take(message.len() as int) =~= message);
    assert((message + rest).skip(message.len() as int) =~= rest);
}

/// Octet counting gives each message back as it was framed, whatever follows.
pub proof fn law_frame_is_read(peer: Seq<char>, message: Seq<u8>, rest: Seq<u8>)
    requires
        message.len() <= connection::MAX_FRAME,
    ensures
        next_from(peer, Stage::Opening, connection::frame_bytes(message) + rest) == (
            connection::delivered(peer, message),
            rest,
        ),
{
    lemma_frame_reads(message, rest);
    reveal_with_fuel(next_from, 4);
}

/// The first digits of an octet count are read as a count no larger, and only
/// that of an empty message as zero.
proof fn lemma_broken_count(n: nat, kept: int)
    requires
        n <= connection::MAX_FRAME,
        0 < kept <= text::decimal(n).len(),
    ensures
        ({
            let part = encode_utf8(text::decimal(n)).take(kept);
            &&& encode_utf8(text::decimal(n)).len() == text::decimal(n).len()
            &&& part.len() == kept
            &&& connection::is_digit(part[0])
            &&& !part.contains(SPACE)
            &&& connection::count_of(part) matches Ok(count)
            &&& count == 0 <==> n == 0
        }),
{
    let all = text::decimal(n);
    let chars = all.take(kept);
    let part = encode_utf8(all).take(kept);
    text::lemma_decimal(n);
    assert(is_ascii_chars(all));
    is_ascii_chars_encode_utf8(all);
    assert(is_ascii_chars(chars));
    is_ascii_chars_encode_utf8(chars);
    assert(encode_utf8(chars) =~= part);
    encode_utf8_valid_utf8(chars);
    encode_utf8_decode_utf8(chars);
    assert forall|i: int| 0 <= i < part.len() implies connection::is_digit(#[trigger] part[i]) by {
        assert(text::is_digit(all[i]));
        assert(part[i] == all[i] as u8);
    }
    assert(text::all_digits(chars)) by {
        assert forall|i: int| 0 <= i < chars.len() implies text::is_digit(#[trigger] chars[i]) by {
            assert(text::is_digit(all[i]));
        }
    }
    assert(text::is_digit(chars[0]) && text::is_digit(chars.last()));
    assert(text::trim(chars) == chars);
    text::lemma_value_prefix(all, kept);
    text::lemma_value_prefix(chars, 1);
    let first = chars.take(1);
    assert(first.drop_last() =~= Seq::<char>::empty());
    assert(text::value(first) == (all[0] as u32 - '0' as u32) as nat) by {
        reveal_with_fuel(text::value, 2);
    }
    if n > 0 {
        text::lemma_first_digit(n);
    }
}

/// A frame that breaks off is refused, wherever it does: no message comes of
/// it, and nothing is left.
pub proof fn law_broken_frame_is_refused(peer: Seq<char>, message: Seq<u8>, kept: int)
    requires
        message.len() <= connection::MAX_FRAME,
        0 < kept < connection::frame_bytes(message).len(),
    ensures
        ({
            let (progress, rest) = next_from(
                peer,
                Stage::Opening,
                connection::frame_bytes(message).take(kept),
            );
            &&& progress is Refused
            &&& message.len() > 0 ==> progress == ProgressView::Refused(ProtocolError::BrokenOff)
            &&& rest == Seq::<u8>::empty()
        }),
{
    let stream = connection::frame_bytes(message).take(kept);
    let digits = encode_utf8(text::decimal(message.len()));
    let count = encode_utf8(text::decimal(message.len()) + " "@);
    let space = seq![SPACE];
    reveal_strlit(" ");
    text::lemma_ascii_text(space);
    assert(" "@ =~= Seq::new(space.len(), |i: int| space[i] as char));
    text::lemma_encode_concat(text::decimal(message.len()), " "@);
    assert(count == digits + space);
    text::lemma_decimal(message.len());
    reveal_with_fuel(next_from, 4);
    if kept >= count.len() {
        let part = message.take(kept - count.len());
        assert(stream =~= count + part);
        lemma_count_reads(message.len(), part);
        lemma_count_is_read(message.len());
    } else {
        lemma_broken_count(message.len(), text::decimal(message.len()).len() as int);
        lemma_broken_count(message.len(), kept);
        assert(stream =~= digits.take(kept));
        stream.index_of_first_ensures(SPACE);
    }
}

/// An octet count over the largest frame is refused, and the message behind it
/// stays unread. One that a `usize` does not hold is no number.
pub proof fn law_large_count_is_refused(peer: Seq<char>, n: nat, behind: Seq<u8>)
    requires
        n > connection::MAX_FRAME,
    ensures
        next_from(
            peer,
            Stage::Opening,
            encode_utf8(text::decimal(n) + " "@) + behind,
        ) == (
            ProgressView::Refused(
                if n <= usize::MAX {
                    ProtocolError::CountTooLarge
                } else {
                    ProtocolError::CountNotANumber
                },
            ),
            behind,
        ),
{
    lemma_count_reads(n, behind);
    lemma_count_is_read(n);
    reveal_with_fuel(next_from, 3);
}

/// `line` can go as a line: it is not taken for a count, and no newline ends it
/// early.
pub open spec fn can_be_a_line(line: Seq<u8>) -> bool {
    &&& !line.contains(NEWLINE)
    &&& line.len() > 0 ==> !connection::is_digit(line[0])
}

/// A line is taken without the line ends that close it, however many they are,
/// and whatever follows.
pub proof fn law_line_is_read(peer: Seq<char>, line: Seq<u8>, rest: Seq<u8>)
    requires
        can_be_a_line(line),
    ensures
        next_from(peer, Stage::Opening, line + seq![NEWLINE] + rest) == (
            connection::delivered(peer, connection::line_of(line)),
            rest,
        ),
{
    let stream = line + seq![NEWLINE] + rest;
    assert(stream =~= line + (seq![NEWLINE] + rest));
    laws::lemma_first(line, NEWLINE, rest);
    let read = stream.take(line.len() as int + 1);
    assert(read =~= line + seq![NEWLINE]);
    assert(read.drop_last() =~= line);
    assert(stream.take(1)[0] == stream[0]);
    assert(line.len() > 0 ==> stream[0] == line[0]);
    reveal_with_fuel(next_from, 3);
}

/// A line end, of either kind.
pub open spec fn is_line_end(end: Seq<u8>) -> bool {
    end == seq![NEWLINE] || end == seq![RETURN, NEWLINE]
}

/// A message that goes as a line, and does not end in a line end itself, is
/// given back as it was, whatever follows.
pub proof fn law_message_goes_as_a_line(
    peer: Seq<char>,
    message: Seq<u8>,
    end: Seq<u8>,
    rest: Seq<u8>,
)
    requires
        can_be_a_line(message),
        message.len() > 0 ==> message.last() != RETURN,
        is_line_end(end),
    ensures
        next_from(peer, Stage::Opening, message + end + rest) == (
            connection::delivered(peer, message),
            rest,
        ),
{
    let line = message + end.drop_last();
    assert(message.len() > 0 ==> message.last() != NEWLINE) by {
        if message.len() > 0 {
            assert(message[message.len() - 1] == message.last());
        }
    }
    assert(connection::line_of(message) == message);
    if end.len() == 2 {
        assert(line.drop_last() =~= message);
    } else {
        assert(line =~= message);
    }
    assert(!line.contains(NEWLINE)) by {
        if line.contains(NEWLINE) {
            let i = choose|i: int| 0 <= i < line.len() && line[i] == NEWLINE;
            if i < message.len() {
                assert(message[i] == NEWLINE);
            }
        }
    }
    assert(message.len() > 0 ==> line[0] == message[0]);
    law_line_is_read(peer, line, rest);
    assert(line + seq![NEWLINE] + rest =~= message + end + rest);
}

/// A line that breaks off is refused: where the stream ends before the line end
/// does, there is no message.
pub proof fn law_broken_line_is_refused(peer: Seq<char>, part: Seq<u8>)
    requires
        part.len() > 0,
        !connection::is_digit(part[0]),
        !part.contains(NEWLINE),
    ensures
        next_from(peer, Stage::Opening, part) == (
            ProgressView::Refused(ProtocolError::BrokenOff),
            Seq::<u8>::empty(),
        ),
{
    part.index_of_first_ensures(NEWLINE);
    assert(part[part.len() - 1] == part.last());
    reveal_with_fuel(next_from, 3);
}

/// Where a sender closes between messages, it is closed.
pub proof fn law_end_is_closed(peer: Seq<char>)
    ensures
        next_from(peer, Stage::Opening, Seq::empty()) == (
            ProgressView::Closed,
            Seq::<u8>::empty(),
        ),
{
}

/// Messages as frames, one after the other.
pub open spec fn frames(messages: Seq<Seq<u8>>) -> Seq<u8>
    decreases messages.len(),
{
    if messages.len() == 0 {
        Seq::empty()
    } else {
        connection::frame_bytes(messages[0]) + frames(messages.drop_first())
    }
}

/// What each of `messages` arrives as.
pub open spec fn arrivals(peer: Seq<char>, messages: Seq<Seq<u8>>) -> Seq<ArrivedView> {
    Seq::new(messages.len(), |i: int| arrival::arrival(peer, messages[i])->Ok_0)
}

/// A read goes into a session as it goes into the connection.
proof fn lemma_run_step(session: SessionView, stream: Seq<u8>)
    ensures
        ({
            let peer = session.connection.peer;
            let stage = session.connection.stage;
            let (read, rest) = read_from(stage.wants(), stream);
            let (next, progress) = connection::advance(peer, stage, read);
            let connection = ConnectionView { peer, stage: next };
            run(session, stream) == match progress {
                ProgressView::Reading => run(SessionView { connection, ..session }, rest),
                ProgressView::Message(message) => run(
                    SessionView { connection, arrived: session.arrived.push(message) },
                    rest,
                ),
                ProgressView::Closed => (
                    SessionView { connection, ..session },
                    Gathering::Finished,
                ),
                ProgressView::Refused(error) => (
                    SessionView { connection, ..session },
                    Gathering::Refused(error),
                ),
            }
        }),
{
    lemma_reads_get_on(session.connection.peer, session.connection.stage, stream);
}

/// A session takes the next message and goes on, until the sender closes or
/// something is refused.
pub proof fn law_session_takes_each_message(session: SessionView, stream: Seq<u8>)
    requires
        session.connection.stage == Stage::Opening,
    ensures
        ({
            let (progress, rest) = next_from(session.connection.peer, Stage::Opening, stream);
            &&& progress !is Reading
            &&& progress matches ProgressView::Message(message) ==> run(session, stream) == run(
                SessionView { arrived: session.arrived.push(message), ..session },
                rest,
            )
            &&& progress is Closed ==> run(session, stream) == (session, Gathering::Finished)
            &&& progress matches ProgressView::Refused(error) ==> run(session, stream) == (
                session,
                Gathering::Refused(error),
            )
        }),
{
    let peer = session.connection.peer;
    reveal_with_fuel(next_from, 4);
    lemma_run_step(session, stream);
    let (stage, progress) = connection::advance(
        peer,
        Stage::Opening,
        read_from(Want::Peek, stream).0,
    );
    if progress is Reading {
        let second = SessionView { connection: ConnectionView { peer, stage }, ..session };
        lemma_run_step(second, stream);
        let (read, rest) = read_from(stage.wants(), stream);
        let (counted, progress) = connection::advance(peer, stage, read);
        if progress is Reading {
            let third = SessionView {
                connection: ConnectionView { peer, stage: counted },
                ..session
            };
            lemma_run_step(third, rest);
        }
    }
}

/// All that a sender frames arrives, in its order, whatever it sends then.
pub proof fn law_frames_arrive_first(session: SessionView, messages: Seq<Seq<u8>>, then: Seq<u8>)
    requires
        session.connection.stage == Stage::Opening,
        forall|i: int|
            0 <= i < messages.len() ==> message::is_message(#[trigger] messages[i])
                && messages[i].len() <= connection::MAX_FRAME,
    ensures
        run(session, frames(messages) + then) == run(
            SessionView {
                arrived: session.arrived + arrivals(session.connection.peer, messages),
                ..session
            },
            then,
        ),
    decreases messages.len(),
{
    let peer = session.connection.peer;
    if messages.len() == 0 {
        assert(session.arrived + arrivals(peer, messages) =~= session.arrived);
        assert(frames(messages) + then =~= then);
    } else {
        let first = messages[0];
        let more = messages.drop_first();
        let next = SessionView {
            arrived: session.arrived.push(arrival::arrival(peer, first)->Ok_0),
            ..session
        };
        let behind = frames(more) + then;
        assert(frames(messages) + then =~= connection::frame_bytes(first) + behind);
        law_frame_is_read(peer, first, behind);
        law_session_takes_each_message(session, frames(messages) + then);
        law_frames_arrive_first(next, more, then);
        assert(next.arrived + arrivals(peer, more) =~= session.arrived + arrivals(peer, messages));
    }
}

/// All that a sender frames arrives, in its order, by the time it closes.
pub proof fn law_all_frames_arrive(session: SessionView, messages: Seq<Seq<u8>>)
    requires
        session.connection.stage == Stage::Opening,
        forall|i: int|
            0 <= i < messages.len() ==> message::is_message(#[trigger] messages[i])
                && messages[i].len() <= connection::MAX_FRAME,
    ensures
        run(session, frames(messages)) == (
            SessionView {
                arrived: session.arrived + arrivals(session.connection.peer, messages),
                ..session
            },
            Gathering::Finished,
        ),
{
    let none = Seq::<u8>::empty();
    let last = SessionView {
        arrived: session.arrived + arrivals(session.connection.peer, messages),
        ..session
    };
    law_frames_arrive_first(session, messages, none);
    assert(frames(messages) + none =~= frames(messages));
    law_end_is_closed(session.connection.peer);
    law_session_takes_each_message(last, none);
}

/// A sender that closes in the middle of a frame has its session refused,
/// whatever it framed before.
pub proof fn law_broken_session_is_refused(
    session: SessionView,
    messages: Seq<Seq<u8>>,
    message: Seq<u8>,
    kept: int,
)
    requires
        session.connection.stage == Stage::Opening,
        forall|i: int|
            0 <= i < messages.len() ==> message::is_message(#[trigger] messages[i])
                && messages[i].len() <= connection::MAX_FRAME,
        message.len() <= connection::MAX_FRAME,
        0 < kept < connection::frame_bytes(message).len(),
    ensures
        run(session, frames(messages) + connection::frame_bytes(message).take(kept)).1 is Refused,
{
    let part = connection::frame_bytes(message).take(kept);
    let last = SessionView {
        arrived: session.arrived + arrivals(session.connection.peer, messages),
        ..session
    };
    law_frames_arrive_first(session, messages, part);
    law_broken_frame_is_refused(session.connection.peer, message, kept);
    law_session_takes_each_message(last, part);
}

/// A payload that a node frames arrives as the payload, from an origin that
/// names the node.
pub proof fn law_frame_carries_the_payload(
    node: Settings,
    timestamp: Seq<char>,
    payload: Seq<u8>,
    peer: Seq<char>,
    rest: Seq<u8>,
)
    requires
        laws::can_be_named(node),
        calendar::is_timestamp(timestamp),
        !message::is_message(payload),
        node.composed(timestamp, payload).len() <= connection::MAX_FRAME,
    ensures
        next_from(
            peer,
            Stage::Opening,
            connection::frame_bytes(node.composed(timestamp, payload)) + rest,
        ) == (
            ProgressView::Message(
                ArrivedView {
                    origin_uri: arrival::origin(peer, laws::masked(node.header(timestamp))),
                    bytes: payload,
                },
            ),
            rest,
        ),
{
    laws::law_datagram_carries_the_payload(node, timestamp, payload, peer);
    law_frame_is_read(peer, node.composed(timestamp, payload), rest);
}

} // verus!
