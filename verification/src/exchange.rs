//! What a connection and a session make of what they read, told of every read
//! and of every stream.
use vstd::prelude::*;
use vstd::utf8::*;

use crate::arrival;
use crate::arrival::{Arrived, ArrivedView};
use crate::ascii::{NEWLINE, RETURN, SPACE};
use crate::connection;
use crate::connection::{ConnectionView, Progress, ProgressView, Stage, Want};
use crate::error::ProtocolError;
use crate::grammar;
use crate::laws;
use crate::message;
use crate::session;
use crate::session::{Gathering, SessionView};
use crate::stream;
use crate::text;

verus! {

/// What comes of `message` from `peer`: where it is a message, MSG arrives with
/// its origin, and else it is refused with the error that reading it gives.
pub open spec fn answers(progress: ProgressView, peer: Seq<char>, message: Seq<u8>) -> bool {
    match message::read_message(message) {
        Ok((header, msg)) => progress == ProgressView::Message(
            ArrivedView { origin_uri: arrival::origin(peer, header), bytes: msg },
        ),
        Err(error) => progress == ProgressView::Refused(error),
    }
}

/// Line ends, any number of them.
pub open spec fn are_line_ends(bytes: Seq<u8>) -> bool {
    forall|i: int|
        0 <= i < bytes.len() ==> #[trigger] bytes[i] == NEWLINE || bytes[i] == RETURN
}

/// `line` does not end in a line end.
pub open spec fn is_stripped(line: Seq<u8>) -> bool {
    line.len() > 0 ==> line[line.len() - 1] != NEWLINE && line[line.len() - 1] != RETURN
}

/// A line loses all the line ends that close it, and nothing else.
pub proof fn law_line_ends_are_stripped(line: Seq<u8>, ends: Seq<u8>)
    requires
        is_stripped(line),
        are_line_ends(ends),
    ensures
        connection::line_of(line + ends) == line,
    decreases ends.len(),
{
    let all = line + ends;
    if ends.len() > 0 {
        assert(all.last() == ends[ends.len() - 1]);
        assert(all.drop_last() =~= line + ends.drop_last());
        law_line_ends_are_stripped(line, ends.drop_last());
    } else {
        assert(all =~= line);
        if line.len() > 0 {
            assert(line.last() == line[line.len() - 1]);
        }
    }
}

/// An octet count is digits, with white space around them or without. One over
/// the largest frame is too large, and one that a `usize` does not hold is no
/// number.
pub proof fn law_count_is_read(before: Seq<char>, digits: Seq<u8>, after: Seq<char>)
    requires
        text::all_white(before),
        text::all_white(after),
        grammar::are_digits(digits),
    ensures
        connection::count_of(encode_utf8(before) + digits + encode_utf8(after)) == if
            grammar::number_of(digits) <= 16_777_216 {
            Ok::<usize, ProtocolError>(grammar::number_of(digits) as usize)
        } else if grammar::number_of(digits) <= usize::MAX {
            Err::<usize, ProtocolError>(ProtocolError::CountTooLarge)
        } else {
            Err::<usize, ProtocolError>(ProtocolError::CountNotANumber)
        },
{
    let chars = text::strict(digits)->0;
    let raw = encode_utf8(before) + digits + encode_utf8(after);
    let all = before + chars + after;
    grammar::lemma_digits_are_read(digits);
    decode_utf8_encode_utf8(digits);
    text::lemma_encode_concat(before, chars);
    text::lemma_encode_concat(before + chars, after);
    assert(raw == encode_utf8(all));
    encode_utf8_valid_utf8(all);
    encode_utf8_decode_utf8(all);
    assert(text::is_digit(chars[0]) && text::is_digit(chars[chars.len() - 1]));
    text::law_white_space_is_trimmed(before, chars, after);
}

/// Nothing else is an octet count.
pub proof fn law_other_count_is_refused(raw: Seq<u8>)
    requires
        forall|before: Seq<char>, digits: Seq<u8>, after: Seq<char>|
            text::all_white(before) && grammar::are_digits(digits) && text::all_white(after)
                ==> raw != #[trigger] (encode_utf8(before) + digits + encode_utf8(after)),
    ensures
        connection::count_of(raw) == Err::<usize, ProtocolError>(ProtocolError::CountNotANumber),
{
    if text::strict(raw) is Some {
        let chars = text::strict(raw)->0;
        let inner = text::trim(chars);
        if text::number(inner) is Some {
            let (before, after) = text::trimmed_off(chars);
            let digits = encode_utf8(inner);
            decode_utf8_encode_utf8(raw);
            text::lemma_encode_concat(before, inner);
            text::lemma_encode_concat(before + inner, after);
            grammar::lemma_number_bytes(inner);
            assert(raw == encode_utf8(before) + digits + encode_utf8(after));
        }
    }
}

/// At each stage it is read what that stage is for: the first byte, a count up
/// to its space, as many bytes as were counted, a line up to its end.
pub proof fn law_each_stage_reads_its_own(count: usize)
    ensures
        Stage::Opening.wants() == Want::Peek,
        Stage::Counting.wants() == Want::Until(0x20),
        Stage::Counted(count).wants() == Want::Exactly(count),
        Stage::Line.wants() == Want::Until(0x0a),
{
}

/// Between messages, nothing read means that the sender closed, a digit opens a
/// count, and any other byte a line.
pub proof fn law_first_byte_decides(peer: Seq<char>, read: Seq<u8>)
    ensures
        read.len() == 0 ==> connection::advance(peer, Stage::Opening, read) == (
            Stage::Opening,
            ProgressView::Closed,
        ),
        read.len() > 0 ==> connection::advance(peer, Stage::Opening, read) == (
            if 0x30 <= read[0] <= 0x39 {
                Stage::Counting
            } else {
                Stage::Line
            },
            ProgressView::Reading,
        ),
{
}

/// A count that is read says how much is to be read, and one that is not is
/// refused.
pub proof fn law_count_decides(peer: Seq<char>, read: Seq<u8>)
    ensures
        match connection::count_of(read) {
            Ok(count) => connection::advance(peer, Stage::Counting, read) == (
                Stage::Counted(count),
                ProgressView::Reading,
            ),
            Err(error) => connection::advance(peer, Stage::Counting, read) == (
                Stage::Opening,
                ProgressView::Refused(error),
            ),
        },
{
}

/// As many bytes as were counted are a message, or are refused for what is wrong
/// with them. Any other number is a frame that breaks off.
pub proof fn law_counted_bytes_are_answered(peer: Seq<char>, count: usize, read: Seq<u8>)
    ensures
        connection::advance(peer, Stage::Counted(count), read).0 == Stage::Opening,
        read.len() == count ==> answers(
            connection::advance(peer, Stage::Counted(count), read).1,
            peer,
            read,
        ),
        read.len() != count ==> connection::advance(peer, Stage::Counted(count), read).1
            == ProgressView::Refused(ProtocolError::BrokenOff),
{
}

/// A line with its end is a message once its line ends are off, or is refused
/// for what is wrong with it. A line without its end breaks off.
pub proof fn law_line_is_answered(peer: Seq<char>, line: Seq<u8>, ends: Seq<u8>)
    requires
        is_stripped(line),
        are_line_ends(ends),
    ensures
        connection::advance(peer, Stage::Line, line + ends).0 == Stage::Opening,
        ends.len() > 0 && ends[ends.len() - 1] == NEWLINE ==> answers(
            connection::advance(peer, Stage::Line, line + ends).1,
            peer,
            line,
        ),
        ends.len() == 0 || ends[ends.len() - 1] != NEWLINE ==> connection::advance(
            peer,
            Stage::Line,
            line + ends,
        ).1 == ProgressView::Refused(ProtocolError::BrokenOff),
{
    let read = line + ends;
    law_line_ends_are_stripped(line, ends);
    if ends.len() > 0 {
        assert(read.last() == ends[ends.len() - 1]);
    } else if line.len() > 0 {
        assert(read.last() == line[line.len() - 1]);
    }
}

/// The sender is said to have closed only between messages, where nothing was
/// read.
pub proof fn law_closed_is_said_of_nothing(peer: Seq<char>, stage: Stage, read: Seq<u8>)
    ensures
        connection::advance(peer, stage, read).1 is Closed <==> stage == Stage::Opening
            && read.len() == 0,
{
}

/// Closed comes out only of an empty stream.
pub proof fn law_only_the_end_is_closed(peer: Seq<char>, stream: Seq<u8>)
    ensures
        stream::next_from(peer, Stage::Opening, stream).0 is Closed <==> stream.len() == 0,
{
    reveal_with_fuel(stream::next_from, 4);
    let stage = connection::advance(
        peer,
        Stage::Opening,
        stream::read_from(Want::Peek, stream).0,
    ).0;
    let (read, rest) = stream::read_from(stage.wants(), stream);
    let counted = connection::advance(peer, stage, read).0;
    law_closed_is_said_of_nothing(peer, stage, read);
    law_closed_is_said_of_nothing(
        peer,
        counted,
        stream::read_from(counted.wants(), rest).0,
    );
}

/// Whatever bytes come with their count, leading zeros or not, they arrive if
/// they are a message, and else are refused with the error that reading them
/// gives. What follows is left.
pub proof fn law_counted_frame_is_answered(
    peer: Seq<char>,
    digits: Seq<u8>,
    message: Seq<u8>,
    rest: Seq<u8>,
)
    requires
        grammar::are_digits(digits),
        grammar::number_of(digits) == message.len(),
        message.len() <= 16_777_216,
    ensures
        ({
            let (progress, left) = stream::next_from(
                peer,
                Stage::Opening,
                digits + seq![SPACE] + message + rest,
            );
            &&& answers(progress, peer, message)
            &&& left == rest
        }),
{
    let all = digits + seq![SPACE] + message + rest;
    let behind = message + rest;
    let none = Seq::<char>::empty();
    let space = seq![' '];
    let raw = digits + seq![SPACE];
    reveal_with_fuel(stream::next_from, 4);
    assert(!digits.contains(SPACE)) by {
        if digits.contains(SPACE) {
            let i = choose|i: int| 0 <= i < digits.len() && digits[i] == SPACE;
            assert(grammar::is_digit(digits[i]));
        }
    }
    laws::lemma_first(digits, SPACE, behind);
    assert(all =~= digits + (seq![SPACE] + behind));
    assert(grammar::is_digit(digits[0]));
    assert(all[0] == digits[0]);
    assert(all.take(1)[0] == all[0]);
    assert(all.take(digits.len() as int + 1) =~= raw);
    text::lemma_ascii_text(seq![SPACE]);
    assert(space =~= Seq::new(1, |i: int| seq![SPACE][i] as char));
    assert(encode_utf8(none) =~= Seq::<u8>::empty());
    assert(encode_utf8(none) + digits + encode_utf8(space) =~= raw);
    law_count_is_read(none, digits, space);
    assert(behind.take(message.len() as int) =~= message);
    assert(behind.skip(message.len() as int) =~= rest);
}

/// Whatever bytes come as a line, they arrive if they are a message, and else
/// are refused with the error that reading them gives. What follows is left.
pub proof fn law_whole_line_is_answered(
    peer: Seq<char>,
    line: Seq<u8>,
    trailing: Seq<u8>,
    rest: Seq<u8>,
)
    requires
        is_stripped(line),
        !line.contains(NEWLINE),
        line.len() > 0 ==> !(0x30 <= line[0] <= 0x39),
        forall|i: int| 0 <= i < trailing.len() ==> trailing[i] == RETURN,
    ensures
        ({
            let (progress, left) = stream::next_from(
                peer,
                Stage::Opening,
                line + trailing + seq![NEWLINE] + rest,
            );
            &&& answers(progress, peer, line)
            &&& left == rest
        }),
{
    let front = line + trailing;
    assert(!front.contains(NEWLINE)) by {
        if front.contains(NEWLINE) {
            let i = choose|i: int| 0 <= i < front.len() && front[i] == NEWLINE;
            if i < line.len() {
                assert(line[i] == NEWLINE);
            }
        }
    }
    if line.len() == 0 && trailing.len() > 0 {
        assert(front[0] == trailing[0]);
    }
    stream::law_line_is_read(peer, front, rest);
    law_line_ends_are_stripped(line, trailing);
}

/// A session keeps its sender, takes what arrives behind what has arrived, goes
/// on after it, and ends where the sender closed or something is refused.
pub proof fn law_session_gathers(session: SessionView, read: Seq<u8>)
    ensures
        ({
            let (stage, progress) = connection::advance(
                session.connection.peer,
                session.connection.stage,
                read,
            );
            let (next, gathering) = session::gather(session, read);
            &&& next.connection == (ConnectionView { peer: session.connection.peer, stage })
            &&& next.arrived == match progress {
                ProgressView::Message(message) => session.arrived + seq![message],
                _ => session.arrived,
            }
            &&& gathering is Finished <==> progress is Closed
            &&& gathering is Refused <==> progress is Refused
            &&& gathering is Refused ==> gathering == Gathering::Refused(progress->Refused_0)
        }),
{
    let (stage, progress) = connection::advance(
        session.connection.peer,
        session.connection.stage,
        read,
    );
    if let ProgressView::Message(message) = progress {
        assert(session.arrived.push(message) =~= session.arrived + seq![message]);
    }
}

/// What came of a read says what it holds.
pub proof fn law_progress_says_what_it_holds(message: Arrived, error: ProtocolError)
    ensures
        Progress::Reading@ == ProgressView::Reading,
        Progress::Message(message)@ == ProgressView::Message(message@),
        Progress::Closed@ == ProgressView::Closed,
        Progress::Refused(error)@ == ProgressView::Refused(error),
{
}

/// What has arrived is said message by message, in the order of arrival.
pub proof fn law_arrivals_keep_their_order(messages: Seq<Arrived>)
    ensures
        session::views(messages).len() == messages.len(),
        forall|i: int|
            0 <= i < messages.len() ==> #[trigger] session::views(messages)[i] == messages[i]@,
{
}

} // verus!
