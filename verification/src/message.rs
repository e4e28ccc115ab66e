//! RFC 5424: the header a syslog message opens with, read and written.
//!
//! `<PRI>1 TIMESTAMP HOSTNAME APP-NAME PROCID MSGID STRUCTURED-DATA [SP MSG]`
//! where PRI is facility times eight plus severity, every header field is `-`
//! when unknown, structured data is `-` or one or more `[id k="v"]` elements,
//! and MSG is whatever follows the one space after them. The header is read
//! and MSG handed back untouched.
use vstd::prelude::*;
use vstd::utf8::*;

use crate::ascii::{BACKSLASH, CLOSE, DASH, GREATER, LESS, ONE, OPEN, QUOTE, SPACE};
use crate::calendar;
use crate::error::{Field, ProtocolError};
use crate::laws;
use crate::text;

pub use crate::calendar::timestamp_now;

verus! {

/// Everything before MSG.
#[derive(Clone, Debug, PartialEq, Eq)]
pub struct Header {
    pub facility: u8,
    pub severity: u8,
    pub timestamp: String,
    pub hostname: String,
    pub app_name: String,
    pub proc_id: String,
    pub msg_id: String,
    /// `-`, or the elements as written.
    pub structured_data: String,
}

/// What a header says, its text as characters.
#[verifier::ext_equal]
pub struct HeaderView {
    pub facility: u8,
    pub severity: u8,
    pub timestamp: Seq<char>,
    pub hostname: Seq<char>,
    pub app_name: Seq<char>,
    pub proc_id: Seq<char>,
    pub msg_id: Seq<char>,
    pub structured_data: Seq<char>,
}

impl View for Header {
    type V = HeaderView;

    open spec fn view(&self) -> HeaderView {
        HeaderView {
            facility: self.facility,
            severity: self.severity,
            timestamp: self.timestamp@,
            hostname: self.hostname@,
            app_name: self.app_name@,
            proc_id: self.proc_id@,
            msg_id: self.msg_id@,
            structured_data: self.structured_data@,
        }
    }
}

impl HeaderView {
    /// PRI: facility times eight, plus the low three bits of severity.
    pub open spec fn priority(self) -> nat {
        (self.facility * 8 + self.severity % 8) as nat
    }

    /// The header as the wire has it, as characters.
    pub open spec fn written(self) -> Seq<char> {
        "<"@ + text::decimal(self.priority()) + ">1 "@ + self.timestamp + " "@ + self.hostname
            + " "@ + self.app_name + " "@ + self.proc_id + " "@ + self.msg_id + " "@
            + self.structured_data
    }
}

/// The header of a node named `hostname` and `app_name`, the rest `-`.
pub open spec fn node_header(
    facility: u8,
    severity: u8,
    hostname: Seq<char>,
    app_name: Seq<char>,
    timestamp: Seq<char>,
) -> HeaderView {
    HeaderView {
        facility,
        severity,
        timestamp,
        hostname: or_nil(hostname),
        app_name: or_nil(app_name),
        proc_id: "-"@,
        msg_id: "-"@,
        structured_data: "-"@,
    }
}

/// `value`, or `-` in place of nothing.
pub open spec fn or_nil(value: Seq<char>) -> Seq<char> {
    if value.len() == 0 {
        "-"@
    } else {
        value
    }
}

/// A header and a MSG as one message: the header in UTF-8, and where there is
/// a MSG, a space and MSG.
pub open spec fn message_bytes(header: HeaderView, msg: Seq<u8>) -> Seq<u8> {
    encode_utf8(header.written()) + if msg.len() == 0 {
        Seq::empty()
    } else {
        seq![SPACE] + msg
    }
}

impl Header {
    /// A header from `hostname` and `app_name`, stamped now, the rest `-`.
    #[must_use]
    pub fn now(facility: u8, severity: u8, hostname: &str, app_name: &str) -> (r: Self)
        ensures
            calendar::is_read_from_clock(r.timestamp@),
            calendar::is_timestamp(r.timestamp@),
            r@ == node_header(facility, severity, hostname@, app_name@, r.timestamp@),
    {
        Header::at(calendar::timestamp_now(), facility, severity, hostname, app_name)
    }

    /// A header from `hostname` and `app_name` with this timestamp, the rest
    /// `-`.
    #[must_use]
    pub fn at(
        timestamp: String,
        facility: u8,
        severity: u8,
        hostname: &str,
        app_name: &str,
    ) -> (r: Self)
        ensures
            r@ == node_header(facility, severity, hostname@, app_name@, timestamp@),
    {
        Header {
            facility,
            severity,
            timestamp,
            hostname: nil_if_empty(hostname),
            app_name: nil_if_empty(app_name),
            proc_id: "-".to_string(),
            msg_id: "-".to_string(),
            structured_data: "-".to_string(),
        }
    }

    /// PRI as the wire writes it.
    #[must_use]
    pub fn priority(&self) -> (r: u16)
        ensures
            r == self@.priority(),
    {
        let severity: u16 = self.severity as u16;
        assert(severity & 7 == severity % 8) by (bit_vector);
        (self.facility as u16) * 8 + (severity & 7)
    }
}

/// `value`, or `-` in place of nothing.
pub fn nil_if_empty(value: &str) -> (r: String)
    ensures
        r@ == or_nil(value@),
{
    if value.is_empty() {
        "-".to_string()
    } else {
        value.to_string()
    }
}

/// `header` and `msg` as one syslog message.
#[must_use]
pub fn format(header: &Header, msg: &[u8]) -> (r: Vec<u8>)
    ensures
        r@ == message_bytes(header@, msg@),
{
    let mut head: String = String::new();
    head.append("<");
    text::append_decimal(&mut head, header.priority() as u64);
    head.append(">1 ");
    head.append(header.timestamp.as_str());
    head.append(" ");
    head.append(header.hostname.as_str());
    head.append(" ");
    head.append(header.app_name.as_str());
    head.append(" ");
    head.append(header.proc_id.as_str());
    head.append(" ");
    head.append(header.msg_id.as_str());
    head.append(" ");
    head.append(header.structured_data.as_str());
    proof {
        assert(head@ =~= header@.written());
    }
    let mut out: Vec<u8> = head.as_str().as_bytes_vec();
    if !msg.is_empty() {
        out.push(SPACE);
        out.extend_from_slice(msg);
        proof {
            assert(out@ =~= message_bytes(header@, msg@));
        }
    }
    out
}

/// The largest PRI: facility 23, severity 7.
pub const MAX_PRIORITY: u16 = 191;

/// PRI and what follows its `>`.
pub open spec fn read_priority(bytes: Seq<u8>) -> Result<(nat, Seq<u8>), ProtocolError> {
    if bytes.len() == 0 || bytes[0] != LESS {
        Err(ProtocolError::NoPriority)
    } else {
        let rest = bytes.skip(1);
        match rest.index_of_first(GREATER) {
            Some(close) if 1 <= close <= 3 => match text::strict(rest.take(close)) {
                Some(digits) => match text::number(digits) {
                    Some(priority) if priority <= MAX_PRIORITY => Ok(
                        (priority, rest.skip(close + 1)),
                    ),
                    _ => Err(ProtocolError::PriorityRange),
                },
                None => Err(ProtocolError::PriorityRange),
            },
            _ => Err(ProtocolError::PriorityLength),
        }
    }
}

/// What follows the version and the space after it.
pub open spec fn read_version(bytes: Seq<u8>) -> Result<Seq<u8>, ProtocolError> {
    if bytes.len() >= 2 && bytes[0] == ONE && bytes[1] == SPACE {
        Ok(bytes.skip(2))
    } else {
        Err(ProtocolError::Version)
    }
}

/// The bytes before the first space, of which there must be some, and those
/// after it.
pub open spec fn read_word(bytes: Seq<u8>) -> Option<(Seq<u8>, Seq<u8>)> {
    match bytes.index_of_first(SPACE) {
        Some(end) if end > 0 => Some((bytes.take(end), bytes.skip(end + 1))),
        _ => None,
    }
}

/// The header field with this place among the five.
pub open spec fn field_at(place: nat) -> Field {
    if place == 0 {
        Field::Timestamp
    } else if place == 1 {
        Field::Hostname
    } else if place == 2 {
        Field::AppName
    } else if place == 3 {
        Field::ProcId
    } else {
        Field::MsgId
    }
}

/// The first `count` words and what follows them.
pub open spec fn read_words(bytes: Seq<u8>, count: nat) -> Result<
    (Seq<Seq<u8>>, Seq<u8>),
    ProtocolError,
>
    decreases count,
{
    if count == 0 {
        Ok((Seq::empty(), bytes))
    } else {
        match read_words(bytes, (count - 1) as nat) {
            Ok((words, rest)) => match read_word(rest) {
                Some((word, after)) => Ok((words.push(word), after)),
                None => Err(ProtocolError::Missing(field_at((count - 1) as nat))),
            },
            Err(error) => Err(error),
        }
    }
}

/// Where a byte of a structured data element stands.
#[derive(Clone, Copy, Debug, PartialEq, Eq, Structural)]
pub enum Quote {
    /// Outside quotes.
    Outside,
    /// Between quotes.
    Inside,
    /// Between quotes, right behind a backslash.
    Escaped,
}

/// Where the next byte stands after `byte`.
pub open spec fn after_byte(quote: Quote, byte: u8) -> Quote {
    match quote {
        Quote::Escaped => Quote::Inside,
        Quote::Inside => if byte == BACKSLASH {
            Quote::Escaped
        } else if byte == QUOTE {
            Quote::Outside
        } else {
            Quote::Inside
        },
        Quote::Outside => if byte == QUOTE {
            Quote::Inside
        } else {
            Quote::Outside
        },
    }
}

/// How many bytes there are up to the `]` that stands outside quotes, that one
/// counted.
pub open spec fn to_close(bytes: Seq<u8>, quote: Quote) -> Option<nat>
    decreases bytes.len(),
{
    if bytes.len() == 0 {
        None
    } else if bytes[0] == CLOSE && quote == Quote::Outside {
        Some(1)
    } else {
        match to_close(bytes.drop_first(), after_byte(quote, bytes[0])) {
            Some(more) => Some(more + 1),
            None => None,
        }
    }
}

/// How many bytes the elements take that `bytes` open with, none or more.
pub open spec fn elements(bytes: Seq<u8>) -> Option<nat>
    decreases bytes.len(),
{
    if bytes.len() == 0 || bytes[0] != OPEN {
        Some(0)
    } else {
        match to_close(bytes, Quote::Outside) {
            Some(first) if 0 < first <= bytes.len() => match elements(bytes.skip(first as int)) {
                Some(more) => Some(first + more),
                None => None,
            },
            _ => None,
        }
    }
}

/// How many bytes of `bytes` are structured data.
pub open spec fn structured_len(bytes: Seq<u8>) -> Result<nat, ProtocolError> {
    if bytes.len() > 0 && bytes[0] == DASH {
        Ok(1)
    } else if bytes.len() > 0 && bytes[0] == OPEN {
        match elements(bytes) {
            Some(len) => Ok(len),
            None => Err(ProtocolError::Unclosed),
        }
    } else {
        Err(ProtocolError::NotStructuredData)
    }
}

/// MSG: nothing, or what follows the one space.
pub open spec fn read_msg(bytes: Seq<u8>) -> Result<Seq<u8>, ProtocolError> {
    if bytes.len() == 0 {
        Ok(bytes)
    } else if bytes[0] == SPACE {
        Ok(bytes.skip(1))
    } else {
        Err(ProtocolError::NoSpace)
    }
}

/// What follows the version: five words, structured data, MSG.
pub open spec fn read_fields(priority: nat, bytes: Seq<u8>) -> Result<
    (HeaderView, Seq<u8>),
    ProtocolError,
> {
    match read_words(bytes, 5) {
        Err(error) => Err(error),
        Ok((words, rest)) => match structured_len(rest) {
            Err(error) => Err(error),
            Ok(len) => match read_msg(rest.skip(len as int)) {
                Err(error) => Err(error),
                Ok(msg) => Ok(
                    (
                        HeaderView {
                            facility: (priority / 8) as u8,
                            severity: (priority % 8) as u8,
                            timestamp: text::lossy(words[0]),
                            hostname: text::lossy(words[1]),
                            app_name: text::lossy(words[2]),
                            proc_id: text::lossy(words[3]),
                            msg_id: text::lossy(words[4]),
                            structured_data: text::lossy(rest.take(len as int)),
                        },
                        msg,
                    ),
                ),
            },
        },
    }
}

/// The header and the MSG of a syslog message, or what is wrong with it.
pub open spec fn read_message(bytes: Seq<u8>) -> Result<(HeaderView, Seq<u8>), ProtocolError> {
    match read_priority(bytes) {
        Err(error) => Err(error),
        Ok((priority, rest)) => match read_version(rest) {
            Err(error) => Err(error),
            Ok(fields) => read_fields(priority, fields),
        },
    }
}

/// `bytes` are a syslog message.
pub open spec fn is_message(bytes: Seq<u8>) -> bool {
    read_message(bytes) is Ok
}

/// The first `byte` in `bytes` from `start` on.
fn position(bytes: &[u8], start: usize, byte: u8) -> (r: Option<usize>)
    requires
        start <= bytes.len(),
    ensures
        match bytes@.skip(start as int).index_of_first(byte) {
            Some(at) => 0 <= at && start + at < bytes.len() && r == Some((start + at) as usize),
            None => r is None,
        },
{
    let ghost seen = bytes@.skip(start as int);
    let mut i: usize = start;
    proof {
        seen.index_of_first_ensures(byte);
    }
    while i < bytes.len()
        invariant
            start <= i <= bytes.len(),
            seen == bytes@.skip(start as int),
            forall|j: int| 0 <= j < i - start ==> seen[j] != byte,
            match seen.index_of_first(byte) {
                Some(at) => 0 <= at < seen.len() && seen[at] == byte && forall|j: int|
                    0 <= j < at ==> seen[j] != byte,
                None => !seen.contains(byte),
            },
        decreases bytes.len() - i,
    {
        if bytes[i] == byte {
            proof {
                assert(seen[i - start] == byte);
                assert(seen.contains(byte));
            }
            return Some(i);
        }
        i = i + 1;
    }
    None
}

/// One space-terminated, non-empty header field.
fn word<'a>(rest: &'a [u8], at: &mut usize) -> (r: Option<&'a [u8]>)
    requires
        *old(at) <= rest.len(),
    ensures
        match read_word(rest@.skip(*old(at) as int)) {
            Some((word, after)) => {
                &&& r is Some
                &&& r->0@ == word
                &&& *final(at) == *old(at) + word.len() + 1
                &&& *final(at) <= rest.len()
                &&& rest@.skip(*final(at) as int) == after
            },
            None => r is None && *final(at) == *old(at),
        },
{
    let start: usize = *at;
    match position(rest, start, SPACE) {
        Some(end) => {
            if end == start {
                return None;
            }
            *at = end + 1;
            proof {
                let tail = rest@.skip(start as int);
                assert(tail.take(end - start) == rest@.subrange(start as int, end as int));
                assert(tail.skip(end - start + 1) == rest@.skip(end + 1));
            }
            Some(vstd::slice::slice_subrange(rest, start, end))
        },
        None => None,
    }
}

/// Where the element that opens at `start` ends.
fn element_end(rest: &[u8], start: usize) -> (r: Option<usize>)
    requires
        start <= rest.len(),
    ensures
        match to_close(rest@.skip(start as int), Quote::Outside) {
            Some(len) => 0 < len && start + len <= rest.len() && r == Some((start + len) as usize),
            None => r is None,
        },
{
    let ghost whole = to_close(rest@.skip(start as int), Quote::Outside);
    let mut at: usize = start;
    let mut quote: Quote = Quote::Outside;
    while at < rest.len()
        invariant
            start <= at <= rest.len(),
            whole == to_close(rest@.skip(start as int), Quote::Outside),
            whole == match to_close(rest@.skip(at as int), quote) {
                Some(more) => Some((more + (at - start)) as nat),
                None => None,
            },
        decreases rest.len() - at,
    {
        let byte: u8 = rest[at];
        proof {
            assert(rest@.skip(at as int).drop_first() == rest@.skip(at + 1));
        }
        if byte == CLOSE && quote == Quote::Outside {
            return Some(at + 1);
        }
        quote = match quote {
            Quote::Escaped => Quote::Inside,
            Quote::Inside => if byte == BACKSLASH {
                Quote::Escaped
            } else if byte == QUOTE {
                Quote::Outside
            } else {
                Quote::Inside
            },
            Quote::Outside => if byte == QUOTE {
                Quote::Inside
            } else {
                Quote::Outside
            },
        };
        at = at + 1;
    }
    None
}

/// What `bytes` hold from `at` on; nothing where they end before.
pub open spec fn bytes_from(bytes: Seq<u8>, at: int) -> Seq<u8> {
    if at <= bytes.len() {
        bytes.skip(at)
    } else {
        Seq::empty()
    }
}

/// `-`, or every `[...]` element, quotes and escapes honoured. `at` moves
/// behind it, or to the end where an element does not close.
fn structured_data(rest: &[u8], at: &mut usize) -> (r: Result<String, ProtocolError>)
    ensures
        ({
            let open = bytes_from(rest@, *old(at) as int);
            match structured_len(open) {
                Ok(len) => {
                    &&& r is Ok
                    &&& r->Ok_0@ == text::lossy(open.take(len as int))
                    &&& text::keeps_skeleton(open.take(len as int))
                    &&& *final(at) == *old(at) + len
                    &&& *final(at) <= rest.len()
                },
                Err(error) => {
                    &&& r == Err::<String, ProtocolError>(error)
                    &&& *final(at) == if error == ProtocolError::Unclosed {
                        rest.len()
                    } else {
                        *old(at)
                    }
                },
            }
        }),
{
    let start: usize = *at;
    let ghost open = bytes_from(rest@, start as int);
    if start >= rest.len() {
        return Err(ProtocolError::NotStructuredData);
    }
    if rest[start] == DASH {
        *at = start + 1;
        proof {
            reveal_strlit("-");
            text::lemma_ascii_text(open.take(1));
            assert("-"@ =~= seq!['-']);
            assert("-"@ =~= Seq::new(1, |i: int| open.take(1)[i] as char));
        }
        return Ok("-".to_string());
    }
    let mut end: usize = start;
    while end < rest.len() && rest[end] == OPEN
        invariant
            start <= end <= rest.len(),
            start == *old(at),
            *at == start,
            open == rest@.skip(start as int),
            open == bytes_from(rest@, start as int),
            elements(open) == match elements(rest@.skip(end as int)) {
                Some(more) => Some((more + (end - start)) as nat),
                None => None,
            },
            end > start ==> open.len() > 0 && open[0] == OPEN,
        decreases rest.len() - end,
    {
        match element_end(rest, end) {
            Some(next) => {
                proof {
                    assert(rest@.skip(end as int).skip(next - end) == rest@.skip(next as int));
                }
                end = next;
            },
            None => {
                *at = rest.len();
                return Err(ProtocolError::Unclosed);
            },
        }
    }
    if end == start {
        return Err(ProtocolError::NotStructuredData);
    }
    *at = end;
    let written: &[u8] = vstd::slice::slice_subrange(rest, start, end);
    proof {
        assert(open.take(end - start) == rest@.subrange(start as int, end as int));
    }
    Ok(text::lossy_text(written))
}

/// PRI, read from between `<` and `>`.
fn priority_value(digits: &[u8]) -> (r: Option<u16>)
    ensures
        match text::strict(digits@) {
            Some(chars) => match text::number(chars) {
                Some(n) => r == if n <= MAX_PRIORITY {
                    Some(n as u16)
                } else {
                    None
                },
                None => r is None,
            },
            None => r is None,
        },
{
    match text::from_utf8(digits) {
        Some(chars) => {
            let chars: Vec<char> = text::chars_of(chars);
            match text::read_number(chars.as_slice()) {
                Some(n) => if n <= MAX_PRIORITY as usize {
                    Some(n as u16)
                } else {
                    None
                },
                None => None,
            }
        },
        None => None,
    }
}

/// Read one syslog message: the header, and MSG as the bytes that follow it.
///
/// # Errors
/// Not RFC 5424: no PRI, a version that is not 1, a header field missing,
/// or structured data that does not close.
///
/// What is read, written again with [`format`], is read the same.
pub fn parse(bytes: &[u8]) -> (r: Result<(Header, &[u8]), ProtocolError>)
    ensures
        match read_message(bytes@) {
            Ok((header, msg)) => r is Ok && r->Ok_0.0@ == header && r->Ok_0.1@ == msg,
            Err(error) => r is Err && r->Err_0 == error,
        },
        r matches Ok((header, msg)) ==> read_message(message_bytes(header@, msg@)) == Ok::<
            (HeaderView, Seq<u8>),
            ProtocolError,
        >((header@, msg@)),
{
    if bytes.len() == 0 || bytes[0] != LESS {
        return Err(ProtocolError::NoPriority);
    }
    let close: usize = match position(bytes, 1, GREATER) {
        Some(at) if 2 <= at && at <= 4 => at,
        _ => {
            return Err(ProtocolError::PriorityLength);
        },
    };
    let digits: &[u8] = vstd::slice::slice_subrange(bytes, 1, close);
    proof {
        assert(bytes@.skip(1).take(close - 1) == digits@);
        assert(bytes@.skip(1).skip(close - 1 + 1) == bytes@.skip(close + 1));
    }
    let priority: u16 = match priority_value(digits) {
        Some(value) => value,
        None => {
            return Err(ProtocolError::PriorityRange);
        },
    };
    let rest: &[u8] = vstd::slice::slice_subrange(bytes, close + 1, bytes.len());
    proof {
        assert(rest@ == bytes@.skip(close + 1));
    }
    if rest.len() < 2 || rest[0] != ONE || rest[1] != SPACE {
        return Err(ProtocolError::Version);
    }
    let rest: &[u8] = vstd::slice::slice_subrange(rest, 2, rest.len());
    parse_fields(priority, rest)
}

/// Five words, as the wire has them.
struct Words<'a> {
    timestamp: &'a [u8],
    hostname: &'a [u8],
    app_name: &'a [u8],
    proc_id: &'a [u8],
    msg_id: &'a [u8],
}

/// The five words that `rest` opens with, and where they end.
fn five_words(rest: &[u8]) -> (r: Result<(Words<'_>, usize), ProtocolError>)
    ensures
        match read_words(rest@, 5) {
            Ok((words, after)) => {
                &&& r is Ok
                &&& words.len() == 5
                &&& r->Ok_0.0.timestamp@ == words[0]
                &&& r->Ok_0.0.hostname@ == words[1]
                &&& r->Ok_0.0.app_name@ == words[2]
                &&& r->Ok_0.0.proc_id@ == words[3]
                &&& r->Ok_0.0.msg_id@ == words[4]
                &&& r->Ok_0.1 <= rest.len()
                &&& rest@.skip(r->Ok_0.1 as int) == after
            },
            Err(error) => r is Err && r->Err_0 == error,
        },
{
    let mut at: usize = 0;
    proof {
        reveal_with_fuel(read_words, 6);
        assert(rest@.skip(0) == rest@);
    }
    let timestamp: &[u8] = match word(rest, &mut at) {
        Some(word) => word,
        None => {
            return Err(ProtocolError::Missing(Field::Timestamp));
        },
    };
    let hostname: &[u8] = match word(rest, &mut at) {
        Some(word) => word,
        None => {
            return Err(ProtocolError::Missing(Field::Hostname));
        },
    };
    let app_name: &[u8] = match word(rest, &mut at) {
        Some(word) => word,
        None => {
            return Err(ProtocolError::Missing(Field::AppName));
        },
    };
    let proc_id: &[u8] = match word(rest, &mut at) {
        Some(word) => word,
        None => {
            return Err(ProtocolError::Missing(Field::ProcId));
        },
    };
    let msg_id: &[u8] = match word(rest, &mut at) {
        Some(word) => word,
        None => {
            return Err(ProtocolError::Missing(Field::MsgId));
        },
    };
    Ok((Words { timestamp, hostname, app_name, proc_id, msg_id }, at))
}

/// What follows the version, under the PRI that was read.
fn parse_fields(priority: u16, rest: &[u8]) -> (r: Result<(Header, &[u8]), ProtocolError>)
    requires
        priority <= MAX_PRIORITY,
    ensures
        match read_fields(priority as nat, rest@) {
            Ok((header, msg)) => r is Ok && r->Ok_0.0@ == header && r->Ok_0.1@ == msg,
            Err(error) => r is Err && r->Err_0 == error,
        },
        r matches Ok((header, msg)) ==> read_message(message_bytes(header@, msg@)) == Ok::<
            (HeaderView, Seq<u8>),
            ProtocolError,
        >((header@, msg@)),
{
    let (words, after) = match five_words(rest) {
        Ok(read) => read,
        Err(error) => {
            return Err(error);
        },
    };
    let mut at: usize = after;
    let ghost open = rest@.skip(at as int);
    let ghost before = at;
    let structured: String = match structured_data(rest, &mut at) {
        Ok(structured) => structured,
        Err(error) => {
            return Err(error);
        },
    };
    proof {
        assert(open.skip(at - before) == rest@.skip(at as int));
    }
    if at < rest.len() && rest[at] != SPACE {
        return Err(ProtocolError::NoSpace);
    }
    let msg: &[u8] = if at == rest.len() {
        vstd::slice::slice_subrange(rest, at, at)
    } else {
        vstd::slice::slice_subrange(rest, at + 1, rest.len())
    };
    proof {
        if at == rest.len() {
            assert(msg@ == rest@.skip(at as int));
        } else {
            assert(msg@ == rest@.skip(at as int).skip(1));
        }
    }
    let header: Header = Header {
        facility: (priority / 8) as u8,
        severity: (priority % 8) as u8,
        timestamp: text::lossy_text(words.timestamp),
        hostname: text::lossy_text(words.hostname),
        app_name: text::lossy_text(words.app_name),
        proc_id: text::lossy_text(words.proc_id),
        msg_id: text::lossy_text(words.msg_id),
        structured_data: structured,
    };
    proof {
        laws::lemma_read_again(priority as nat, rest@);
    }
    Ok((header, msg))
}

} // verus!
