//! Why a message, a frame or a target is refused.
use vstd::prelude::*;

verus! {

/// The header fields that a space ends, in the order of the wire.
#[derive(Clone, Copy, Debug, PartialEq, Eq, Structural)]
pub enum Field {
    Timestamp,
    Hostname,
    AppName,
    ProcId,
    MsgId,
}

/// What was not as the protocol has it.
#[derive(Clone, Copy, Debug, PartialEq, Eq, Structural)]
pub enum ProtocolError {
    /// The message does not open with `<`.
    NoPriority,
    /// `>` does not follow one to three bytes after the `<`.
    PriorityLength,
    /// What stands between `<` and `>` is no number from 0 to 191.
    PriorityRange,
    /// The version is not 1.
    Version,
    /// A header field is empty, or no space ends it.
    Missing(Field),
    /// A structured data element does not close.
    Unclosed,
    /// Structured data opens with neither `-` nor `[`.
    NotStructuredData,
    /// Something other than a space follows the structured data.
    NoSpace,
    /// The octet count is not a number.
    CountNotANumber,
    /// The octet count is over the largest frame.
    CountTooLarge,
    /// The stream ends in the middle of a frame.
    BrokenOff,
    /// The message is larger than a datagram.
    OverDatagram,
}

impl ProtocolError {
    /// The error in words.
    pub open spec fn words(self) -> Seq<char> {
        match self {
            ProtocolError::NoPriority => "a message that does not open with <PRI>"@,
            ProtocolError::PriorityLength => "a PRI that is not one to three digits"@,
            ProtocolError::PriorityRange => "a PRI outside 0 to 191"@,
            ProtocolError::Version => "a version that is not 1"@,
            ProtocolError::Missing(Field::Timestamp) => "a header without TIMESTAMP"@,
            ProtocolError::Missing(Field::Hostname) => "a header without HOSTNAME"@,
            ProtocolError::Missing(Field::AppName) => "a header without APP-NAME"@,
            ProtocolError::Missing(Field::ProcId) => "a header without PROCID"@,
            ProtocolError::Missing(Field::MsgId) => "a header without MSGID"@,
            ProtocolError::Unclosed => "structured data that does not close"@,
            ProtocolError::NotStructuredData => "structured data that is neither - nor [element]"@,
            ProtocolError::NoSpace => "structured data not followed by a space"@,
            ProtocolError::CountNotANumber => "an octet count that is not a number"@,
            ProtocolError::CountTooLarge => "an octet count over what Xmip will read"@,
            ProtocolError::BrokenOff => "a frame that breaks off"@,
            ProtocolError::OverDatagram => "a message over what a datagram carries"@,
        }
    }

    /// The error in words.
    pub fn message(&self) -> (r: &'static str)
        ensures
            r@ == self.words(),
    {
        match self {
            ProtocolError::NoPriority => "a message that does not open with <PRI>",
            ProtocolError::PriorityLength => "a PRI that is not one to three digits",
            ProtocolError::PriorityRange => "a PRI outside 0 to 191",
            ProtocolError::Version => "a version that is not 1",
            ProtocolError::Missing(Field::Timestamp) => "a header without TIMESTAMP",
            ProtocolError::Missing(Field::Hostname) => "a header without HOSTNAME",
            ProtocolError::Missing(Field::AppName) => "a header without APP-NAME",
            ProtocolError::Missing(Field::ProcId) => "a header without PROCID",
            ProtocolError::Missing(Field::MsgId) => "a header without MSGID",
            ProtocolError::Unclosed => "structured data that does not close",
            ProtocolError::NotStructuredData => "structured data that is neither - nor [element]",
            ProtocolError::NoSpace => "structured data not followed by a space",
            ProtocolError::CountNotANumber => "an octet count that is not a number",
            ProtocolError::CountTooLarge => "an octet count over what Xmip will read",
            ProtocolError::BrokenOff => "a frame that breaks off",
            ProtocolError::OverDatagram => "a message over what a datagram carries",
        }
    }

    /// Whether the same bytes could be taken another time. What is refused is
    /// refused every time. [`ProtocolError::BrokenOff`] is reported as a read
    /// that failed, and whether to read another time is not answered here.
    pub fn retryable(&self) -> (r: bool)
        ensures
            !r,
    {
        false
    }
}

/// A header field that is missing is named as RFC 5424 names it.
pub proof fn law_missing_field_is_named()
    ensures
        ProtocolError::Missing(Field::Timestamp).words() == "a header without "@ + "TIMESTAMP"@,
        ProtocolError::Missing(Field::Hostname).words() == "a header without "@ + "HOSTNAME"@,
        ProtocolError::Missing(Field::AppName).words() == "a header without "@ + "APP-NAME"@,
        ProtocolError::Missing(Field::ProcId).words() == "a header without "@ + "PROCID"@,
        ProtocolError::Missing(Field::MsgId).words() == "a header without "@ + "MSGID"@,
{
    reveal_strlit("a header without ");
    reveal_strlit("TIMESTAMP");
    reveal_strlit("HOSTNAME");
    reveal_strlit("APP-NAME");
    reveal_strlit("PROCID");
    reveal_strlit("MSGID");
    reveal_strlit("a header without TIMESTAMP");
    reveal_strlit("a header without HOSTNAME");
    reveal_strlit("a header without APP-NAME");
    reveal_strlit("a header without PROCID");
    reveal_strlit("a header without MSGID");
}

/// The words of every other refusal.
pub proof fn law_refusal_is_worded(error: ProtocolError)
    ensures
        error is NoPriority ==> error.words() == "a message that does not open with <PRI>"@,
        error is PriorityLength ==> error.words() == "a PRI that is not one to three digits"@,
        error is PriorityRange ==> error.words() == "a PRI outside 0 to 191"@,
        error is Version ==> error.words() == "a version that is not 1"@,
        error is Unclosed ==> error.words() == "structured data that does not close"@,
        error is NotStructuredData ==> error.words()
            == "structured data that is neither - nor [element]"@,
        error is NoSpace ==> error.words() == "structured data not followed by a space"@,
        error is CountNotANumber ==> error.words() == "an octet count that is not a number"@,
        error is CountTooLarge ==> error.words() == "an octet count over what Xmip will read"@,
        error is BrokenOff ==> error.words() == "a frame that breaks off"@,
        error is OverDatagram ==> error.words() == "a message over what a datagram carries"@,
{
}

} // verus!
