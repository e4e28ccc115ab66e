//! A node of the estate: where it listens, and how it words what it sends.
use std::time::Duration;
use vstd::prelude::*;

use crate::calendar;
use crate::connection;
use crate::error::ProtocolError;
use crate::message;
use crate::message::{Header, HeaderView};

verus! {

/// The largest datagram a syslog receiver must take, RFC 5426.
pub const MAX_DATAGRAM: usize = 65_535;

/// UDP datagrams, or TCP with octet counting.
#[derive(Clone, Copy, Debug, PartialEq, Eq, Structural)]
pub enum Carrier {
    Udp,
    Tcp,
}

/// How a node listens and sends.
pub struct SyslogTransport {
    bind: String,
    carrier: Carrier,
    hostname: String,
    app_name: String,
    facility: u8,
    severity: u8,
    timeout: Option<Duration>,
}

/// What a node was told.
#[verifier::ext_equal]
pub struct Settings {
    pub bind: Seq<char>,
    pub carrier: Carrier,
    pub hostname: Seq<char>,
    pub app_name: Seq<char>,
    pub facility: u8,
    pub severity: u8,
    pub timeout: Option<Duration>,
}

impl View for SyslogTransport {
    type V = Settings;

    closed spec fn view(&self) -> Settings {
        Settings {
            bind: self.bind@,
            carrier: self.carrier,
            hostname: self.hostname@,
            app_name: self.app_name@,
            facility: self.facility,
            severity: self.severity,
            timeout: self.timeout,
        }
    }
}

impl Settings {
    /// The header that this node writes at `timestamp`.
    pub open spec fn header(self, timestamp: Seq<char>) -> HeaderView {
        message::node_header(
            self.facility,
            self.severity,
            self.hostname,
            self.app_name,
            timestamp,
        )
    }

    /// What this node sends for `payload` at `timestamp`: a payload that is a
    /// message as it is, any other wrapped in this node's header.
    pub open spec fn composed(self, timestamp: Seq<char>, payload: Seq<u8>) -> Seq<u8> {
        if message::is_message(payload) {
            payload
        } else {
            message::message_bytes(self.header(timestamp), payload)
        }
    }

    /// The carrier and the address that `target` names.
    pub open spec fn route(self, target: Seq<char>) -> (Carrier, Seq<char>) {
        if "syslog+tcp://"@.is_prefix_of(target) {
            (Carrier::Tcp, target.skip("syslog+tcp://"@.len() as int))
        } else if "syslog://"@.is_prefix_of(target) {
            (Carrier::Udp, target.skip("syslog://"@.len() as int))
        } else {
            (self.carrier, target)
        }
    }
}

/// `String::from` on a string slice. Trusted: the string has its characters.
pub assume_specification<'a>[ <String as From<&'a str>>::from ](s: &str) -> (r: String)
    ensures
        r@ == s@,
;

/// What is to be put on the wire, and where.
#[derive(Clone, Debug, PartialEq, Eq)]
pub struct Outgoing {
    pub carrier: Carrier,
    pub address: String,
    /// The datagram, or the octet-counted frame.
    pub bytes: Vec<u8>,
}

/// What is to be put on the wire, the address as characters.
#[verifier::ext_equal]
pub struct OutgoingView {
    pub carrier: Carrier,
    pub address: Seq<char>,
    pub bytes: Seq<u8>,
}

impl View for Outgoing {
    type V = OutgoingView;

    open spec fn view(&self) -> OutgoingView {
        OutgoingView { carrier: self.carrier, address: self.address@, bytes: self.bytes@ }
    }
}

/// `message` on its way over `carrier`: as it is in a datagram that holds it,
/// or as a frame.
pub open spec fn carried(carrier: Carrier, address: Seq<char>, message: Seq<u8>) -> Result<
    OutgoingView,
    ProtocolError,
> {
    match carrier {
        Carrier::Udp => if message.len() > MAX_DATAGRAM {
            Err(ProtocolError::OverDatagram)
        } else {
            Ok(OutgoingView { carrier, address, bytes: message })
        },
        Carrier::Tcp => Ok(
            OutgoingView { carrier, address, bytes: connection::frame_bytes(message) },
        ),
    }
}

/// What follows `prefix` in `text`, where `text` opens with it.
fn after_prefix<'a>(text: &'a str, prefix: &str) -> (r: Option<&'a str>)
    ensures
        r is Some <==> prefix@.is_prefix_of(text@),
        r matches Some(rest) ==> rest@ == text@.skip(prefix@.len() as int),
{
    let len: usize = text.unicode_len();
    let opening: usize = prefix.unicode_len();
    if len < opening {
        return None;
    }
    let mut i: usize = 0;
    while i < opening
        invariant
            len == text@.len(),
            opening == prefix@.len(),
            opening <= len,
            i <= opening,
            forall|j: int| 0 <= j < i ==> text@[j] == prefix@[j],
        decreases opening - i,
    {
        if text.get_char(i) != prefix.get_char(i) {
            proof {
                if prefix@.is_prefix_of(text@) {
                    assert(text@.subrange(0, opening as int)[i as int] == prefix@[i as int]);
                }
            }
            return None;
        }
        i = i + 1;
    }
    proof {
        assert(text@.subrange(0, opening as int) =~= prefix@);
        assert(text@.skip(opening as int) =~= text@.subrange(opening as int, len as int));
    }
    Some(text.substring_char(opening, len))
}

impl SyslogTransport {
    /// Listen at `bind` over UDP; `0.0.0.0:514` is the standard port.
    /// Messages sent name `hostname` and `app_name`, facility 16 (local0),
    /// severity 6 (informational).
    #[must_use]
    pub fn new<B: Into<String>>(bind: B, hostname: &str, app_name: &str) -> (r: Self)
        ensures
            exists|address: String| #[trigger]
                call_ensures(B::into, (bind,), address) && r@ == (Settings {
                    bind: address@,
                    carrier: Carrier::Udp,
                    hostname: hostname@,
                    app_name: app_name@,
                    facility: 16,
                    severity: 6,
                    timeout: None,
                }),
    {
        let bind: String = bind.into();
        SyslogTransport {
            bind,
            carrier: Carrier::Udp,
            hostname: String::from(hostname),
            app_name: String::from(app_name),
            facility: 16,
            severity: 6,
            timeout: None,
        }
    }

    /// Over TCP with octet counting rather than UDP.
    #[must_use]
    pub fn over(self, carrier: Carrier) -> (r: Self)
        ensures
            r@ == (Settings { carrier, ..self@ }),
    {
        let mut node = self;
        node.carrier = carrier;
        node
    }

    /// The facility and severity a wrapped payload is sent under.
    #[must_use]
    pub fn as_priority(self, facility: u8, severity: u8) -> (r: Self)
        ensures
            r@ == (Settings { facility, severity, ..self@ }),
    {
        let mut node = self;
        node.facility = facility;
        node.severity = severity;
        node
    }

    /// Give up waiting for a message after `timeout`.
    #[must_use]
    pub fn timing_out_after(self, timeout: Duration) -> (r: Self)
        ensures
            r@ == (Settings { timeout: Some(timeout), ..self@ }),
    {
        let mut node = self;
        node.timeout = Some(timeout);
        node
    }

    /// What this transport is called.
    pub fn name(&self) -> (r: &'static str)
        ensures
            r@ == "syslog"@,
    {
        "syslog"
    }

    /// Where this node listens.
    pub fn bind(&self) -> (r: &str)
        ensures
            r@ == self@.bind,
    {
        self.bind.as_str()
    }

    /// What this node listens and sends over.
    pub fn carrier(&self) -> (r: Carrier)
        ensures
            r == self@.carrier,
    {
        self.carrier
    }

    /// How long this node waits for a message.
    pub fn timeout(&self) -> (r: Option<Duration>)
        ensures
            r == self@.timeout,
    {
        self.timeout
    }

    /// `bytes` as a syslog message: as they are when they already are one,
    /// else wrapped in a header naming this node, stamped now.
    #[must_use]
    pub fn compose(&self, bytes: &[u8]) -> (r: Vec<u8>)
        ensures
            exists|timestamp: Seq<char>| #[trigger]
                calendar::is_read_from_clock(timestamp) && calendar::is_timestamp(timestamp) && r@
                    == self@.composed(timestamp, bytes@),
    {
        self.compose_at(calendar::timestamp_now(), bytes)
    }

    /// `bytes` as a syslog message: as they are when they already are one,
    /// else wrapped in a header naming this node, with this timestamp.
    #[must_use]
    pub fn compose_at(&self, timestamp: String, bytes: &[u8]) -> (r: Vec<u8>)
        ensures
            r@ == self@.composed(timestamp@, bytes@),
    {
        match message::parse(bytes) {
            Ok(_) => vstd::slice::slice_to_vec(bytes),
            Err(_) => {
                let header: Header = Header::at(
                    timestamp,
                    self.facility,
                    self.severity,
                    self.hostname.as_str(),
                    self.app_name.as_str(),
                );
                message::format(&header, bytes)
            },
        }
    }

    /// The carrier and the address that `target` names: `syslog://host:514`,
    /// `syslog+tcp://host:514`, or `host:port` over the configured carrier.
    pub fn route<'a>(&self, target: &'a str) -> (r: (Carrier, &'a str))
        ensures
            (r.0, r.1@) == self@.route(target@),
    {
        if let Some(rest) = after_prefix(target, "syslog+tcp://") {
            (Carrier::Tcp, rest)
        } else if let Some(rest) = after_prefix(target, "syslog://") {
            (Carrier::Udp, rest)
        } else {
            (self.carrier, target)
        }
    }

    /// What goes on the wire when `message` is sent to `target`.
    ///
    /// # Errors
    /// A message over what a datagram carries, where it goes over UDP.
    pub fn outgoing(&self, target: &str, message: Vec<u8>) -> (r: Result<Outgoing, ProtocolError>)
        ensures
            ({
                let (carrier, address) = self@.route(target@);
                match carried(carrier, address, message@) {
                    Ok(view) => r is Ok && r->Ok_0@ == view,
                    Err(error) => r is Err && r->Err_0 == error,
                }
            }),
    {
        let (carrier, address) = self.route(target);
        match carrier {
            Carrier::Udp => {
                if message.len() > MAX_DATAGRAM {
                    return Err(ProtocolError::OverDatagram);
                }
                Ok(Outgoing { carrier, address: address.to_string(), bytes: message })
            },
            Carrier::Tcp => {
                let bytes: Vec<u8> = connection::frame(message.as_slice());
                Ok(Outgoing { carrier, address: address.to_string(), bytes })
            },
        }
    }

    /// What goes on the wire when `bytes` are sent to `target`, stamped now
    /// where they have to be wrapped.
    ///
    /// # Errors
    /// A message over what a datagram carries, where it goes over UDP.
    pub fn send(&self, target: &str, bytes: &[u8]) -> (r: Result<Outgoing, ProtocolError>)
        ensures
            exists|timestamp: Seq<char>| #[trigger]
                calendar::is_read_from_clock(timestamp) && calendar::is_timestamp(timestamp) && {
                    let (carrier, address) = self@.route(target@);
                    match carried(carrier, address, self@.composed(timestamp, bytes@)) {
                        Ok(view) => r is Ok && r->Ok_0@ == view,
                        Err(error) => r is Err && r->Err_0 == error,
                    }
                },
    {
        self.outgoing(target, self.compose(bytes))
    }
}

} // verus!
