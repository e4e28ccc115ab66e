//! Streams that arrive as syslog messages. One message is one Stream: the
//! RFC 5424 header is addressing and travels in the origin URI, and MSG, what
//! the application had to say, is what Xmip carries.
//!
//! Syslog is the operations floor's protocol: every server, switch and
//! appliance speaks it, over UDP on port 514 or TCP with octet counting (RFC
//! 6587). A Receive Location listens and takes what the estate reports; a
//! Send Location writes what a Journey concluded to the collector everything
//! else already goes to. A payload that is already a syslog message is sent
//! as it is; any other is wrapped in a header naming this node.
//!
//! The origin URI carries what the header knew:
//! `syslog://peer?facility=16&severity=6&host=edge-01&app=xmip&msgid=-`.
//!
//! This crate decides what is written, what is read and what is refused. The
//! sockets are its caller's.

pub mod arrival;
pub mod ascii;
pub mod calendar;
pub mod connection;
pub mod delivery;
pub mod error;
pub mod exchange;
pub mod grammar;
pub mod laws;
pub mod message;
pub mod node;
pub mod order;
pub mod session;
pub mod stream;
pub mod text;

pub use arrival::Arrived;
pub use connection::{Connection, MAX_FRAME};
pub use error::ProtocolError;
pub use message::Header;
pub use node::{Carrier, SyslogTransport, MAX_DATAGRAM};
