//! A message that arrived: MSG, and the header as the address it came from.
use vstd::prelude::*;

use crate::error::ProtocolError;
use crate::message;
use crate::message::{Header, HeaderView};
use crate::text;

verus! {

/// One message that arrived.
#[derive(Clone, Debug, PartialEq, Eq)]
pub struct Arrived {
    /// Where it came from, with what its header knew.
    pub origin_uri: String,
    /// MSG.
    pub bytes: Vec<u8>,
}

/// What arrived, its text as characters.
#[verifier::ext_equal]
pub struct ArrivedView {
    pub origin_uri: Seq<char>,
    pub bytes: Seq<u8>,
}

impl View for Arrived {
    type V = ArrivedView;

    open spec fn view(&self) -> ArrivedView {
        ArrivedView { origin_uri: self.origin_uri@, bytes: self.bytes@ }
    }
}

/// `syslog://peer?facility=16&severity=6&host=edge-01&app=xmip&msgid=-`
pub open spec fn origin(peer: Seq<char>, header: HeaderView) -> Seq<char> {
    "syslog://"@ + peer + "?facility="@ + text::decimal(header.facility as nat) + "&severity="@
        + text::decimal(header.severity as nat) + "&host="@ + header.hostname + "&app="@
        + header.app_name + "&msgid="@ + header.msg_id
}

/// What arrives when `peer` sends `raw`, or why it is refused.
pub open spec fn arrival(peer: Seq<char>, raw: Seq<u8>) -> Result<ArrivedView, ProtocolError> {
    match message::read_message(raw) {
        Ok((header, msg)) => Ok(ArrivedView { origin_uri: origin(peer, header), bytes: msg }),
        Err(error) => Err(error),
    }
}

/// Where a message from `peer` with this header came from.
#[must_use]
pub fn origin_uri(peer: &str, header: &Header) -> (r: String)
    ensures
        r@ == origin(peer@, header@),
{
    let mut uri: String = String::new();
    uri.append("syslog://");
    uri.append(peer);
    uri.append("?facility=");
    text::append_decimal(&mut uri, header.facility as u64);
    uri.append("&severity=");
    text::append_decimal(&mut uri, header.severity as u64);
    uri.append("&host=");
    uri.append(header.hostname.as_str());
    uri.append("&app=");
    uri.append(header.app_name.as_str());
    uri.append("&msgid=");
    uri.append(header.msg_id.as_str());
    proof {
        assert(uri@ =~= origin(peer@, header@));
    }
    uri
}

/// Take `raw` as one message from `peer`: MSG is what arrived, the header goes
/// into the origin.
///
/// # Errors
/// Where `raw` is not RFC 5424.
pub fn arrived(peer: &str, raw: &[u8]) -> (r: Result<Arrived, ProtocolError>)
    ensures
        match arrival(peer@, raw@) {
            Ok(view) => r is Ok && r->Ok_0@ == view,
            Err(error) => r is Err && r->Err_0 == error,
        },
{
    match message::parse(raw) {
        Ok((header, msg)) => Ok(
            Arrived {
                origin_uri: origin_uri(peer, &header),
                bytes: vstd::slice::slice_to_vec(msg),
            },
        ),
        Err(error) => Err(error),
    }
}

} // verus!
