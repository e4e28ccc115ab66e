//! What a node sends, and what arrives of it.
use vstd::prelude::*;
use vstd::utf8::*;

use crate::arrival;
use crate::arrival::{Arrived, ArrivedView};
use crate::ascii::SPACE;
use crate::error::ProtocolError;
use crate::grammar;
use crate::grammar::Parts;
use crate::laws;
use crate::message;
use crate::message::{Header, HeaderView};
use crate::node;
use crate::node::{Carrier, Outgoing, OutgoingView, Settings};
use crate::text;

verus! {

/// A space and MSG, or neither where MSG is empty.
pub open spec fn spaced_msg(msg: Seq<u8>) -> Seq<u8> {
    if msg.len() == 0 {
        msg
    } else {
        seq![SPACE] + msg
    }
}

/// A message is worded as RFC 5424 has it: PRI, facility times eight and the low
/// three bits of severity, between `<` and `>`, the version, the header fields
/// in their order with one space before each, and MSG behind another.
pub proof fn law_message_is_worded(header: HeaderView, msg: Seq<u8>)
    ensures
        message::message_bytes(header, msg) == encode_utf8(
            seq!['<'] + text::decimal((8 * header.facility + header.severity % 8) as nat) + seq![
                '>',
                '1',
                ' ',
            ] + header.timestamp + seq![' '] + header.hostname + seq![' '] + header.app_name
                + seq![' '] + header.proc_id + seq![' '] + header.msg_id + seq![' ']
                + header.structured_data,
        ) + spaced_msg(msg),
{
    reveal_strlit("<");
    reveal_strlit(">1 ");
    reveal_strlit(" ");
    assert("<"@ =~= seq!['<']);
    assert(">1 "@ =~= seq!['>', '1', ' ']);
    assert(" "@ =~= seq![' ']);
    assert(spaced_msg(msg) =~= if msg.len() == 0 {
        Seq::<u8>::empty()
    } else {
        seq![SPACE] + msg
    });
}

/// PRI is facility times eight plus the low three bits of severity, of any header.
pub proof fn law_priority_is_put_together(header: HeaderView)
    ensures
        header.priority() == 8 * header.facility + header.severity % 8,
{
}

/// Nothing is written as `-`, and anything else as it is.
pub proof fn law_nothing_is_a_dash(value: Seq<char>)
    ensures
        value.len() == 0 ==> message::or_nil(value) == seq!['-'],
        value.len() > 0 ==> message::or_nil(value) == value,
{
    reveal_strlit("-");
    assert("-"@ =~= seq!['-']);
}

/// A node's header holds what it was told, with `-` where that is nothing, and
/// `-` for everything else.
pub proof fn law_header_names_the_node(
    facility: u8,
    severity: u8,
    hostname: Seq<char>,
    app_name: Seq<char>,
    timestamp: Seq<char>,
)
    ensures
        ({
            let header = message::node_header(facility, severity, hostname, app_name, timestamp);
            &&& header.facility == facility
            &&& header.severity == severity
            &&& header.timestamp == timestamp
            &&& hostname.len() > 0 ==> header.hostname == hostname
            &&& hostname.len() == 0 ==> header.hostname == seq!['-']
            &&& app_name.len() > 0 ==> header.app_name == app_name
            &&& app_name.len() == 0 ==> header.app_name == seq!['-']
            &&& header.proc_id == seq!['-']
            &&& header.msg_id == seq!['-']
            &&& header.structured_data == seq!['-']
        }),
{
    reveal_strlit("-");
    assert("-"@ =~= seq!['-']);
}

/// A payload that is a message is sent as it is, byte for byte, whichever node
/// sends it and whenever.
pub proof fn law_message_is_sent_as_it_is(node: Settings, timestamp: Seq<char>, payload: Seq<u8>)
    requires
        message::is_message(payload),
    ensures
        node.composed(timestamp, payload) == payload,
{
}

/// Whatever the grammar makes is sent as it is.
pub proof fn law_made_message_is_sent_as_it_is(
    node: Settings,
    timestamp: Seq<char>,
    parts: Parts,
)
    requires
        parts.is_valid(),
    ensures
        node.composed(timestamp, parts.bytes()) == parts.bytes(),
{
    grammar::law_message_is_read(parts);
}

/// A payload that is no message follows the node's header: the node's facility
/// and severity, the timestamp, the node's names, three times `-`, and the
/// payload, untouched, behind one space.
pub proof fn law_other_payload_is_wrapped(node: Settings, timestamp: Seq<char>, payload: Seq<u8>)
    requires
        !message::is_message(payload),
    ensures
        ({
            let hostname = if node.hostname.len() == 0 {
                seq!['-']
            } else {
                node.hostname
            };
            let app_name = if node.app_name.len() == 0 {
                seq!['-']
            } else {
                node.app_name
            };
            node.composed(timestamp, payload) == encode_utf8(
                seq!['<'] + text::decimal((8 * node.facility + node.severity % 8) as nat) + seq![
                    '>',
                    '1',
                    ' ',
                ] + timestamp + seq![' '] + hostname + seq![' '] + app_name + seq![
                    ' ',
                    '-',
                    ' ',
                    '-',
                    ' ',
                    '-',
                ],
            ) + spaced_msg(payload)
        }),
{
    let header = node.header(timestamp);
    law_header_names_the_node(
        node.facility,
        node.severity,
        node.hostname,
        node.app_name,
        timestamp,
    );
    law_message_is_worded(header, payload);
    let front = seq!['<'] + text::decimal((8 * node.facility + node.severity % 8) as nat) + seq![
        '>',
        '1',
        ' ',
    ] + timestamp + seq![' '] + header.hostname + seq![' '] + header.app_name;
    assert(front + seq![' '] + seq!['-'] + seq![' '] + seq!['-'] + seq![' '] + seq!['-'] =~= front
        + seq![' ', '-', ' ', '-', ' ', '-']);
}

/// A target with the scheme `syslog` goes over UDP to the address behind it,
/// whatever the node was told.
pub proof fn law_syslog_goes_over_udp(node: Settings, address: Seq<char>)
    ensures
        node.route("syslog://"@ + address) == (Carrier::Udp, address),
{
    reveal_strlit("syslog://");
    reveal_strlit("syslog+tcp://");
    let target = "syslog://"@ + address;
    assert("syslog://"@.is_prefix_of(target)) by {
        assert(target.subrange(0, 9) =~= "syslog://"@);
    }
    assert(!"syslog+tcp://"@.is_prefix_of(target)) by {
        if "syslog+tcp://"@.is_prefix_of(target) {
            assert(target.subrange(0, 13)[6] == "syslog+tcp://"@[6]);
            assert(target[6] == "syslog://"@[6]);
        }
    }
    assert(target.skip(9) =~= address);
}

/// A target with the scheme `syslog+tcp` goes over TCP to the address behind it,
/// whatever the node was told.
pub proof fn law_syslog_tcp_goes_over_tcp(node: Settings, address: Seq<char>)
    ensures
        node.route("syslog+tcp://"@ + address) == (Carrier::Tcp, address),
{
    reveal_strlit("syslog+tcp://");
    let target = "syslog+tcp://"@ + address;
    assert("syslog+tcp://"@.is_prefix_of(target)) by {
        assert(target.subrange(0, 13) =~= "syslog+tcp://"@);
    }
    assert(target.skip(13) =~= address);
}

/// Every other target is an address, and goes over the carrier that the node was
/// told.
pub proof fn law_address_goes_over_the_carrier(node: Settings, target: Seq<char>)
    requires
        forall|address: Seq<char>| target != #[trigger] ("syslog://"@ + address),
        forall|address: Seq<char>| target != #[trigger] ("syslog+tcp://"@ + address),
    ensures
        node.route(target) == (node.carrier, target),
{
    if "syslog://"@.is_prefix_of(target) {
        assert(target =~= "syslog://"@ + target.skip("syslog://"@.len() as int));
    }
    if "syslog+tcp://"@.is_prefix_of(target) {
        assert(target =~= "syslog+tcp://"@ + target.skip("syslog+tcp://"@.len() as int));
    }
}

/// A datagram is the message and nothing else, up to 65,535 bytes. A larger one
/// is refused.
pub proof fn law_datagram_is_the_message(address: Seq<char>, message: Seq<u8>)
    ensures
        message.len() <= 65_535 ==> node::carried(Carrier::Udp, address, message) == Ok::<
            OutgoingView,
            ProtocolError,
        >((OutgoingView { carrier: Carrier::Udp, address, bytes: message })),
        message.len() > 65_535 ==> node::carried(Carrier::Udp, address, message) == Err::<
            OutgoingView,
            ProtocolError,
        >(ProtocolError::OverDatagram),
{
}

/// A frame is the length of the message in digits, without needless zeros, a
/// space, and the message, however long it is.
pub proof fn law_frame_counts_the_message(address: Seq<char>, message: Seq<u8>)
    ensures
        ({
            let sent = node::carried(Carrier::Tcp, address, message);
            &&& sent is Ok
            &&& sent->Ok_0.carrier == Carrier::Tcp
            &&& sent->Ok_0.address == address
            &&& exists|digits: Seq<u8>|
                {
                    &&& #[trigger] grammar::are_digits(digits)
                    &&& grammar::number_of(digits) == message.len()
                    &&& digits.len() > 1 ==> digits[0] != 0x30
                    &&& sent->Ok_0.bytes == digits + seq![SPACE] + message
                }
        }),
{
    grammar::lemma_frame_digits(message);
}

/// The origin is the peer under the scheme `syslog`, and asks for what the header
/// knew, of any header.
pub proof fn law_origin_is_worded(peer: Seq<char>, header: HeaderView)
    ensures
        arrival::origin(peer, header) == "syslog://"@ + peer + "?facility="@ + text::decimal(
            header.facility as nat,
        ) + "&severity="@ + text::decimal(header.severity as nat) + "&host="@ + header.hostname
            + "&app="@ + header.app_name + "&msgid="@ + header.msg_id,
{
}

/// What arrives has MSG for its bytes, exactly, and names in its origin the peer
/// and what the header knew: facility, severity, host, application and message
/// id. It is so of every message that the grammar makes, whoever sent it.
pub proof fn law_message_arrives(peer: Seq<char>, parts: Parts)
    requires
        parts.is_valid(),
    ensures
        arrival::arrival(peer, parts.bytes()) == Ok::<ArrivedView, ProtocolError>(
            (ArrivedView {
                origin_uri: "syslog://"@ + peer + "?facility="@ + text::decimal(
                    grammar::number_of(parts.digits) / 8,
                ) + "&severity="@ + text::decimal(grammar::number_of(parts.digits) % 8)
                    + "&host="@ + text::lossy(parts.words[1]) + "&app="@ + text::lossy(
                    parts.words[2],
                ) + "&msgid="@ + text::lossy(parts.words[4]),
                bytes: match parts.msg {
                    Some(msg) => msg,
                    None => Seq::empty(),
                },
            }),
        ),
{
    grammar::law_message_is_read(parts);
}

/// A header that keeps its shape, with any structured data and any ids, and any
/// MSG: what arrives has exactly that MSG for its bytes.
pub proof fn law_formatted_message_arrives(peer: Seq<char>, header: HeaderView, msg: Seq<u8>)
    requires
        laws::keeps_its_shape(header),
    ensures
        arrival::arrival(peer, message::message_bytes(header, msg)) == Ok::<
            ArrivedView,
            ProtocolError,
        >(
            (ArrivedView {
                origin_uri: "syslog://"@ + peer + "?facility="@ + text::decimal(
                    header.facility as nat,
                ) + "&severity="@ + text::decimal((header.severity % 8) as nat) + "&host="@
                    + header.hostname + "&app="@ + header.app_name + "&msgid="@ + header.msg_id,
                bytes: msg,
            }),
        ),
{
    laws::law_written_is_read(header, msg);
}

/// What is no message does not arrive: the error is the one that reading it
/// gives.
pub proof fn law_other_bytes_do_not_arrive(peer: Seq<char>, raw: Seq<u8>)
    requires
        message::read_message(raw) is Err,
    ensures
        arrival::arrival(peer, raw) == Err::<ArrivedView, ProtocolError>(
            message::read_message(raw)->Err_0,
        ),
{
}

/// A header says what its fields hold, each in its place.
pub proof fn law_header_says_what_it_holds(header: Header)
    ensures
        header@.facility == header.facility,
        header@.severity == header.severity,
        header@.timestamp == header.timestamp@,
        header@.hostname == header.hostname@,
        header@.app_name == header.app_name@,
        header@.proc_id == header.proc_id@,
        header@.msg_id == header.msg_id@,
        header@.structured_data == header.structured_data@,
{
}

/// What goes out and what arrives says what its fields hold.
pub proof fn law_parcels_say_what_they_hold(outgoing: Outgoing, arrived: Arrived)
    ensures
        outgoing@.carrier == outgoing.carrier,
        outgoing@.address == outgoing.address@,
        outgoing@.bytes == outgoing.bytes@,
        arrived@.origin_uri == arrived.origin_uri@,
        arrived@.bytes == arrived.bytes@,
{
}

} // verus!
