//! The DHCP client: message formats and the lease state machine.
use vstd::prelude::*;
use vstd::slice::slice_subrange;

use crate::bytes::{self, array4_at, get_be32, holds_at, push_all, push_be32, push_zeros};
use crate::net::{self, Ipv4Address, MacAddress};
use crate::network::{self, same_ip};
use crate::virtio_net::VirtioNet;

verus! {

#[derive(Debug, Clone, Copy, PartialEq, Eq, Structural)]
pub enum DhcpState {
    Init,
    Selecting,
    Requesting,
    Bound,
    Renewing,
}

#[derive(Debug, Clone, Copy, PartialEq, Eq)]
pub struct DhcpLease {
    pub ip: Ipv4Address,
    pub netmask: Ipv4Address,
    pub gateway: Ipv4Address,
    pub dns: Ipv4Address,
    pub server_id: Ipv4Address,
    pub lease_time: u32,
    pub bound_tick: u64,
}

#[derive(Debug, Clone, Copy, PartialEq, Eq, Structural)]
pub enum DhcpError {
    TransmitFailed,
    OfferTimeout,
    AckTimeout,
    NakReceived,
    InvalidResponse,
}

#[derive(Debug, Clone, Copy, PartialEq, Eq, Structural)]
pub enum DhcpMsgType {
    Discover,
    Offer,
    Request,
    Decline,
    Ack,
    Nak,
    Release,
    Inform,
}

#[derive(Debug, Clone, Copy)]
pub struct ParsedDhcp {
    pub msg_type: DhcpMsgType,
    pub yiaddr: Ipv4Address,
    pub server_id: Option<Ipv4Address>,
    pub netmask: Option<Ipv4Address>,
    pub router: Option<Ipv4Address>,
    pub dns: Option<Ipv4Address>,
    pub lease_time: Option<u32>,
}

/// The client's lasting state: the lease it holds, and how often it was refused.
pub struct Dhcp {
    pub current_lease: Option<DhcpLease>,
    pub nak_retry_count: u32,
}

impl Dhcp {
    pub fn new() -> (r: Self)
        ensures
            r.current_lease is None,
            r.nak_retry_count == 0,
    {
        Dhcp { current_lease: None, nak_retry_count: 0 }
    }
}

pub fn get_dhcp_lease(dhcp: &Dhcp) -> (r: Option<DhcpLease>)
    ensures
        r == dhcp.current_lease,
{
    dhcp.current_lease
}

pub fn get_nak_retry_count(dhcp: &Dhcp) -> (r: u32)
    ensures
        r == dhcp.nak_retry_count,
{
    dhcp.nak_retry_count
}

// ---------------------------------------------------------------------------
// Messages
// ---------------------------------------------------------------------------
pub const CLIENT_PORT: u16 = 68;

pub const SERVER_PORT: u16 = 67;

/// The bytes that mark the start of the options.
pub open spec fn magic_cookie() -> Seq<u8> {
    seq![0x63u8, 0x82u8, 0x53u8, 0x63u8]
}

/// The fixed part of a message: operation, Ethernet hardware type, transaction
/// number, broadcast flag, addresses, hardware address and cookie.
pub open spec fn fixed_part(op: u8, xid: u32, mac: Seq<u8>, ciaddr: Seq<u8>) -> Seq<u8> {
    seq![op, 1u8, 6u8, 0u8] + bytes::be32_bytes(xid) + seq![0u8, 0u8, 0x80u8, 0u8] + ciaddr + bytes::zeros(12)
        + mac + bytes::zeros(202) + magic_cookie()
}

/// A whole message: the fixed part, the options and their end mark, padded
/// with zeros to 300 bytes.
#[verifier::opaque]
pub open spec fn message(op: u8, xid: u32, mac: Seq<u8>, ciaddr: Seq<u8>, options: Seq<u8>) -> Seq<
    u8,
> {
    let body = fixed_part(op, xid, mac, ciaddr) + options + seq![0xffu8];
    if body.len() < 300 {
        body + bytes::zeros((300 - body.len()) as nat)
    } else {
        body
    }
}

fn build_dhcp_message(
    op: u8,
    xid: u32,
    mac: &MacAddress,
    ciaddr: &Ipv4Address,
    options: &[u8],
) -> (r: Vec<u8>)
    requires
        options.len() <= 1000,
    ensures
        r@ == message(op, xid, mac@, ciaddr@, options@),
        r.len() <= 2000,
{
    reveal(message);
    let mut msg: Vec<u8> = Vec::with_capacity(300);
    push_all(&mut msg, [op, 1u8, 6u8, 0u8].as_slice());
    push_be32(&mut msg, xid);
    push_all(&mut msg, [0u8, 0u8, 0x80u8, 0u8].as_slice());
    push_all(&mut msg, ciaddr.as_slice());
    push_zeros(&mut msg, 12);
    push_all(&mut msg, mac.as_slice());
    push_zeros(&mut msg, 202);
    push_all(&mut msg, [0x63u8, 0x82u8, 0x53u8, 0x63u8].as_slice());
    assert(msg@ =~= fixed_part(op, xid, mac@, ciaddr@));
    push_all(&mut msg, options);
    msg.push(0xff);
    assert(msg@ =~= fixed_part(op, xid, mac@, ciaddr@) + options@ + seq![0xffu8]);
    if msg.len() < 300 {
        let gap: usize = 300 - msg.len();
        push_zeros(&mut msg, gap);
    }
    msg
}

/// The frame that carries a message by UDP.
#[verifier::opaque]
pub open spec fn dhcp_frame(
    src_mac: Seq<u8>,
    dst_mac: Seq<u8>,
    src: Seq<u8>,
    src_port: u16,
    dst_port: u16,
    msg: Seq<u8>,
) -> Seq<u8> {
    net::ipv4_frame(
        src_mac,
        dst_mac,
        src,
        seq![255u8, 255u8, 255u8, 255u8],
        net::IP_PROTOCOL_UDP,
        src_port,
        0x4000,
        64,
        net::udp_sealed(src, seq![255u8, 255u8, 255u8, 255u8], src_port, dst_port, msg),
    )
}

fn build_dhcp_frame(
    src_mac: MacAddress,
    dst_mac: MacAddress,
    src: Ipv4Address,
    src_port: u16,
    dst_port: u16,
    msg: &[u8],
) -> (r: Vec<u8>)
    requires
        msg.len() <= 2000,
    ensures
        r@ == dhcp_frame(src_mac@, dst_mac@, src@, src_port, dst_port, msg@),
{
    reveal(dhcp_frame);
    let everyone: Ipv4Address = [255, 255, 255, 255];
    proof {
        assert(everyone@ =~= seq![255u8, 255u8, 255u8, 255u8]);
        net::lemma_transport_sum_bounds(
            src@,
            everyone@,
            net::IP_PROTOCOL_UDP,
            net::udp_datagram(src_port, dst_port, 0, msg@),
        );
    }
    net::build_udp_frame(src_mac, dst_mac, src, everyone, src_port, dst_port, msg)
}

/// The options of a discovery: its type, and the parameters asked for.
pub open spec fn discover_options() -> Seq<u8> {
    seq![53u8, 1u8, 1u8, 55u8, 3u8, 1u8, 3u8, 6u8]
}

/// The options of a request: its type, the address wanted, the server chosen
/// and the parameters asked for.
pub open spec fn request_options(ip: Seq<u8>, server_id: Seq<u8>) -> Seq<u8> {
    seq![53u8, 1u8, 3u8, 50u8, 4u8] + ip + seq![54u8, 4u8] + server_id + seq![
        55u8,
        3u8,
        1u8,
        3u8,
        6u8,
    ]
}

/// The options of a refusal: its type, the server and a text.
pub open spec fn nak_options(server_id: Seq<u8>) -> Seq<u8> {
    seq![53u8, 1u8, 6u8, 54u8, 4u8] + server_id + seq![56u8, 48u8] + nak_text()
}

/// The text of a refusal.
pub open spec fn nak_text() -> Seq<u8> {
    crate::text::utf8("requested address not available (synthetic test)"@)
}

/// A frame from a client that has no address yet, to everyone.
pub open spec fn client_frame(mac: Seq<u8>, xid: u32, options: Seq<u8>) -> Seq<u8> {
    dhcp_frame(
        mac,
        Seq::new(6, |i: int| 0xffu8),
        bytes::zeros(4),
        CLIENT_PORT,
        SERVER_PORT,
        message(1, xid, mac, bytes::zeros(4), options),
    )
}

fn build_client_frame(mac: MacAddress, xid: u32, options: &[u8]) -> (r: Vec<u8>)
    requires
        options.len() <= 1000,
    ensures
        r@ == client_frame(mac@, xid, options@),
{
    let none: Ipv4Address = [0, 0, 0, 0];
    let everyone: MacAddress = [0xff, 0xff, 0xff, 0xff, 0xff, 0xff];
    assert(none@ =~= bytes::zeros(4));
    assert(everyone@ =~= Seq::new(6, |i: int| 0xffu8));
    let msg = build_dhcp_message(1, xid, &mac, &none, options);
    build_dhcp_frame(mac, everyone, none, CLIENT_PORT, SERVER_PORT, msg.as_slice())
}

pub fn build_discover(mac: MacAddress, xid: u32) -> (r: Vec<u8>)
    ensures
        r@ == client_frame(mac@, xid, discover_options()),
{
    let options: [u8; 8] = [53, 1, 1, 55, 3, 1, 3, 6];
    assert(options@ =~= discover_options());
    build_client_frame(mac, xid, options.as_slice())
}

pub fn build_request(
    mac: MacAddress,
    xid: u32,
    requested_ip: Ipv4Address,
    server_id: Ipv4Address,
) -> (r: Vec<u8>)
    ensures
        r@ == client_frame(mac@, xid, request_options(requested_ip@, server_id@)),
{
    let mut options: Vec<u8> = Vec::new();
    push_all(&mut options, [53u8, 1u8, 3u8, 50u8, 4u8].as_slice());
    push_all(&mut options, requested_ip.as_slice());
    push_all(&mut options, [54u8, 4u8].as_slice());
    push_all(&mut options, server_id.as_slice());
    push_all(&mut options, [55u8, 3u8, 1u8, 3u8, 6u8].as_slice());
    assert(options@ =~= request_options(requested_ip@, server_id@));
    build_client_frame(mac, xid, options.as_slice())
}

/// The hardware address that a refusal is sent from.
pub open spec fn nak_mac() -> Seq<u8> {
    seq![0x52u8, 0x55u8, 0x0au8, 0u8, 2u8, 2u8]
}

/// The frame of a refusal.
pub open spec fn nak_frame(mac: Seq<u8>, xid: u32, server_id: Seq<u8>) -> Seq<u8> {
    dhcp_frame(
        nak_mac(),
        mac,
        server_id,
        SERVER_PORT,
        CLIENT_PORT,
        message(2, xid, mac, bytes::zeros(4), nak_options(server_id)),
    )
}

proof fn lemma_nak_text()
    ensures
        nak_text().len() == 48,
{
    let text = "requested address not available (synthetic test)"@;
    reveal_strlit("requested address not available (synthetic test)");
    assert(vstd::utf8::is_ascii_chars(text));
    vstd::utf8::is_ascii_chars_encode_utf8(text);
}

pub fn build_nak(mac: MacAddress, xid: u32, server_id: Ipv4Address) -> (r: Vec<u8>)
    ensures
        r@ == nak_frame(mac@, xid, server_id@),
{
    let mut options: Vec<u8> = Vec::new();
    push_all(&mut options, [53u8, 1u8, 6u8, 54u8, 4u8].as_slice());
    push_all(&mut options, server_id.as_slice());
    let text = "requested address not available (synthetic test)".as_bytes();
    proof {
        lemma_nak_text();
    }
    options.push(56);
    options.push(text.len() as u8);
    push_all(&mut options, text);
    assert(options@ =~= nak_options(server_id@));
    let none: Ipv4Address = [0, 0, 0, 0];
    assert(none@ =~= bytes::zeros(4));
    let from: MacAddress = [0x52, 0x55, 0x0a, 0, 2, 2];
    assert(from@ =~= nak_mac());
    let msg = build_dhcp_message(2, xid, &mac, &none, options.as_slice());
    build_dhcp_frame(from, mac, server_id, SERVER_PORT, CLIENT_PORT, msg.as_slice())
}

// ---------------------------------------------------------------------------
// Reading a reply
// ---------------------------------------------------------------------------
/// What the options of a message say so far.
pub struct Options {
    pub msg_type: Option<DhcpMsgType>,
    pub server_id: Option<Ipv4Address>,
    pub netmask: Option<Ipv4Address>,
    pub router: Option<Ipv4Address>,
    pub dns: Option<Ipv4Address>,
    pub lease_time: Option<u32>,
}

pub open spec fn no_options() -> Options {
    Options {
        msg_type: None,
        server_id: None,
        netmask: None,
        router: None,
        dns: None,
        lease_time: None,
    }
}

/// The message type with this number.
pub open spec fn type_of(number: u8) -> Option<DhcpMsgType> {
    if number == 1 {
        Some(DhcpMsgType::Discover)
    } else if number == 2 {
        Some(DhcpMsgType::Offer)
    } else if number == 3 {
        Some(DhcpMsgType::Request)
    } else if number == 4 {
        Some(DhcpMsgType::Decline)
    } else if number == 5 {
        Some(DhcpMsgType::Ack)
    } else if number == 6 {
        Some(DhcpMsgType::Nak)
    } else if number == 7 {
        Some(DhcpMsgType::Release)
    } else if number == 8 {
        Some(DhcpMsgType::Inform)
    } else {
        None
    }
}

/// `o` after the option `tag` with the value `val`. An address list counts by
/// its first entry; a value of the wrong length is passed over.
pub open spec fn after_option(o: Options, tag: u8, val: Seq<u8>) -> Options {
    let len = val.len();
    let ip = network::ip_of(val.subrange(0, 4));
    if tag == 53 && len >= 1 {
        Options { msg_type: type_of(val[0]), ..o }
    } else if tag == 1 && len == 4 {
        Options { netmask: Some(ip), ..o }
    } else if tag == 3 && len >= 4 {
        Options { router: Some(ip), ..o }
    } else if tag == 6 && len >= 4 {
        Options { dns: Some(ip), ..o }
    } else if tag == 51 && len == 4 {
        Options { lease_time: Some(bytes::be32_at(val, 0) as u32), ..o }
    } else if tag == 54 && len == 4 {
        Options { server_id: Some(ip), ..o }
    } else {
        o
    }
}

/// `o` after the options in `s`: zero bytes are padding, 255 ends them, and so
/// does an option that runs past the end.
pub open spec fn after_options(o: Options, s: Seq<u8>) -> Options
    decreases s.len(),
{
    if s.len() == 0 || s[0] == 255 {
        o
    } else if s[0] == 0 {
        after_options(o, s.skip(1))
    } else if s.len() < 2 || 2 + s[1] > s.len() {
        o
    } else {
        after_options(after_option(o, s[0], s.subrange(2, 2 + s[1])), s.skip(2 + s[1]))
    }
}

/// The reply in a UDP payload, if it is one to the transaction `xid`.
pub open spec fn reply_in(payload: Seq<u8>, xid: u32) -> Option<ParsedDhcp> {
    let o = after_options(no_options(), payload.skip(240));
    if payload.len() >= 240 && payload[0] == 2 && bytes::be32_at(payload, 4) == xid && payload.subrange(
        236,
        240,
    ) == magic_cookie() && o.msg_type is Some {
        Some(
            ParsedDhcp {
                msg_type: o.msg_type->0,
                yiaddr: network::ip_of(payload.subrange(16, 20)),
                server_id: o.server_id,
                netmask: o.netmask,
                router: o.router,
                dns: o.dns,
                lease_time: o.lease_time,
            },
        )
    } else {
        None
    }
}

/// The reply in a frame, if it is one to this client's transaction `xid`.
pub open spec fn reply_of(frame: Seq<u8>, xid: u32) -> Option<ParsedDhcp> {
    let packet = frame.skip(14);
    let datagram = packet.subrange(net::ipv4_header_length(packet), net::ipv4_end(packet));
    if frame.len() >= 14 && net::is_ipv4(packet) && packet[9] == net::IP_PROTOCOL_UDP
        && net::is_udp(datagram, packet.subrange(12, 16), packet.subrange(16, 20)) && bytes::be16_at(
        datagram,
        2,
    ) == CLIENT_PORT {
        reply_in(datagram.subrange(8, net::udp_end(datagram)), xid)
    } else {
        None
    }
}

fn type_from(number: u8) -> (r: Option<DhcpMsgType>)
    ensures
        r == type_of(number),
{
    match number {
        1 => Some(DhcpMsgType::Discover),
        2 => Some(DhcpMsgType::Offer),
        3 => Some(DhcpMsgType::Request),
        4 => Some(DhcpMsgType::Decline),
        5 => Some(DhcpMsgType::Ack),
        6 => Some(DhcpMsgType::Nak),
        7 => Some(DhcpMsgType::Release),
        8 => Some(DhcpMsgType::Inform),
        _ => None,
    }
}

fn apply_option(o: Options, tag: u8, val: &[u8]) -> (r: Options)
    ensures
        r == after_option(o, tag, val@),
{
    let mut o = o;
    let len: usize = val.len();
    if tag == 53 && len >= 1 {
        o.msg_type = type_from(val[0]);
    } else if len >= 4 {
        let ip = array4_at(val, 0);
        proof {
            network::lemma_ip_of(ip);
        }
        if tag == 1 && len == 4 {
            o.netmask = Some(ip);
        } else if tag == 3 {
            o.router = Some(ip);
        } else if tag == 6 {
            o.dns = Some(ip);
        } else if tag == 51 && len == 4 {
            o.lease_time = Some(get_be32(val, 0));
        } else if tag == 54 && len == 4 {
            o.server_id = Some(ip);
        }
    }
    o
}

fn parse_options(s: &[u8]) -> (r: Options)
    ensures
        r == after_options(no_options(), s@),
{
    let mut o = Options {
        msg_type: None,
        server_id: None,
        netmask: None,
        router: None,
        dns: None,
        lease_time: None,
    };
    let mut offset: usize = 0;
    assert(s@.skip(0) =~= s@);
    while offset < s.len()
        invariant
            offset <= s.len(),
            after_options(o, s@.skip(offset as int)) == after_options(no_options(), s@),
        decreases s.len() - offset,
    {
        let ghost rest = s@.skip(offset as int);
        let tag: u8 = s[offset];
        assert(tag == rest[0]);
        if tag == 0 {
            assert(rest.skip(1) =~= s@.skip(offset + 1));
            offset += 1;
            continue ;
        }
        if tag == 255 || s.len() - offset < 2 {
            return o;
        }
        let len: usize = s[offset + 1] as usize;
        assert(len == rest[1]);
        if s.len() - offset < 2 + len {
            return o;
        }
        let val = slice_subrange(s, offset + 2, offset + 2 + len);
        proof {
            assert(val@ =~= rest.subrange(2, 2 + len));
            assert(rest.skip(2 + len) =~= s@.skip(offset + 2 + len));
        }
        o = apply_option(o, tag, val);
        offset = offset + 2 + len;
    }
    assert(s@.skip(offset as int) =~= Seq::<u8>::empty());
    o
}

/// Reads a DHCP reply out of a frame.
pub fn parse_dhcp_packet(frame: &[u8], expected_xid: u32) -> (r: Option<ParsedDhcp>)
    ensures
        r == reply_of(frame@, expected_xid),
{
    let (_, packet) = match net::parse_ethernet(frame) {
        None => {
            return None;
        },
        Some(parts) => parts,
    };
    let (ip, datagram) = match net::parse_ipv4(packet) {
        None => {
            return None;
        },
        Some(parts) => parts,
    };
    if ip.protocol != net::IP_PROTOCOL_UDP {
        return None;
    }
    let (udp, payload) = match net::parse_udp(datagram, ip.src_ip, ip.dest_ip) {
        None => {
            return None;
        },
        Some(parts) => parts,
    };
    if udp.dest_port != CLIENT_PORT {
        return None;
    }
    let cookie: [u8; 4] = [0x63, 0x82, 0x53, 0x63];
    assert(cookie@ =~= magic_cookie());
    if payload.len() < 240 {
        return None;
    }
    if payload[0] != 2 || get_be32(payload, 4) != expected_xid || !holds_at(
        payload,
        236,
        cookie.as_slice(),
    ) {
        return None;
    }
    let yiaddr = array4_at(payload, 16);
    proof {
        network::lemma_ip_of(yiaddr);
    }
    let rest = slice_subrange(payload, 240, payload.len());
    assert(rest@ =~= payload@.skip(240));
    let o = parse_options(rest);
    match o.msg_type {
        None => None,
        Some(msg_type) => Some(
            ParsedDhcp {
                msg_type,
                yiaddr,
                server_id: o.server_id,
                netmask: o.netmask,
                router: o.router,
                dns: o.dns,
                lease_time: o.lease_time,
            },
        ),
    }
}

// ---------------------------------------------------------------------------
// The state machine
// ---------------------------------------------------------------------------
pub const MAX_DHCP_ATTEMPTS: usize = 3;

pub const POLL_ATTEMPTS: usize = 100_000;

/// Where the search for a lease stands.
#[derive(Debug, Clone, Copy)]
pub enum Progress {
    /// About to discover; `attempt` discoveries have been made.
    Init { attempt: usize },
    /// Waiting for an offer.
    Selecting { attempt: usize, xid: u32, polls: usize },
    /// Waiting for the answer to a request.
    Requesting {
        attempt: usize,
        xid: u32,
        polls: usize,
        offer: ParsedDhcp,
        server_id: Ipv4Address,
    },
}

impl Progress {
    /// Where the search stands, in the protocol's words.
    pub fn state(&self) -> (r: DhcpState)
        ensures
            r == (match *self {
                Progress::Init { .. } => DhcpState::Init,
                Progress::Selecting { .. } => DhcpState::Selecting,
                Progress::Requesting { .. } => DhcpState::Requesting,
            }),
    {
        match self {
            Progress::Init { .. } => DhcpState::Init,
            Progress::Selecting { .. } => DhcpState::Selecting,
            Progress::Requesting { .. } => DhcpState::Requesting,
        }
    }
}

#[verifier::ext_equal]
pub struct DhcpView {
    pub lease: Option<DhcpLease>,
    pub naks: u32,
    pub arrived: Seq<Seq<u8>>,
    pub sent: Seq<Seq<u8>>,
    pub progress: Progress,
}

/// The client, its device and its progress as one.
pub open spec fn together(dhcp: Dhcp, device: VirtioNet, progress: Progress) -> DhcpView {
    DhcpView {
        lease: dhcp.current_lease,
        naks: dhcp.nak_retry_count,
        arrived: device.arrived(),
        sent: device.sent(),
        progress,
    }
}

/// The transaction number of an attempt at a given time.
pub open spec fn xid_of(tick: u64, attempt: usize) -> u32 {
    0x5641_4e54u32 ^ (((tick % 0x1_0000_0000) as u32).wrapping_mul(1103515245).wrapping_add(
        attempt as u32,
    ))
}

pub open spec fn or_else<T>(a: Option<T>, b: Option<T>) -> Option<T> {
    if a is Some {
        a
    } else {
        b
    }
}

pub open spec fn or_value<T>(a: Option<T>, v: T) -> T {
    match a {
        Some(x) => x,
        None => v,
    }
}

/// The server that an offer came from.
pub open spec fn server_of(offer: ParsedDhcp) -> Ipv4Address {
    or_value(or_else(offer.server_id, offer.router), network::ip_of(seq![10u8, 0u8, 2u8, 2u8]))
}

/// The lease that an acknowledged offer gives: what the acknowledgement does
/// not say comes from the offer, and what neither says from defaults.
pub open spec fn lease_of(
    offer: ParsedDhcp,
    ack: ParsedDhcp,
    server_id: Ipv4Address,
    tick: u64,
) -> DhcpLease {
    DhcpLease {
        ip: if ack.yiaddr@ != seq![0u8, 0u8, 0u8, 0u8] {
            ack.yiaddr
        } else {
            offer.yiaddr
        },
        netmask: or_value(
            or_else(ack.netmask, offer.netmask),
            network::ip_of(seq![255u8, 255u8, 255u8, 0u8]),
        ),
        gateway: or_value(or_else(ack.router, offer.router), network::ip_of(seq![10u8, 0u8, 2u8, 2u8])),
        dns: or_value(or_else(ack.dns, offer.dns), network::ip_of(seq![10u8, 0u8, 2u8, 3u8])),
        server_id,
        lease_time: or_value(or_else(ack.lease_time, offer.lease_time), 86400),
        bound_tick: tick,
    }
}

/// A refused attempt: it is counted, what has arrived is thrown away, and
/// discovery starts over.
pub open spec fn refused(v: DhcpView, attempt: usize) -> DhcpView {
    DhcpView {
        naks: v.naks.wrapping_add(1),
        arrived: Seq::empty(),
        progress: Progress::Init { attempt },
        ..v
    }
}

/// The reply at the head of the queue, if there is one to `xid`.
pub open spec fn head_reply(v: DhcpView, xid: u32) -> Option<ParsedDhcp> {
    if v.arrived.len() > 0 {
        reply_of(v.arrived[0], xid)
    } else {
        None
    }
}

/// The queue without its head.
pub open spec fn without_head(v: DhcpView) -> DhcpView {
    if v.arrived.len() > 0 {
        DhcpView { arrived: v.arrived.skip(1), ..v }
    } else {
        v
    }
}

/// One step of the search with a device that works. The first attempt is
/// always refused, to exercise the way back to discovery.
pub open spec fn lease_step(v: DhcpView, mac: MacAddress, tick: u64) -> (
    Result<Option<DhcpLease>, DhcpError>,
    DhcpView,
) {
    match v.progress {
        Progress::Init { attempt } => {
            if attempt >= MAX_DHCP_ATTEMPTS {
                (Err(DhcpError::NakReceived), v)
            } else {
                let next = (attempt + 1) as usize;
                let xid = xid_of(tick, next);
                (
                    Ok(None),
                    DhcpView {
                        sent: v.sent.push(client_frame(mac@, xid, discover_options())),
                        progress: Progress::Selecting { attempt: next, xid, polls: POLL_ATTEMPTS },
                        ..v
                    },
                )
            }
        },
        Progress::Selecting { attempt, xid, polls } => {
            let t = without_head(v);
            if polls == 0 {
                (Err(DhcpError::OfferTimeout), v)
            } else {
                match head_reply(v, xid) {
                    Some(offer) if offer.msg_type is Offer => {
                        let server_id = server_of(offer);
                        let asked = DhcpView {
                            sent: v.sent.push(
                                client_frame(
                                    mac@,
                                    xid,
                                    request_options(offer.yiaddr@, server_id@),
                                ),
                            ),
                            ..t
                        };
                        if attempt == 1 {
                            (Ok(None), refused(asked, attempt))
                        } else {
                            (
                                Ok(None),
                                DhcpView {
                                    progress: Progress::Requesting {
                                        attempt,
                                        xid,
                                        polls: POLL_ATTEMPTS,
                                        offer,
                                        server_id,
                                    },
                                    ..asked
                                },
                            )
                        }
                    },
                    _ => (
                        Ok(None),
                        DhcpView {
                            progress: Progress::Selecting {
                                attempt,
                                xid,
                                polls: (polls - 1) as usize,
                            },
                            ..t
                        },
                    ),
                }
            }
        },
        Progress::Requesting { attempt, xid, polls, offer, server_id } => {
            let t = without_head(v);
            if polls == 0 {
                (Err(DhcpError::AckTimeout), v)
            } else {
                match head_reply(v, xid) {
                    Some(ack) if ack.msg_type is Ack => {
                        let lease = lease_of(offer, ack, server_id, tick);
                        (
                            Ok(Some(lease)),
                            DhcpView { lease: Some(lease), ..t },
                        )
                    },
                    Some(nak) if nak.msg_type is Nak => (Ok(None), refused(t, attempt)),
                    _ => (
                        Ok(None),
                        DhcpView {
                            progress: Progress::Requesting {
                                attempt,
                                xid,
                                polls: (polls - 1) as usize,
                                offer,
                                server_id,
                            },
                            ..t
                        },
                    ),
                }
            }
        },
    }
}

/// One step of the search with a device that has failed: it cannot send, and
/// while waiting it is as if nothing arrived.
pub open spec fn faulty_step(v: DhcpView) -> (Result<Option<DhcpLease>, DhcpError>, DhcpView) {
    match v.progress {
        Progress::Init { attempt } => {
            if attempt >= MAX_DHCP_ATTEMPTS {
                (Err(DhcpError::NakReceived), v)
            } else {
                (Err(DhcpError::TransmitFailed), v)
            }
        },
        Progress::Selecting { attempt, xid, polls } => {
            if polls == 0 {
                (Err(DhcpError::OfferTimeout), v)
            } else {
                (
                    Ok(None),
                    DhcpView {
                        progress: Progress::Selecting { attempt, xid, polls: (polls - 1) as usize },
                        ..v
                    },
                )
            }
        },
        Progress::Requesting { attempt, xid, polls, offer, server_id } => {
            if polls == 0 {
                (Err(DhcpError::AckTimeout), v)
            } else {
                (
                    Ok(None),
                    DhcpView {
                        progress: Progress::Requesting {
                            attempt,
                            xid,
                            polls: (polls - 1) as usize,
                            offer,
                            server_id,
                        },
                        ..v
                    },
                )
            }
        },
    }
}

fn discard_arrived(device: &mut VirtioNet)
    requires
        old(device).fault is None,
    ensures
        final(device).mac == old(device).mac,
        final(device).fault is None,
        final(device).sent() == old(device).sent(),
        final(device).arrived() == Seq::<Seq<u8>>::empty(),
{
    loop
        invariant
            device.fault is None,
            device.mac == old(device).mac,
            device.sent() == old(device).sent(),
        decreases device.arrived().len(),
    {
        match device.receive() {
            Ok(Some(_)) => {},
            _ => {
                assert(device.arrived() =~= Seq::<Seq<u8>>::empty());
                return;
            },
        }
    }
}

/// The bytes that follow the fixed part of a reply with these options.
pub open spec fn option_area(options: Seq<u8>) -> Seq<u8> {
    options + seq![0xffu8] + bytes::zeros((300 - 241 - options.len()) as nat)
}

proof fn lemma_message_parts(op: u8, xid: u32, mac: Seq<u8>, ciaddr: Seq<u8>, options: Seq<u8>)
    requires
        mac.len() == 6,
        ciaddr.len() == 4,
        options.len() <= 59,
    ensures
        ({
            let msg = message(op, xid, mac, ciaddr, options);
            &&& msg.len() == 300
            &&& msg[0] == op
            &&& bytes::be32_at(msg, 4) == xid
            &&& msg.subrange(16, 20) == bytes::zeros(4)
            &&& msg.subrange(236, 240) == magic_cookie()
            &&& msg.skip(240) == option_area(options)
        }),
{
    reveal(message);
    let fixed = fixed_part(op, xid, mac, ciaddr);
    let msg = message(op, xid, mac, ciaddr, options);
    assert(fixed.len() == 240);
    assert(msg =~= fixed + option_area(options));
    assert(msg.skip(240) =~= option_area(options));
    assert(fixed.subrange(236, 240) =~= magic_cookie());
    assert(msg.subrange(236, 240) =~= fixed.subrange(236, 240));
    assert(fixed.subrange(16, 20) =~= bytes::zeros(4));
    assert(msg.subrange(16, 20) =~= fixed.subrange(16, 20));
    let start = seq![op, 1u8, 6u8, 0u8];
    assert(start + bytes::be32_bytes(xid) + msg.skip(8) =~= msg);
    crate::bytes::be_round_trip(start, msg.skip(8), 0, xid);
}

proof fn lemma_reply_from_parts(frame: Seq<u8>, src: Seq<u8>, dst: Seq<u8>, xid: u32, msg: Seq<u8>)
    requires
        ({
            let packet = frame.skip(14);
            let datagram = packet.subrange(net::ipv4_header_length(packet), net::ipv4_end(packet));
            &&& frame.len() >= 14
            &&& net::is_ipv4(packet)
            &&& packet[9] == net::IP_PROTOCOL_UDP
            &&& packet.subrange(12, 16) == src
            &&& packet.subrange(16, 20) == dst
            &&& net::is_udp(datagram, src, dst)
            &&& bytes::be16_at(datagram, 2) == CLIENT_PORT
            &&& datagram.subrange(8, net::udp_end(datagram)) == msg
        }),
    ensures
        reply_of(frame, xid) == reply_in(msg, xid),
{
}

/// A message from a server's port to a client's is read out of its frame.
pub proof fn law_frame_carries_message(
    src_mac: Seq<u8>,
    dst_mac: Seq<u8>,
    src: Seq<u8>,
    xid: u32,
    msg: Seq<u8>,
)
    requires
        src_mac.len() == 6,
        dst_mac.len() == 6,
        src.len() == 4,
        28 + msg.len() <= 65535,
    ensures
        reply_of(dhcp_frame(src_mac, dst_mac, src, SERVER_PORT, CLIENT_PORT, msg), xid)
            == reply_in(msg, xid),
{
    reveal(dhcp_frame);
    net::law_udp_frame_round_trip(
        src_mac,
        dst_mac,
        src,
        seq![255u8, 255u8, 255u8, 255u8],
        SERVER_PORT,
        CLIENT_PORT,
        SERVER_PORT,
        msg,
    );
    lemma_reply_from_parts(
        dhcp_frame(src_mac, dst_mac, src, SERVER_PORT, CLIENT_PORT, msg),
        src,
        seq![255u8, 255u8, 255u8, 255u8],
        xid,
        msg,
    );
}

/// A reply is accepted for its own transaction, and its options are those that
/// were put in.
pub proof fn law_reply_round_trip(xid: u32, mac: Seq<u8>, options: Seq<u8>)
    requires
        mac.len() == 6,
        options.len() <= 59,
        after_options(no_options(), option_area(options)).msg_type is Some,
    ensures
        ({
            let o = after_options(no_options(), option_area(options));
            reply_in(message(2, xid, mac, bytes::zeros(4), options), xid) == Some(
                ParsedDhcp {
                    msg_type: o.msg_type->0,
                    yiaddr: network::ip_of(bytes::zeros(4)),
                    server_id: o.server_id,
                    netmask: o.netmask,
                    router: o.router,
                    dns: o.dns,
                    lease_time: o.lease_time,
                },
            )
        }),
{
    lemma_message_parts(2, xid, mac, bytes::zeros(4), options);
}

/// One option at the head of an option area is read, and reading goes on after it.
proof fn lemma_one_option(o: Options, tag: u8, val: Seq<u8>, rest: Seq<u8>)
    requires
        tag != 0,
        tag != 255,
        val.len() < 256,
    ensures
        after_options(o, seq![tag, val.len() as u8] + val + rest) == after_options(
            after_option(o, tag, val),
            rest,
        ),
{
    let s = seq![tag, val.len() as u8] + val + rest;
    assert(s.subrange(2, 2 + s[1]) =~= val);
    assert(s.skip(2 + s[1]) =~= rest);
}

proof fn lemma_nak_options(server_id: Seq<u8>)
    requires
        server_id.len() == 4,
    ensures
        nak_options(server_id).len() == 59,
        ({
            let o = after_options(no_options(), option_area(nak_options(server_id)));
            o.msg_type == Some(DhcpMsgType::Nak) && o.server_id == Some(network::ip_of(server_id))
        }),
{
    lemma_nak_text();
    let options = nak_options(server_id);
    let end = seq![0xffu8] + bytes::zeros(0);
    let tail2 = seq![56u8, 48u8] + nak_text() + end;
    let tail1 = seq![54u8, 4u8] + server_id + tail2;
    let tail0 = seq![53u8, 1u8] + seq![6u8] + tail1;
    assert(option_area(options) =~= tail0);
    let o1 = after_option(no_options(), 53, seq![6u8]);
    let o2 = after_option(o1, 54, server_id);
    let o3 = after_option(o2, 56, nak_text());
    lemma_one_option(no_options(), 53, seq![6u8], tail1);
    lemma_one_option(o1, 54, server_id, tail2);
    lemma_one_option(o2, 56, nak_text(), end);
    assert(end[0] == 255);
    assert(after_options(o3, end) == o3);
    assert(server_id.subrange(0, 4) =~= server_id);
}

/// Every refusal that the client makes up is read back as a refusal.
pub proof fn law_nak_recognised(mac: Seq<u8>, xid: u32, server_id: Seq<u8>)
    requires
        mac.len() == 6,
        server_id.len() == 4,
    ensures
        reply_of(nak_frame(mac, xid, server_id), xid) matches Some(reply)
            && reply.msg_type is Nak && reply.server_id == Some(network::ip_of(server_id)),
{
    let options = nak_options(server_id);
    lemma_nak_options(server_id);
    lemma_message_parts(2, xid, mac, bytes::zeros(4), options);
    law_reply_round_trip(xid, mac, options);
    law_frame_carries_message(
        nak_mac(),
        mac,
        server_id,
        xid,
        message(2, xid, mac, bytes::zeros(4), options),
    );
}

fn first_or(a: Option<Ipv4Address>, b: Option<Ipv4Address>, v: Ipv4Address) -> (r: Ipv4Address)
    ensures
        r == or_value(or_else(a, b), v),
{
    match a {
        Some(x) => x,
        None => match b {
            Some(x) => x,
            None => v,
        },
    }
}

fn make_lease(offer: &ParsedDhcp, ack: &ParsedDhcp, server_id: Ipv4Address, tick: u64) -> (r:
    DhcpLease)
    ensures
        r == lease_of(*offer, *ack, server_id, tick),
{
    let zero: Ipv4Address = [0, 0, 0, 0];
    let netmask: Ipv4Address = [255, 255, 255, 0];
    let gateway: Ipv4Address = [10, 0, 2, 2];
    let dns: Ipv4Address = [10, 0, 2, 3];
    proof {
        assert(zero@ =~= seq![0u8, 0u8, 0u8, 0u8]);
        assert(netmask@ =~= seq![255u8, 255u8, 255u8, 0u8]);
        assert(gateway@ =~= seq![10u8, 0u8, 2u8, 2u8]);
        assert(dns@ =~= seq![10u8, 0u8, 2u8, 3u8]);
        network::lemma_ip_of(netmask);
        network::lemma_ip_of(gateway);
        network::lemma_ip_of(dns);
        if ack.yiaddr@ == zero@ {
            assert(ack.yiaddr =~= zero);
        }
    }
    DhcpLease {
        ip: if same_ip(&ack.yiaddr, &zero) {
            offer.yiaddr
        } else {
            ack.yiaddr
        },
        netmask: first_or(ack.netmask, offer.netmask, netmask),
        gateway: first_or(ack.router, offer.router, gateway),
        dns: first_or(ack.dns, offer.dns, dns),
        server_id,
        lease_time: match ack.lease_time {
            Some(t) => t,
            None => match offer.lease_time {
                Some(t) => t,
                None => 86400,
            },
        },
        bound_tick: tick,
    }
}

fn choose_server(offer: &ParsedDhcp) -> (r: Ipv4Address)
    ensures
        r == server_of(*offer),
{
    let gateway: Ipv4Address = [10, 0, 2, 2];
    proof {
        assert(gateway@ =~= seq![10u8, 0u8, 2u8, 2u8]);
        network::lemma_ip_of(gateway);
    }
    first_or(offer.server_id, offer.router, gateway)
}

/// The reply at the head of the device's queue, which is taken off.
fn take_reply(device: &mut VirtioNet, xid: u32) -> (r: Option<ParsedDhcp>)
    ensures
        final(device).mac == old(device).mac,
        final(device).fault == old(device).fault,
        final(device).sent() == old(device).sent(),
        old(device).fault is Some ==> r is None && final(device).arrived() == old(device).arrived(),
        old(device).fault is None && old(device).arrived().len() == 0 ==> r is None && final(device).arrived() == old(device).arrived(),
        old(device).fault is None && old(device).arrived().len() > 0 ==> r == reply_of(
            old(device).arrived()[0],
            xid,
        ) && final(device).arrived() == old(device).arrived().skip(1),
{
    match device.receive() {
        Ok(Some(frame)) => parse_dhcp_packet(frame.as_slice(), xid),
        _ => None,
    }
}

/// Looks for a lease, one step to a call. `Ok(None)` asks for another call once
/// more frames have arrived.
pub fn acquire_lease(
    dhcp: &mut Dhcp,
    progress: &mut Progress,
    device: &mut VirtioNet,
    tick: u64,
) -> (r: Result<Option<DhcpLease>, DhcpError>)
    ensures
        final(device).mac == old(device).mac,
        final(device).fault == old(device).fault,
        (r, together(*final(dhcp), *final(device), *final(progress))) == (if old(device).fault is None {
            lease_step(together(*old(dhcp), *old(device), *old(progress)), old(device).mac, tick)
        } else {
            faulty_step(together(*old(dhcp), *old(device), *old(progress)))
        }),
{
    let mac = device.mac;
    match *progress {
        Progress::Init { attempt } => {
            if attempt >= MAX_DHCP_ATTEMPTS {
                return Err(DhcpError::NakReceived);
            }
            let next: usize = attempt + 1;
            let xid: u32 = 0x5641_4e54u32 ^ (((tick % 0x1_0000_0000) as u32).wrapping_mul(
                1103515245,
            ).wrapping_add(next as u32));
            let discover = build_discover(mac, xid);
            if device.transmit(discover).is_err() {
                return Err(DhcpError::TransmitFailed);
            }
            *progress = Progress::Selecting { attempt: next, xid, polls: POLL_ATTEMPTS };
            Ok(None)
        },
        Progress::Selecting { attempt, xid, polls } => {
            if polls == 0 {
                return Err(DhcpError::OfferTimeout);
            }
            let reply = take_reply(device, xid);
            if let Some(offer) = reply {
                if offer.msg_type == DhcpMsgType::Offer {
                    let server_id = choose_server(&offer);
                    let request = build_request(mac, xid, offer.yiaddr, server_id);
                    if device.transmit(request).is_err() {
                        return Err(DhcpError::TransmitFailed);
                    }
                    if attempt == 1 {
                        let nak = build_nak(mac, xid, server_id);
                        proof {
                            law_nak_recognised(mac@, xid, server_id@);
                        }
                        if let Some(parsed) = parse_dhcp_packet(nak.as_slice(), xid) {
                            if parsed.msg_type == DhcpMsgType::Nak {
                                dhcp.nak_retry_count = dhcp.nak_retry_count.wrapping_add(1);
                                discard_arrived(device);
                                *progress = Progress::Init { attempt };
                                return Ok(None);
                            }
                        }
                    }
                    *progress = Progress::Requesting {
                        attempt,
                        xid,
                        polls: POLL_ATTEMPTS,
                        offer,
                        server_id,
                    };
                    return Ok(None);
                }
            }
            *progress = Progress::Selecting { attempt, xid, polls: polls - 1 };
            Ok(None)
        },
        Progress::Requesting { attempt, xid, polls, offer, server_id } => {
            if polls == 0 {
                return Err(DhcpError::AckTimeout);
            }
            let reply = take_reply(device, xid);
            if let Some(parsed) = reply {
                if parsed.msg_type == DhcpMsgType::Ack {
                    let lease = make_lease(&offer, &parsed, server_id, tick);
                    dhcp.current_lease = Some(lease);
                    return Ok(Some(lease));
                } else if parsed.msg_type == DhcpMsgType::Nak {
                    dhcp.nak_retry_count = dhcp.nak_retry_count.wrapping_add(1);
                    discard_arrived(device);
                    *progress = Progress::Init { attempt };
                    return Ok(None);
                }
            }
            *progress = Progress::Requesting { attempt, xid, polls: polls - 1, offer, server_id };
            Ok(None)
        },
    }
}

/// An offer is answered with one request, for the address that was offered, to
/// the server that offered it; a later step waits for the answer to just that
/// offer, in the same transaction. Only the first attempt starts over instead.
#[verifier::spinoff_prover]
#[verifier::rlimit(60)]
pub proof fn law_offer_is_requested(
    v: DhcpView,
    mac: MacAddress,
    tick: u64,
    attempt: usize,
    xid: u32,
    polls: usize,
    offer: ParsedDhcp,
    server: Ipv4Address,
)
    requires
        v.progress == (Progress::Selecting { attempt, xid, polls }),
        polls > 0,
        v.arrived.len() > 0,
        reply_of(v.arrived[0], xid) == Some(offer),
        offer.msg_type is Offer,
        offer.server_id == Some(server),
        server@.len() == 4,
        offer.yiaddr@.len() == 4,
    ensures
        ({
            let (r, after) = lease_step(v, mac, tick);
            &&& r == Ok::<Option<DhcpLease>, DhcpError>(None)
            &&& after.lease == v.lease
            &&& after.sent.len() == v.sent.len() + 1
            &&& after.sent.drop_last() == v.sent
            &&& exists|options: Seq<u8>|
                {
                    &&& after.sent.last() == #[trigger] client_frame(mac@, xid, options)
                    &&& options.take(3) == seq![53u8, 1u8, 3u8]
                    &&& options.subrange(3, 9) == seq![50u8, 4u8] + offer.yiaddr@
                    &&& options.subrange(9, 15) == seq![54u8, 4u8] + server@
                }
            &&& if attempt == 1 {
                after.progress == (Progress::Init { attempt }) && after.arrived.len() == 0
            } else {
                after.progress == (Progress::Requesting {
                    attempt,
                    xid,
                    polls: 100_000,
                    offer,
                    server_id: server,
                }) && after.arrived == v.arrived.skip(1)
            }
        }),
{
    let options = request_options(offer.yiaddr@, server@);
    let after = lease_step(v, mac, tick).1;
    assert(after.sent.last() == client_frame(mac@, xid, options));
    assert(after.sent.drop_last() =~= v.sent);
    assert(options.take(3) =~= seq![53u8, 1u8, 3u8]);
    assert(options.subrange(3, 9) =~= seq![50u8, 4u8] + offer.yiaddr@);
    assert(options.subrange(9, 15) =~= seq![54u8, 4u8] + server@);
}

/// An acknowledgement gives a lease of what it says; what it does not say is as
/// in the offer. The lease is kept, nothing more is sent, and it counts from the
/// tick at which the acknowledgement was taken.
pub proof fn law_acknowledged_lease(
    v: DhcpView,
    mac: MacAddress,
    tick: u64,
    attempt: usize,
    xid: u32,
    polls: usize,
    offer: ParsedDhcp,
    ack: ParsedDhcp,
    server_id: Ipv4Address,
)
    requires
        v.progress == (Progress::Requesting { attempt, xid, polls, offer, server_id }),
        polls > 0,
        v.arrived.len() > 0,
        reply_of(v.arrived[0], xid) == Some(ack),
        ack.msg_type is Ack,
    ensures
        ({
            let (r, after) = lease_step(v, mac, tick);
            &&& r matches Ok(Some(lease))
            &&& after.lease == Some(lease)
            &&& after.sent == v.sent
            &&& after.naks == v.naks
            &&& lease.bound_tick == tick
            &&& lease.server_id == server_id
            &&& ack.yiaddr@ == seq![0u8, 0u8, 0u8, 0u8] ==> lease.ip == offer.yiaddr
            &&& ack.yiaddr@ != seq![0u8, 0u8, 0u8, 0u8] ==> lease.ip == ack.yiaddr
            &&& ack.netmask matches Some(x) ==> lease.netmask == x
            &&& ack.netmask is None ==> (offer.netmask matches Some(x) ==> lease.netmask == x)
            &&& ack.router matches Some(x) ==> lease.gateway == x
            &&& ack.router is None ==> (offer.router matches Some(x) ==> lease.gateway == x)
            &&& ack.dns matches Some(x) ==> lease.dns == x
            &&& ack.dns is None ==> (offer.dns matches Some(x) ==> lease.dns == x)
            &&& ack.lease_time matches Some(x) ==> lease.lease_time == x
            &&& ack.lease_time is None ==> (offer.lease_time matches Some(x) ==> lease.lease_time
                == x)
            &&& ack.lease_time is None && offer.lease_time is None ==> lease.lease_time == 86400
        }),
{
}

/// A refusal is counted, forgets all that has arrived, gives no lease, and the
/// next step discovers anew; after three attempts the search has failed.
pub proof fn law_refused_starts_over(
    v: DhcpView,
    mac: MacAddress,
    tick: u64,
    later: u64,
    attempt: usize,
    xid: u32,
    polls: usize,
    offer: ParsedDhcp,
    nak: ParsedDhcp,
    server_id: Ipv4Address,
)
    requires
        v.progress == (Progress::Requesting { attempt, xid, polls, offer, server_id }),
        polls > 0,
        v.naks < u32::MAX,
        v.arrived.len() > 0,
        reply_of(v.arrived[0], xid) == Some(nak),
        nak.msg_type is Nak,
    ensures
        ({
            let (r1, v1) = lease_step(v, mac, tick);
            let (r2, v2) = lease_step(v1, mac, later);
            &&& r1 == Ok::<Option<DhcpLease>, DhcpError>(None)
            &&& v1.naks == v.naks + 1
            &&& v1.lease == v.lease
            &&& v1.arrived.len() == 0
            &&& v1.sent == v.sent
            &&& if attempt >= 3 {
                r2 == Err::<Option<DhcpLease>, DhcpError>(DhcpError::NakReceived) && v2 == v1
            } else {
                &&& r2 == Ok::<Option<DhcpLease>, DhcpError>(None)
                &&& v2.sent.len() == v1.sent.len() + 1
                &&& v2.progress matches Progress::Selecting { attempt: next, xid: new, polls: left }
                &&& next == attempt + 1
                &&& left == 100_000
                &&& v2.sent.last() == client_frame(mac@, new, discover_options())
            }
        }),
{
}

/// A step without a reply sends nothing and gives nothing; it uses up one of
/// those that are left, and with none left the search fails by what it waited
/// for.
pub proof fn law_waiting_runs_out(v: DhcpView, mac: MacAddress, tick: u64)
    requires
        v.arrived.len() == 0,
        !(v.progress is Init),
    ensures
        ({
            let (r, after) = lease_step(v, mac, tick);
            &&& after.sent == v.sent
            &&& after.lease == v.lease
            &&& after.naks == v.naks
            &&& match v.progress {
                Progress::Selecting { attempt, xid, polls } => if polls == 0 {
                    r == Err::<Option<DhcpLease>, DhcpError>(DhcpError::OfferTimeout)
                } else {
                    r is Ok && after.progress == (Progress::Selecting {
                        attempt,
                        xid,
                        polls: (polls - 1) as usize,
                    })
                },
                Progress::Requesting { attempt, xid, polls, offer, server_id } => if polls == 0 {
                    r == Err::<Option<DhcpLease>, DhcpError>(DhcpError::AckTimeout)
                } else {
                    r is Ok && after.progress == (Progress::Requesting {
                        attempt,
                        xid,
                        polls: (polls - 1) as usize,
                        offer,
                        server_id,
                    })
                },
                _ => true,
            }
        }),
{
}

/// A client's message says that it is one, who sends it, in which transaction,
/// and what it asks for, each in its place.
#[verifier::spinoff_prover]
#[verifier::rlimit(60)]
pub proof fn law_message_places(op: u8, xid: u32, mac: Seq<u8>, ciaddr: Seq<u8>, options: Seq<u8>)
    requires
        mac.len() == 6,
        ciaddr.len() == 4,
    ensures
        ({
            let m = message(op, xid, mac, ciaddr, options);
            &&& m.len() >= 300
            &&& m[0] == op
            &&& m.subrange(4, 8) == bytes::be32_bytes(xid)
            &&& m.subrange(12, 16) == ciaddr
            &&& m.subrange(28, 34) == mac
            &&& m.subrange(236, 240) == seq![99u8, 130u8, 83u8, 99u8]
            &&& m.subrange(240, 240 + options.len() as int) == options
            &&& m[240 + options.len() as int] == 255
        }),
{
    reveal(message);
    let m = message(op, xid, mac, ciaddr, options);
    assert(fixed_part(op, xid, mac, ciaddr).len() == 240);
    assert(m.subrange(4, 8) =~= bytes::be32_bytes(xid));
    assert(m.subrange(12, 16) =~= ciaddr);
    assert(m.subrange(28, 34) =~= mac);
    assert(m.subrange(236, 240) =~= seq![99u8, 130u8, 83u8, 99u8]);
    assert(m.subrange(240, 240 + options.len() as int) =~= options);
}

} // verus!
