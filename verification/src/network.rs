//! The socket layer: address resolution, echo replies, UDP delivery and the
//! TCP client and server state machine.
//!
//! The module's whole state is one value, `Network`. Operations that wait for
//! the peer are resumable: each call does what the frames that have arrived
//! allow and says whether to call again once more frames have come in.
use vstd::prelude::*;

pub mod bringup;
pub mod calls;
pub mod config;
pub mod exchange;
pub mod laws;
pub mod stream;

pub use bringup::{initialize, status};
pub use config::{default_configuration, load_configuration, parse_configuration};
pub use stream::{
    socket_close, socket_connect, socket_getpeername, socket_getsockname, socket_getsockopt,
    socket_has_data, socket_recv, socket_recvfrom, socket_send, socket_sendto, socket_setsockopt,
    tcp_close, tcp_connect, tcp_receive, tcp_send,
};

use crate::bytes::{bytes_equal, push_all};
use crate::net::{self, Ipv4Address, MacAddress, TcpHeader};
use crate::ordmap::{self, OrdMap};
use crate::virtio_net::{VirtioNet, VirtioNetError};

verus! {

pub const ARP_POLL_ATTEMPTS: usize = 2_000_000;

pub const TCP_POLL_ATTEMPTS: usize = 2_000_000;

pub const RESOLVE_POLL_ATTEMPTS: usize = 10_000;

pub const DEFAULT_WINDOW_SIZE: u16 = 65535;

pub const MAX_TCP_CHUNK_SIZE: usize = 1400;

#[derive(Clone, Copy, Debug, Eq, PartialEq)]
pub struct NetworkConfig {
    pub address: Ipv4Address,
    pub gateway: Ipv4Address,
    pub dns: Ipv4Address,
    pub tcp_host: Ipv4Address,
    pub tcp_port: u16,
}

#[derive(Clone, Copy, Debug, Eq, PartialEq)]
pub struct NetworkInfo {
    pub mac: MacAddress,
    pub local_ip: Ipv4Address,
    pub dns_server: Ipv4Address,
    pub tcp_host: Ipv4Address,
    pub tcp_port: u16,
    pub gateway_mac: Option<MacAddress>,
    pub gateway_echoed: bool,
    pub dns_replied: bool,
    pub tcp_connected: bool,
}

#[derive(Clone, Copy, Debug, Eq, PartialEq)]
pub struct TcpConnection {
    pub local_port: u16,
    pub remote_ip: Ipv4Address,
    pub remote_port: u16,
    pub next_sequence: u32,
    pub acknowledgement: u32,
    pub socket_handle: u32,
}

#[derive(Clone, Copy, Debug, Eq, PartialEq, Structural)]
pub enum NetworkError {
    Device(VirtioNetError),
    GatewayUnreachable,
    GatewayNoEcho,
    DnsUnreachable,
    Configuration,
    Unavailable,
    InvalidTcpPort,
    TcpHandshakeTimeout,
    TcpReceiveTimeout,
    TcpPayloadTooLarge,
    SocketNotFound,
    InvalidSocketType,
    AlreadyBound,
    PortInUse,
    NotListening,
    NotConnected,
    AlreadyConnected,
    ConnectionReset,
    ConnectionClosed,
    WouldBlock,
    InvalidArgument,
}

#[derive(Clone, Copy, Debug, Eq, PartialEq, Structural)]
pub enum SocketType {
    Stream,
    Datagram,
    Raw,
}

#[derive(Clone, Copy, Debug, Eq, PartialEq, Structural)]
pub enum TcpState {
    Closed,
    Listen,
    SynSent,
    SynReceived,
    Established,
    FinWait1,
    FinWait2,
    CloseWait,
    Closing,
    LastAck,
    TimeWait,
    Reset,
}

#[derive(Clone, Copy, Debug, Eq, PartialEq, Structural)]
pub struct SocketOptions {
    pub reuse_addr: bool,
    pub rcvbuf: usize,
    pub sndbuf: usize,
    pub nonblocking: bool,
}

/// The options of a new socket.
pub open spec fn default_options() -> SocketOptions {
    SocketOptions { reuse_addr: false, rcvbuf: 65536, sndbuf: 65536, nonblocking: false }
}

impl Default for SocketOptions {
    fn default() -> (r: Self)
        ensures
            r == default_options(),
    {
        SocketOptions { reuse_addr: false, rcvbuf: 65536, sndbuf: 65536, nonblocking: false }
    }
}

pub struct UdpDatagram {
    pub src_ip: Ipv4Address,
    pub src_port: u16,
    pub data: Vec<u8>,
}

#[derive(Clone, Copy, Debug)]
pub struct PendingSyn {
    pub remote_ip: Ipv4Address,
    pub remote_port: u16,
    pub remote_mac: MacAddress,
    pub our_isn: u32,
    pub peer_seq: u32,
}

pub struct TcpSocket {
    pub state: TcpState,
    pub local_ip: Ipv4Address,
    pub local_port: u16,
    pub remote_ip: Ipv4Address,
    pub remote_port: u16,
    pub remote_mac: Option<MacAddress>,
    pub seq_num: u32,
    pub ack_num: u32,
    pub snd_una: u32,
    pub snd_wnd: u16,
    pub rx_buffer: Vec<u8>,
    pub rx_closed: bool,
    pub tx_closed: bool,
    pub backlog: usize,
    pub accept_queue: Vec<u32>,
    pub pending_syns: Vec<PendingSyn>,
    pub options: SocketOptions,
}

pub struct UdpSocket {
    pub local_ip: Ipv4Address,
    pub local_port: u16,
    pub bound: bool,
    pub connected_peer: Option<(Ipv4Address, u16)>,
    pub rx_queue: Vec<UdpDatagram>,
    pub options: SocketOptions,
}

pub enum Socket {
    Tcp(TcpSocket),
    Udp(UdpSocket),
    Raw,
}

// ---------------------------------------------------------------------------
// The mathematical model
// ---------------------------------------------------------------------------
#[verifier::ext_equal]
pub struct DatagramView {
    pub src_ip: Ipv4Address,
    pub src_port: u16,
    pub data: Seq<u8>,
}

#[verifier::ext_equal]
pub struct TcpView {
    pub state: TcpState,
    pub local_ip: Ipv4Address,
    pub local_port: u16,
    pub remote_ip: Ipv4Address,
    pub remote_port: u16,
    pub remote_mac: Option<MacAddress>,
    pub seq_num: u32,
    pub ack_num: u32,
    pub snd_una: u32,
    pub snd_wnd: u16,
    pub rx: Seq<u8>,
    pub rx_closed: bool,
    pub tx_closed: bool,
    pub backlog: usize,
    pub accept_queue: Seq<u32>,
    pub pending: Seq<PendingSyn>,
    pub options: SocketOptions,
}

#[verifier::ext_equal]
pub struct UdpView {
    pub local_ip: Ipv4Address,
    pub local_port: u16,
    pub bound: bool,
    pub connected_peer: Option<(Ipv4Address, u16)>,
    pub rx_queue: Seq<DatagramView>,
    pub options: SocketOptions,
}

#[verifier::ext_equal]
pub enum SocketView {
    Tcp(TcpView),
    Udp(UdpView),
    Raw,
}

impl UdpDatagram {
    pub open spec fn view(&self) -> DatagramView {
        DatagramView { src_ip: self.src_ip, src_port: self.src_port, data: self.data@ }
    }
}

impl TcpSocket {
    pub open spec fn view(&self) -> TcpView {
        TcpView {
            state: self.state,
            local_ip: self.local_ip,
            local_port: self.local_port,
            remote_ip: self.remote_ip,
            remote_port: self.remote_port,
            remote_mac: self.remote_mac,
            seq_num: self.seq_num,
            ack_num: self.ack_num,
            snd_una: self.snd_una,
            snd_wnd: self.snd_wnd,
            rx: self.rx_buffer@,
            rx_closed: self.rx_closed,
            tx_closed: self.tx_closed,
            backlog: self.backlog,
            accept_queue: self.accept_queue@,
            pending: self.pending_syns@,
            options: self.options,
        }
    }
}

impl UdpSocket {
    pub open spec fn view(&self) -> UdpView {
        UdpView {
            local_ip: self.local_ip,
            local_port: self.local_port,
            bound: self.bound,
            connected_peer: self.connected_peer,
            rx_queue: self.rx_queue@.map_values(|d: UdpDatagram| d@),
            options: self.options,
        }
    }
}

impl Socket {
    pub open spec fn view(&self) -> SocketView {
        match self {
            Socket::Tcp(s) => SocketView::Tcp(s@),
            Socket::Udp(s) => SocketView::Udp(s@),
            Socket::Raw => SocketView::Raw,
        }
    }
}

/// Addresses of neighbours, each at most once.
pub struct ArpTable {
    pub entries: Vec<(Ipv4Address, MacAddress)>,
}

/// The live part of the stack.
pub struct NetworkState {
    pub device: VirtioNet,
    pub configuration: NetworkConfig,
    pub arp_table: ArpTable,
    pub gateway_mac: Option<MacAddress>,
    pub gateway_echoed: bool,
    pub dns_replied: bool,
    pub tcp_connected: bool,
    pub sockets: OrdMap<Socket>,
}

/// The numbers that are handed out in turn: ephemeral ports, socket handles
/// and the base of initial sequence numbers.
#[derive(Clone, Copy, Debug, Eq, PartialEq, Structural)]
pub struct Counters {
    pub next_port: u16,
    pub next_handle: u32,
    pub isn_counter: u32,
}

/// The socket layer: its live part once the device is up, and its counters.
pub struct Network {
    pub state: Option<NetworkState>,
    pub counters: Counters,
}

#[verifier::ext_equal]
pub struct NetView {
    pub mac: MacAddress,
    pub arrived: Seq<Seq<u8>>,
    pub sent: Seq<Seq<u8>>,
    pub fault: Option<VirtioNetError>,
    pub configuration: NetworkConfig,
    pub arp: Map<Ipv4Address, MacAddress>,
    pub gateway_mac: Option<MacAddress>,
    pub gateway_echoed: bool,
    pub dns_replied: bool,
    pub tcp_connected: bool,
    pub sockets: Map<u64, SocketView>,
    pub counters: Counters,
}

/// What each socket of a table looks like.
pub open spec fn socket_views(m: Map<u64, Socket>) -> Map<u64, SocketView> {
    m.map_values(|s: Socket| s@)
}

impl NetworkState {
    pub open spec fn wf(&self) -> bool {
        self.sockets.wf() && self.arp_table.wf()
    }

    pub open spec fn with(&self, counters: Counters) -> NetView {
        NetView {
            mac: self.device.mac,
            arrived: self.device.arrived(),
            sent: self.device.sent(),
            fault: self.device.fault,
            configuration: self.configuration,
            arp: self.arp_table@,
            gateway_mac: self.gateway_mac,
            gateway_echoed: self.gateway_echoed,
            dns_replied: self.dns_replied,
            tcp_connected: self.tcp_connected,
            sockets: socket_views(self.sockets@),
            counters,
        }
    }
}

impl Network {
    pub open spec fn wf(&self) -> bool {
        self.state matches Some(state) ==> state.wf()
    }

    /// The model of the layer while the device is up.
    pub open spec fn view(&self) -> NetView
        recommends
            self.state is Some,
    {
        self.state->0.with(self.counters)
    }

    /// The layer before its device is brought up.
    pub fn new() -> (r: Self)
        ensures
            r.wf(),
            r.state is None,
            r.counters == (Counters {
                next_port: 49_152,
                next_handle: 1,
                isn_counter: 0x1000_0000,
            }),
    {
        Network {
            state: None,
            counters: Counters { next_port: 49_152, next_handle: 1, isn_counter: 0x1000_0000 },
        }
    }
}

pub(crate) proof fn lemma_views_insert(m: Map<u64, Socket>, h: u64, s: Socket)
    ensures
        socket_views(m.insert(h, s)) == socket_views(m).insert(h, s@),
{
    assert(socket_views(m.insert(h, s)) =~= socket_views(m).insert(h, s@));
}

pub(crate) proof fn lemma_views_remove(m: Map<u64, Socket>, h: u64)
    ensures
        socket_views(m.remove(h)) == socket_views(m).remove(h),
{
    assert(socket_views(m.remove(h)) =~= socket_views(m).remove(h));
}

// ---------------------------------------------------------------------------
// Neighbour table
// ---------------------------------------------------------------------------
pub(crate) fn same_ip(a: &Ipv4Address, b: &Ipv4Address) -> (r: bool)
    ensures
        r == (*a == *b),
{
    let r = a[0] == b[0] && a[1] == b[1] && a[2] == b[2] && a[3] == b[3];
    proof {
        if r {
            assert(a@ =~= b@);
            assert(*a =~= *b);
        }
    }
    r
}

impl ArpTable {
    pub open spec fn wf(&self) -> bool {
        forall|i: int, j: int|
            0 <= i < j < self.entries.len() ==> self.entries@[i].0 != self.entries@[j].0
    }

    pub open spec fn holds(&self, ip: Ipv4Address) -> bool {
        exists|i: int| 0 <= i < self.entries.len() && #[trigger] self.entries@[i].0 == ip
    }

    pub open spec fn view(&self) -> Map<Ipv4Address, MacAddress> {
        Map::new(
            |ip: Ipv4Address| self.holds(ip),
            |ip: Ipv4Address|
                self.entries@[choose|i: int|
                    0 <= i < self.entries.len() && #[trigger] self.entries@[i].0 == ip].1,
        )
    }

    pub fn new() -> (r: Self)
        ensures
            r.wf(),
            r@ == Map::<Ipv4Address, MacAddress>::empty(),
    {
        let r = ArpTable { entries: Vec::new() };
        assert(r@ =~= Map::<Ipv4Address, MacAddress>::empty());
        r
    }

    proof fn lemma_entry(&self, i: int)
        requires
            self.wf(),
            0 <= i < self.entries.len(),
        ensures
            self@.dom().contains(self.entries@[i].0),
            self@[self.entries@[i].0] == self.entries@[i].1,
    {
        let ip = self.entries@[i].0;
        let j = choose|j: int| 0 <= j < self.entries.len() && #[trigger] self.entries@[j].0 == ip;
        assert(self.entries@[j].0 == self.entries@[i].0);
        assert(i == j);
    }

    fn find(&self, ip: &Ipv4Address) -> (r: Option<usize>)
        requires
            self.wf(),
        ensures
            r is Some <==> self@.dom().contains(*ip),
            r matches Some(i) ==> i < self.entries.len() && self.entries@[i as int].0 == *ip,
    {
        let mut i: usize = 0;
        while i < self.entries.len()
            invariant
                i <= self.entries.len(),
                forall|j: int| 0 <= j < i ==> self.entries@[j].0 != *ip,
            decreases self.entries.len() - i,
        {
            if same_ip(&self.entries[i].0, ip) {
                assert(self.entries@[i as int].0 == *ip);
                return Some(i);
            }
            i += 1;
        }
        None
    }

    pub fn get(&self, ip: Ipv4Address) -> (r: Option<MacAddress>)
        requires
            self.wf(),
        ensures
            r is Some <==> self@.dom().contains(ip),
            r matches Some(mac) ==> mac == self@[ip],
    {
        match self.find(&ip) {
            Some(i) => {
                proof {
                    self.lemma_entry(i as int);
                }
                Some(self.entries[i].1)
            },
            None => None,
        }
    }

    pub fn insert(&mut self, ip: Ipv4Address, mac: MacAddress)
        requires
            old(self).wf(),
        ensures
            final(self).wf(),
            final(self)@ == old(self)@.insert(ip, mac),
    {
        let found = self.find(&ip);
        let ghost before = *self;
        let ghost place = match found {
            Some(i) => i as int,
            None => self.entries@.len() as int,
        };
        match found {
            Some(i) => {
                self.entries[i] = (ip, mac);
            },
            None => {
                assert forall|j: int| 0 <= j < self.entries.len() implies self.entries@[j].0
                    != ip by {
                    before.lemma_entry(j);
                }
                self.entries.push((ip, mac));
            },
        }
        proof {
            assert(self.wf());
            assert(self.entries@[place].0 == ip && self.entries@[place].1 == mac);
            assert(self.holds(ip));
            assert forall|k: Ipv4Address| #[trigger]
                self@.dom().contains(k) == before@.insert(ip, mac).dom().contains(k) by {
                if before.holds(k) {
                    let j = choose|j: int|
                        0 <= j < before.entries.len() && #[trigger] before.entries@[j].0 == k;
                    assert(self.entries@[j].0 == k);
                }
                if self.holds(k) {
                    let j = choose|j: int|
                        0 <= j < self.entries.len() && #[trigger] self.entries@[j].0 == k;
                    if j != place {
                        assert(before.entries@[j].0 == k);
                    }
                }
            }
            assert forall|k: Ipv4Address| #[trigger] self@.dom().contains(k) implies self@[k]
                == before@.insert(ip, mac)[k] by {
                let j = choose|j: int|
                    0 <= j < self.entries.len() && #[trigger] self.entries@[j].0 == k;
                self.lemma_entry(j);
                if j != place {
                    before.lemma_entry(j);
                    assert(self.entries@[j] == before.entries@[j]);
                    assert(self.entries@[j].0 != self.entries@[place].0);
                }
            }
            assert(self@ =~= before@.insert(ip, mac));
        }
    }
}

// ---------------------------------------------------------------------------
// Sending
// ---------------------------------------------------------------------------
impl NetView {
    /// `frames` go out, unless the device has failed.
    pub open spec fn sending(self, frames: Seq<Seq<u8>>) -> NetView {
        if self.fault is None {
            NetView { sent: self.sent + frames, ..self }
        } else {
            self
        }
    }

    /// A TCP frame from this host.
    pub open spec fn tcp_out(
        self,
        mac: MacAddress,
        ip: Ipv4Address,
        local_port: u16,
        remote_port: u16,
        sequence: u32,
        acknowledgement: u32,
        flags: u8,
        payload: Seq<u8>,
    ) -> Seq<u8> {
        net::tcp_frame(
            self.mac@,
            mac@,
            self.configuration.address@,
            ip@,
            local_port,
            remote_port,
            sequence,
            acknowledgement,
            flags,
            DEFAULT_WINDOW_SIZE,
            payload,
        )
    }
}

pub(crate) fn tcp_out(
    our_mac: MacAddress,
    our_ip: Ipv4Address,
    mac: MacAddress,
    ip: Ipv4Address,
    local_port: u16,
    remote_port: u16,
    sequence: u32,
    acknowledgement: u32,
    flags: u8,
    payload: &[u8],
) -> (r: Vec<u8>)
    requires
        payload.len() <= 65535,
    ensures
        r@ == net::tcp_frame(
            our_mac@,
            mac@,
            our_ip@,
            ip@,
            local_port,
            remote_port,
            sequence,
            acknowledgement,
            flags,
            DEFAULT_WINDOW_SIZE,
            payload@,
        ),
{
    proof {
        net::lemma_transport_sum_bounds(
            our_ip@,
            ip@,
            net::IP_PROTOCOL_TCP,
            net::tcp_bytes(
                local_port,
                remote_port,
                sequence,
                acknowledgement,
                flags,
                DEFAULT_WINDOW_SIZE,
                0,
                payload@,
            ),
        );
    }
    net::build_tcp_frame(
        our_mac,
        mac,
        our_ip,
        ip,
        local_port,
        remote_port,
        sequence,
        acknowledgement,
        flags,
        DEFAULT_WINDOW_SIZE,
        payload,
    )
}

// ---------------------------------------------------------------------------
// One TCP segment on an open connection
// ---------------------------------------------------------------------------
/// What a segment does to the connection it belongs to: the connection
/// afterwards and the acknowledgement numbers that are sent back, in order.
pub open spec fn on_segment(
    s: TcpView,
    src_mac: MacAddress,
    tcp: TcpHeader,
    payload: Seq<u8>,
) -> (TcpView, Seq<u32>) {
    let acks = tcp.flags & net::TCP_ACK != 0;
    let fins = tcp.flags & net::TCP_FIN != 0;
    if tcp.flags & net::TCP_RST != 0 {
        (TcpView { state: TcpState::Reset, ..s }, Seq::empty())
    } else {
        match s.state {
            TcpState::SynSent => {
                if tcp.flags & 0x12 == 0x12 && tcp.acknowledgement == s.seq_num.wrapping_add(1) {
                    let ack = tcp.sequence.wrapping_add(1);
                    (
                        TcpView {
                            seq_num: s.seq_num.wrapping_add(1),
                            ack_num: ack,
                            snd_wnd: tcp.window_size,
                            remote_mac: Some(src_mac),
                            state: TcpState::Established,
                            ..s
                        },
                        seq![ack],
                    )
                } else {
                    (s, Seq::empty())
                }
            },
            TcpState::Established | TcpState::CloseWait => {
                let in_order = payload.len() > 0 && tcp.sequence == s.ack_num;
                let repeated = payload.len() > 0 && tcp.sequence < s.ack_num;
                let next = if in_order {
                    s.ack_num.wrapping_add(payload.len() as u32)
                } else {
                    s.ack_num
                };
                let data_acks = if in_order || repeated {
                    seq![next]
                } else {
                    Seq::empty()
                };
                let closing = fins && s.state is Established;
                let taken = TcpView {
                    rx: if in_order {
                        s.rx + payload
                    } else {
                        s.rx
                    },
                    ack_num: next,
                    snd_una: if acks {
                        tcp.acknowledgement
                    } else {
                        s.snd_una
                    },
                    ..s
                };
                if closing {
                    (
                        TcpView {
                            ack_num: next.wrapping_add(1),
                            rx_closed: true,
                            state: TcpState::CloseWait,
                            ..taken
                        },
                        data_acks.push(next.wrapping_add(1)),
                    )
                } else {
                    (taken, data_acks)
                }
            },
            TcpState::FinWait1 => {
                if fins {
                    let ack = s.ack_num.wrapping_add(1);
                    (
                        TcpView {
                            ack_num: ack,
                            state: if acks {
                                TcpState::TimeWait
                            } else {
                                TcpState::Closing
                            },
                            ..s
                        },
                        seq![ack],
                    )
                } else if acks {
                    (TcpView { state: TcpState::FinWait2, ..s }, Seq::empty())
                } else {
                    (s, Seq::empty())
                }
            },
            TcpState::FinWait2 => {
                if fins {
                    let ack = s.ack_num.wrapping_add(1);
                    (TcpView { ack_num: ack, state: TcpState::TimeWait, ..s }, seq![ack])
                } else {
                    (s, Seq::empty())
                }
            },
            TcpState::LastAck => {
                if acks {
                    (TcpView { state: TcpState::Closed, ..s }, Seq::empty())
                } else {
                    (s, Seq::empty())
                }
            },
            _ => (s, Seq::empty()),
        }
    }
}

impl TcpSocket {
    /// Applies one segment to this connection; gives the acknowledgement
    /// numbers to send back.
    fn take_segment(&mut self, src_mac: MacAddress, tcp: &TcpHeader, payload: &[u8]) -> (r: Vec<u32>)
        requires
            payload.len() <= 65535,
        ensures
            final(self)@ == on_segment(old(self)@, src_mac, *tcp, payload@).0,
            r@ == on_segment(old(self)@, src_mac, *tcp, payload@).1,
    {
        let mut acks: Vec<u32> = Vec::new();
        if tcp.flags & net::TCP_RST != 0 {
            self.state = TcpState::Reset;
            return acks;
        }
        match self.state {
            TcpState::SynSent => {
                if tcp.flags & 0x12 == 0x12 && tcp.acknowledgement == self.seq_num.wrapping_add(1) {
                    self.seq_num = self.seq_num.wrapping_add(1);
                    self.ack_num = tcp.sequence.wrapping_add(1);
                    self.snd_wnd = tcp.window_size;
                    self.remote_mac = Some(src_mac);
                    self.state = TcpState::Established;
                    acks.push(self.ack_num);
                }
            },
            TcpState::Established | TcpState::CloseWait => {
                if payload.len() > 0 {
                    if tcp.sequence == self.ack_num {
                        push_all(&mut self.rx_buffer, payload);
                        self.ack_num = self.ack_num.wrapping_add(payload.len() as u32);
                        acks.push(self.ack_num);
                    } else if tcp.sequence < self.ack_num {
                        acks.push(self.ack_num);
                    }
                }
                if tcp.flags & net::TCP_ACK != 0 {
                    self.snd_una = tcp.acknowledgement;
                }
                if tcp.flags & net::TCP_FIN != 0 && self.state == TcpState::Established {
                    self.ack_num = self.ack_num.wrapping_add(1);
                    self.rx_closed = true;
                    self.state = TcpState::CloseWait;
                    acks.push(self.ack_num);
                }
            },
            TcpState::FinWait1 => {
                if tcp.flags & net::TCP_ACK != 0 {
                    self.state = TcpState::FinWait2;
                }
                if tcp.flags & net::TCP_FIN != 0 {
                    self.ack_num = self.ack_num.wrapping_add(1);
                    self.state = if self.state == TcpState::FinWait2 {
                        TcpState::TimeWait
                    } else {
                        TcpState::Closing
                    };
                    acks.push(self.ack_num);
                }
            },
            TcpState::FinWait2 => {
                if tcp.flags & net::TCP_FIN != 0 {
                    self.ack_num = self.ack_num.wrapping_add(1);
                    self.state = TcpState::TimeWait;
                    acks.push(self.ack_num);
                }
            },
            TcpState::LastAck => {
                if tcp.flags & net::TCP_ACK != 0 {
                    self.state = TcpState::Closed;
                }
            },
            _ => {},
        }
        assert(acks@ =~= on_segment(old(self)@, src_mac, *tcp, payload@).1);
        assert(self@ =~= on_segment(old(self)@, src_mac, *tcp, payload@).0);
        acks
    }
}

// ---------------------------------------------------------------------------
// One TCP segment at a listening socket
// ---------------------------------------------------------------------------
/// Whether a half-open connection is with this peer.
pub open spec fn is_from(p: PendingSyn, ip: Ipv4Address, port: u16) -> bool {
    p.remote_ip == ip && p.remote_port == port
}

/// The half-open connections that are not with this peer.
pub open spec fn others(pending: Seq<PendingSyn>, ip: Ipv4Address, port: u16) -> Seq<PendingSyn> {
    pending.filter(|p: PendingSyn| !is_from(p, ip, port))
}

/// The first half-open connection with this peer; the length if there is none.
pub open spec fn first_from(pending: Seq<PendingSyn>, ip: Ipv4Address, port: u16) -> int
    decreases pending.len(),
{
    if pending.len() == 0 || is_from(pending[0], ip, port) {
        0
    } else {
        1 + first_from(pending.skip(1), ip, port)
    }
}

pub(crate) proof fn lemma_first_from(pending: Seq<PendingSyn>, ip: Ipv4Address, port: u16, i: int)
    requires
        0 <= i <= pending.len(),
        forall|k: int| 0 <= k < i ==> !is_from(#[trigger] pending[k], ip, port),
        i < pending.len() ==> is_from(pending[i], ip, port),
    ensures
        first_from(pending, ip, port) == i,
    decreases pending.len(),
{
    if pending.len() > 0 && i > 0 {
        assert(!is_from(pending[0], ip, port));
        let rest = pending.skip(1);
        assert forall|k: int| 0 <= k < i - 1 implies !is_from(#[trigger] rest[k], ip, port) by {
            assert(rest[k] == pending[k + 1]);
        }
        lemma_first_from(rest, ip, port, i - 1);
    }
}

fn find_pending(pending: &Vec<PendingSyn>, ip: &Ipv4Address, port: u16) -> (r: usize)
    ensures
        r == first_from(pending@, *ip, port),
        r <= pending.len(),
{
    let mut i: usize = 0;
    while i < pending.len() && !(same_ip(&pending[i].remote_ip, ip) && pending[i].remote_port
        == port)
        invariant
            i <= pending.len(),
            forall|k: int| 0 <= k < i ==> !is_from(#[trigger] pending@[k], *ip, port),
        decreases pending.len() - i,
    {
        i += 1;
    }
    proof {
        lemma_first_from(pending@, *ip, port, i as int);
    }
    i
}

fn drop_pending(pending: &mut Vec<PendingSyn>, ip: &Ipv4Address, port: u16)
    ensures
        final(pending)@ == others(old(pending)@, *ip, port),
{
    let ghost keep = |p: PendingSyn| !is_from(p, *ip, port);
    let mut kept: Vec<PendingSyn> = Vec::new();
    let mut i: usize = 0;
    assert(pending@.take(0) =~= Seq::<PendingSyn>::empty());
    assert(Seq::<PendingSyn>::empty().filter(keep) =~= Seq::<PendingSyn>::empty()) by {
        reveal(Seq::filter);
    }
    while i < pending.len()
        invariant
            i <= pending.len(),
            keep == (|p: PendingSyn| !is_from(p, *ip, port)),
            pending@ == old(pending)@,
            kept@ == pending@.take(i as int).filter(keep),
        decreases pending.len() - i,
    {
        let p = pending[i];
        proof {
            reveal(Seq::filter);
            assert(pending@.take(i + 1).drop_last() =~= pending@.take(i as int));
        }
        if !(same_ip(&p.remote_ip, ip) && p.remote_port == port) {
            kept.push(p);
        }
        i += 1;
    }
    assert(pending@.take(i as int) =~= pending@);
    *pending = kept;
}

/// The base of initial sequence numbers moves on with each one handed out.
pub open spec fn isn(counter: u32, local_port: u16, remote_port: u16) -> u32 {
    counter ^ ((local_port * 65536 + remote_port) as u32)
}

pub(crate) fn generate_isn(counters: &mut Counters, local_port: u16, remote_port: u16) -> (r: u32)
    ensures
        r == isn(old(counters).isn_counter, local_port, remote_port),
        *final(counters) == (Counters {
            isn_counter: old(counters).isn_counter.wrapping_add(0x1000),
            ..*old(counters)
        }),
{
    let counter: u32 = counters.isn_counter;
    counters.isn_counter = counter.wrapping_add(0x1000);
    counter ^ ((local_port as u32) * 65536 + (remote_port as u32))
}

/// The connection that a completed handshake opens.
pub open spec fn opened(
    our_ip: Ipv4Address,
    src_mac: MacAddress,
    src_ip: Ipv4Address,
    tcp: TcpHeader,
    our_isn: u32,
    payload: Seq<u8>,
) -> TcpView {
    TcpView {
        state: TcpState::Established,
        local_ip: our_ip,
        local_port: tcp.dest_port,
        remote_ip: src_ip,
        remote_port: tcp.src_port,
        remote_mac: Some(src_mac),
        seq_num: our_isn.wrapping_add(1),
        ack_num: tcp.sequence.wrapping_add(payload.len() as u32),
        snd_una: our_isn.wrapping_add(1),
        snd_wnd: tcp.window_size,
        rx: payload,
        rx_closed: false,
        tx_closed: false,
        backlog: 0,
        accept_queue: Seq::empty(),
        pending: Seq::empty(),
        options: default_options(),
    }
}

/// A socket with `handle` at the end of its accept queue.
pub open spec fn with_accepted(s: SocketView, handle: u32) -> SocketView {
    match s {
        SocketView::Tcp(t) => SocketView::Tcp(
            TcpView { accept_queue: t.accept_queue.push(handle), ..t },
        ),
        _ => s,
    }
}

/// A connection request at the listening socket `l`: it is answered and
/// remembered, and an earlier request of the same peer is forgotten.
pub open spec fn on_request(
    n: NetView,
    l: u64,
    src_mac: MacAddress,
    src_ip: Ipv4Address,
    tcp: TcpHeader,
) -> NetView {
    let listener = n.sockets[l]->Tcp_0;
    let our_isn = isn(n.counters.isn_counter, tcp.dest_port, tcp.src_port);
    let answer = n.tcp_out(
        src_mac,
        src_ip,
        tcp.dest_port,
        tcp.src_port,
        our_isn,
        tcp.sequence.wrapping_add(1),
        0x12,
        Seq::empty(),
    );
    let request = PendingSyn {
        remote_ip: src_ip,
        remote_port: tcp.src_port,
        remote_mac: src_mac,
        our_isn,
        peer_seq: tcp.sequence,
    };
    let remembered = TcpView {
        pending: others(listener.pending, src_ip, tcp.src_port).push(request),
        ..listener
    };
    NetView {
        sockets: n.sockets.insert(l, SocketView::Tcp(remembered)),
        counters: Counters { isn_counter: n.counters.isn_counter.wrapping_add(0x1000), ..n.counters },
        ..n.sending(seq![answer])
    }
}

/// The acknowledgement of data that came with the last step of a handshake.
pub open spec fn opening_acks(
    n: NetView,
    src_mac: MacAddress,
    src_ip: Ipv4Address,
    connection: TcpView,
) -> Seq<Seq<u8>> {
    if connection.rx.len() > 0 {
        seq![
            n.tcp_out(
                src_mac,
                src_ip,
                connection.local_port,
                connection.remote_port,
                connection.seq_num,
                connection.ack_num,
                net::TCP_ACK,
                Seq::empty(),
            ),
        ]
    } else {
        Seq::empty()
    }
}

/// The peer of request `i` acknowledges our answer at the listening socket
/// `l`: the request is settled either way, and the right number opens the
/// connection and queues it for acceptance.
pub open spec fn on_answer(
    n: NetView,
    l: u64,
    i: int,
    src_mac: MacAddress,
    src_ip: Ipv4Address,
    tcp: TcpHeader,
    payload: Seq<u8>,
) -> NetView {
    let listener = n.sockets[l]->Tcp_0;
    let request = listener.pending[i];
    let settled = n.sockets.insert(
        l,
        SocketView::Tcp(TcpView { pending: listener.pending.remove(i), ..listener }),
    );
    if tcp.acknowledgement == request.our_isn.wrapping_add(1) {
        let handle = n.counters.next_handle;
        let connection = opened(
            n.configuration.address,
            src_mac,
            src_ip,
            tcp,
            request.our_isn,
            payload,
        );
        let grown = settled.insert(handle as u64, SocketView::Tcp(connection));
        NetView {
            sockets: grown.insert(l, with_accepted(grown[l], handle)),
            counters: Counters { next_handle: handle.wrapping_add(1), ..n.counters },
            ..n.sending(opening_acks(n, src_mac, src_ip, connection))
        }
    } else {
        NetView { sockets: settled, ..n }
    }
}

/// What a segment does at the listening socket `l`.
pub open spec fn on_listener(
    n: NetView,
    l: u64,
    src_mac: MacAddress,
    src_ip: Ipv4Address,
    tcp: TcpHeader,
    payload: Seq<u8>,
) -> NetView {
    let listener = n.sockets[l]->Tcp_0;
    let i = first_from(listener.pending, src_ip, tcp.src_port);
    let syn = tcp.flags & net::TCP_SYN != 0;
    let ack = tcp.flags & net::TCP_ACK != 0;
    if syn && !ack {
        on_request(n, l, src_mac, src_ip, tcp)
    } else if ack && i < listener.pending.len() {
        on_answer(n, l, i, src_mac, src_ip, tcp, payload)
    } else {
        n
    }
}

// ---------------------------------------------------------------------------
// Which socket a segment belongs to
// ---------------------------------------------------------------------------
pub open spec fn is_connection(
    s: SocketView,
    local_port: u16,
    remote_ip: Ipv4Address,
    remote_port: u16,
) -> bool {
    s matches SocketView::Tcp(t) && t.local_port == local_port && t.remote_ip == remote_ip
        && t.remote_port == remote_port
}

pub open spec fn is_listener(s: SocketView, local_port: u16) -> bool {
    s matches SocketView::Tcp(t) && t.local_port == local_port && t.state is Listen
}

/// Whether `h` is the least handle whose socket satisfies `p`.
pub open spec fn is_least(m: Map<u64, SocketView>, p: spec_fn(SocketView) -> bool, h: u64) -> bool {
    &&& m.dom().contains(h)
    &&& p(m[h])
    &&& forall|k: u64| #![trigger m[k]] m.dom().contains(k) && p(m[k]) ==> h <= k
}

/// The least handle whose socket satisfies `p`.
pub open spec fn least(m: Map<u64, SocketView>, p: spec_fn(SocketView) -> bool) -> Option<u64> {
    if exists|h: u64| is_least(m, p, h) {
        Some(choose|h: u64| is_least(m, p, h))
    } else {
        None
    }
}

pub(crate) proof fn lemma_least(m: Map<u64, SocketView>, p: spec_fn(SocketView) -> bool, h: u64)
    requires
        is_least(m, p, h),
    ensures
        least(m, p) == Some(h),
{
    let c = choose|c: u64| is_least(m, p, c);
    assert(is_least(m, p, c));
    assert(p(m[c]) && p(m[h]));
    assert(c <= h && h <= c);
}

/// What a TCP segment from `src_ip` does.
#[verifier::opaque]
pub open spec fn on_tcp(
    n: NetView,
    src_mac: MacAddress,
    src_ip: Ipv4Address,
    tcp: TcpHeader,
    payload: Seq<u8>,
) -> NetView {
    let connection = |s: SocketView| is_connection(s, tcp.dest_port, src_ip, tcp.src_port);
    let listener = |s: SocketView| is_listener(s, tcp.dest_port);
    match least(n.sockets, connection) {
        Some(h) => {
            let (after, acks) = on_segment(n.sockets[h]->Tcp_0, src_mac, tcp, payload);
            NetView {
                sockets: n.sockets.insert(h, SocketView::Tcp(after)),
                ..n.sending(
                    acks.map_values(
                        |ack: u32|
                            n.tcp_out(
                                src_mac,
                                src_ip,
                                after.local_port,
                                after.remote_port,
                                after.seq_num,
                                ack,
                                net::TCP_ACK,
                                Seq::empty(),
                            ),
                    ),
                )
            }
        },
        None => match least(n.sockets, listener) {
            Some(l) => on_listener(n, l, src_mac, src_ip, tcp, payload),
            None => n,
        },
    }
}

impl NetworkState {
    pub(crate) fn find_connection(&self, local_port: u16, remote_ip: &Ipv4Address, remote_port: u16) -> (r:
        Option<u64>)
        requires
            self.wf(),
        ensures
            r == least(
                socket_views(self.sockets@),
                |s: SocketView| is_connection(s, local_port, *remote_ip, remote_port),
            ),
            r matches Some(h) ==> self.sockets@.dom().contains(h) && self.sockets@[h] is Tcp,
    {
        let ghost p = |s: SocketView| is_connection(s, local_port, *remote_ip, remote_port);
        let ghost m = socket_views(self.sockets@);
        let mut i: usize = 0;
        while i < self.sockets.len()
            invariant
                self.wf(),
                i <= self.sockets.keys.len(),
                m == socket_views(self.sockets@),
                p == (|s: SocketView| is_connection(s, local_port, *remote_ip, remote_port)),
                forall|k: int|
                    0 <= k < i ==> !p(#[trigger] self.sockets.values@[k]@),
            decreases self.sockets.keys.len() - i,
        {
            proof {
                ordmap::lemma_paired(self.sockets.keys@, self.sockets.values@, i as int);
            }
            if let Socket::Tcp(t) = &self.sockets.values[i] {
                if t.local_port == local_port && same_ip(&t.remote_ip, remote_ip) && t.remote_port
                    == remote_port {
                    let h: u64 = self.sockets.keys[i];
                    proof {
                        assert(p(m[h]));
                        assert forall|k: u64|
                            #![trigger m[k]]
                            m.dom().contains(k) && p(m[k]) implies h <= k by {
                            let j = self.sockets.keys@.index_of(k);
                            ordmap::lemma_paired(self.sockets.keys@, self.sockets.values@, j);
                            assert(p(self.sockets.values@[j]@));
                            assert(j >= i);
                        }
                        lemma_least(m, p, h);
                    }
                    return Some(h);
                }
            }
            i += 1;
        }
        proof {
            assert forall|h: u64| !is_least(m, p, h) by {
                if m.dom().contains(h) && p(m[h]) {
                    let j = self.sockets.keys@.index_of(h);
                    ordmap::lemma_paired(self.sockets.keys@, self.sockets.values@, j);
                    assert(p(self.sockets.values@[j]@));
                }
            }
        }
        None
    }

    fn find_listener(&self, local_port: u16) -> (r: Option<u64>)
        requires
            self.wf(),
        ensures
            r == least(
                socket_views(self.sockets@),
                |s: SocketView| is_listener(s, local_port),
            ),
            r matches Some(h) ==> self.sockets@.dom().contains(h) && self.sockets@[h] is Tcp,
    {
        let ghost p = |s: SocketView| is_listener(s, local_port);
        let ghost m = socket_views(self.sockets@);
        let mut i: usize = 0;
        while i < self.sockets.len()
            invariant
                self.wf(),
                i <= self.sockets.keys.len(),
                m == socket_views(self.sockets@),
                p == (|s: SocketView| is_listener(s, local_port)),
                forall|k: int| 0 <= k < i ==> !p(#[trigger] self.sockets.values@[k]@),
            decreases self.sockets.keys.len() - i,
        {
            proof {
                ordmap::lemma_paired(self.sockets.keys@, self.sockets.values@, i as int);
            }
            if let Socket::Tcp(t) = &self.sockets.values[i] {
                if t.local_port == local_port && t.state == TcpState::Listen {
                    let h: u64 = self.sockets.keys[i];
                    proof {
                        assert(p(m[h]));
                        assert forall|k: u64|
                            #![trigger m[k]]
                            m.dom().contains(k) && p(m[k]) implies h <= k by {
                            let j = self.sockets.keys@.index_of(k);
                            ordmap::lemma_paired(self.sockets.keys@, self.sockets.values@, j);
                            assert(p(self.sockets.values@[j]@));
                            assert(j >= i);
                        }
                        lemma_least(m, p, h);
                    }
                    return Some(h);
                }
            }
            i += 1;
        }
        proof {
            assert forall|h: u64| !is_least(m, p, h) by {
                if m.dom().contains(h) && p(m[h]) {
                    let j = self.sockets.keys@.index_of(h);
                    ordmap::lemma_paired(self.sockets.keys@, self.sockets.values@, j);
                    assert(p(self.sockets.values@[j]@));
                }
            }
        }
        None
    }
}

impl NetworkState {
    /// Sends `frame`; a device fault is ignored.
    pub(crate) fn send(&mut self, frame: Vec<u8>)
        requires
            old(self).wf(),
        ensures
            final(self).wf(),
            final(self).sockets@ == old(self).sockets@,
            forall|c: Counters| #[trigger]
                final(self).with(c) == old(self).with(c).sending(seq![frame@]),
    {
        let _ = self.device.transmit(frame);
        assert(old(self).device.sent() + seq![frame@] =~= old(self).device.sent().push(frame@));
    }

    /// Handles one TCP segment.
    pub fn handle_incoming_tcp(
        &mut self,
        counters: &mut Counters,
        src_mac: MacAddress,
        src_ip: Ipv4Address,
        tcp: &TcpHeader,
        payload: &[u8],
    )
        requires
            old(self).wf(),
            payload.len() <= 65535,
        ensures
            final(self).wf(),
            final(self).with(*final(counters)) == on_tcp(
                old(self).with(*old(counters)),
                src_mac,
                src_ip,
                *tcp,
                payload@,
            ),
    {
        reveal(on_tcp);
        let our_mac = self.device.mac;
        let our_ip = self.configuration.address;
        let ghost n = self.with(*counters);
        match self.find_connection(tcp.dest_port, &src_ip, tcp.src_port) {
            Some(handle) => {
                let ghost before = self.sockets@;
                let mut acks: Vec<u32> = Vec::new();
                let mut local_port: u16 = 0;
                let mut remote_port: u16 = 0;
                let mut seq_num: u32 = 0;
                match self.sockets.at_mut(handle) {
                    Socket::Tcp(s) => {
                        acks = s.take_segment(src_mac, tcp, payload);
                        local_port = s.local_port;
                        remote_port = s.remote_port;
                        seq_num = s.seq_num;
                    },
                    _ => {},
                }
                let ghost effect = on_segment(n.sockets[handle]->Tcp_0, src_mac, *tcp, payload@);
                proof {
                    lemma_views_insert(before, handle, self.sockets@[handle]);
                    assert(self.sockets@ =~= before.insert(handle, self.sockets@[handle]));
                    assert(self.sockets@[handle]@ == SocketView::Tcp(effect.0));
                }
                let ghost answer = |ack: u32|
                    n.tcp_out(
                        src_mac,
                        src_ip,
                        effect.0.local_port,
                        effect.0.remote_port,
                        effect.0.seq_num,
                        ack,
                        net::TCP_ACK,
                        Seq::empty(),
                    );
                let ghost done = NetView {
                    sockets: n.sockets.insert(handle, SocketView::Tcp(effect.0)),
                    ..n
                };
                let mut i: usize = 0;
                assert(self.with(*counters) =~= done.sending(
                    acks@.take(0).map_values(answer),
                ));
                while i < acks.len()
                    invariant
                        i <= acks.len(),
                        self.wf(),
                        n.mac == our_mac,
                        n.configuration.address == our_ip,
                        done.mac == n.mac,
                        done.configuration == n.configuration,
                        local_port == effect.0.local_port,
                        remote_port == effect.0.remote_port,
                        seq_num == effect.0.seq_num,
                        answer == (|ack: u32|
                            n.tcp_out(
                                src_mac,
                                src_ip,
                                effect.0.local_port,
                                effect.0.remote_port,
                                effect.0.seq_num,
                                ack,
                                net::TCP_ACK,
                                Seq::empty(),
                            )),
                        self.with(*counters) == done.sending(
                            acks@.take(i as int).map_values(answer),
                        ),
                    decreases acks.len() - i,
                {
                    let nothing: [u8; 0] = [];
                    assert(nothing@ =~= Seq::<u8>::empty());
                    let frame = tcp_out(
                        our_mac,
                        our_ip,
                        src_mac,
                        src_ip,
                        local_port,
                        remote_port,
                        seq_num,
                        acks[i],
                        net::TCP_ACK,
                        nothing.as_slice(),
                    );
                    let ghost before_send = self.with(*counters);
                    self.send(frame);
                    proof {
                        assert(self.with(*counters) == before_send.sending(seq![frame@]));
                        assert(frame@ == answer(acks@[i as int]));
                        assert(acks@.take(i as int).map_values(answer) + seq![frame@]
                            =~= acks@.take(i + 1).map_values(answer));
                        assert(done.sent + (acks@.take(i as int).map_values(answer) + seq![frame@])
                            =~= done.sent + acks@.take(i as int).map_values(answer) + seq![frame@]);
                    }
                    i += 1;
                }
                assert(acks@.take(i as int) =~= acks@);
                assert(self.with(*counters) =~= on_tcp(n, src_mac, src_ip, *tcp, payload@));
            },
            None => {
                if let Some(l) = self.find_listener(tcp.dest_port) {
                    self.listener_segment(counters, l, src_mac, src_ip, tcp, payload);
                }
            },
        }
    }

    fn listener_segment(
        &mut self,
        counters: &mut Counters,
        l: u64,
        src_mac: MacAddress,
        src_ip: Ipv4Address,
        tcp: &TcpHeader,
        payload: &[u8],
    )
        requires
            old(self).wf(),
            payload.len() <= 65535,
            old(self).sockets@.dom().contains(l),
            old(self).sockets@[l] is Tcp,
        ensures
            final(self).wf(),
            final(self).with(*final(counters)) == on_listener(
                old(self).with(*old(counters)),
                l,
                src_mac,
                src_ip,
                *tcp,
                payload@,
            ),
    {
        if tcp.flags & net::TCP_SYN != 0 && tcp.flags & net::TCP_ACK == 0 {
            self.listener_request(counters, l, src_mac, src_ip, tcp);
        } else if tcp.flags & net::TCP_ACK != 0 {
            let mut waiting: Option<usize> = None;
            match self.sockets.get(l) {
                Some(Socket::Tcp(listener)) => {
                    let i: usize = find_pending(&listener.pending_syns, &src_ip, tcp.src_port);
                    if i < listener.pending_syns.len() {
                        waiting = Some(i);
                    }
                },
                _ => {},
            }
            if let Some(i) = waiting {
                self.listener_answer(counters, l, i, src_mac, src_ip, tcp, payload);
            }
        }
    }

    fn listener_request(
        &mut self,
        counters: &mut Counters,
        l: u64,
        src_mac: MacAddress,
        src_ip: Ipv4Address,
        tcp: &TcpHeader,
    )
        requires
            old(self).wf(),
            old(self).sockets@.dom().contains(l),
            old(self).sockets@[l] is Tcp,
        ensures
            final(self).wf(),
            final(self).with(*final(counters)) == on_request(
                old(self).with(*old(counters)),
                l,
                src_mac,
                src_ip,
                *tcp,
            ),
    {
        let ghost n = self.with(*counters);
        let ghost before = self.sockets@;
        let nothing: [u8; 0] = [];
        assert(nothing@ =~= Seq::<u8>::empty());
        let our_isn = generate_isn(counters, tcp.dest_port, tcp.src_port);
        let answer = tcp_out(
            self.device.mac,
            self.configuration.address,
            src_mac,
            src_ip,
            tcp.dest_port,
            tcp.src_port,
            our_isn,
            tcp.sequence.wrapping_add(1),
            0x12,
            nothing.as_slice(),
        );
        self.send(answer);
        let ghost sent = self.with(*counters);
        match self.sockets.at_mut(l) {
            Socket::Tcp(listener) => {
                drop_pending(&mut listener.pending_syns, &src_ip, tcp.src_port);
                listener.pending_syns.push(
                    PendingSyn {
                        remote_ip: src_ip,
                        remote_port: tcp.src_port,
                        remote_mac: src_mac,
                        our_isn,
                        peer_seq: tcp.sequence,
                    },
                );
            },
            _ => {},
        }
        proof {
            lemma_views_insert(before, l, self.sockets@[l]);
            assert(self.sockets@ =~= before.insert(l, self.sockets@[l]));
            assert(self.with(*counters) =~= NetView {
                sockets: socket_views(self.sockets@),
                ..sent
            });
            assert(self.with(*counters) =~= on_request(n, l, src_mac, src_ip, *tcp));
        }
    }

    fn listener_answer(
        &mut self,
        counters: &mut Counters,
        l: u64,
        i: usize,
        src_mac: MacAddress,
        src_ip: Ipv4Address,
        tcp: &TcpHeader,
        payload: &[u8],
    )
        requires
            old(self).wf(),
            payload.len() <= 65535,
            old(self).sockets@.dom().contains(l),
            old(self).sockets@[l] is Tcp,
            i < old(self).sockets@[l]->Tcp_0.pending_syns.len(),
        ensures
            final(self).wf(),
            final(self).with(*final(counters)) == on_answer(
                old(self).with(*old(counters)),
                l,
                i as int,
                src_mac,
                src_ip,
                *tcp,
                payload@,
            ),
    {
        let our_ip = self.configuration.address;
        let ghost n = self.with(*counters);
        let ghost before = self.sockets@;
        let mut our_isn: u32 = 0;
        match self.sockets.at_mut(l) {
            Socket::Tcp(listener) => {
                let request = listener.pending_syns.remove(i);
                our_isn = request.our_isn;
            },
            _ => {},
        }
        let ghost settled = self.sockets@;
        proof {
            lemma_views_insert(before, l, settled[l]);
            assert(settled =~= before.insert(l, settled[l]));
        }
        if tcp.acknowledgement == our_isn.wrapping_add(1) {
            let new_handle: u32 = counters.next_handle;
            counters.next_handle = new_handle.wrapping_add(1);
            let connection = open_connection(our_ip, src_mac, src_ip, tcp, our_isn, payload);
            self.acknowledge_opening(src_mac, src_ip, &connection);
            let ghost acked = self.with(*counters);
            let ghost opened_socket = Socket::Tcp(connection);
            self.sockets.insert(new_handle as u64, Socket::Tcp(connection));
            let ghost grown = self.sockets@;
            match self.sockets.at_mut(l) {
                Socket::Tcp(listener) => {
                    listener.accept_queue.push(new_handle);
                },
                _ => {},
            }
            proof {
                lemma_views_insert(settled, new_handle as u64, opened_socket);
                lemma_views_insert(grown, l, self.sockets@[l]);
                assert(self.sockets@ =~= grown.insert(l, self.sockets@[l]));
                assert(self.sockets@[l]@ =~= with_accepted(grown[l]@, new_handle));
                assert(self.with(*counters) =~= NetView {
                    sockets: socket_views(self.sockets@),
                    ..acked
                });
            }
        }
        assert(self.with(*counters) =~= on_answer(
            n,
            l,
            i as int,
            src_mac,
            src_ip,
            *tcp,
            payload@,
        ));
    }

    fn acknowledge_opening(&mut self, src_mac: MacAddress, src_ip: Ipv4Address, s: &TcpSocket)
        requires
            old(self).wf(),
        ensures
            final(self).wf(),
            final(self).sockets@ == old(self).sockets@,
            forall|c: Counters| #[trigger]
                final(self).with(c) == old(self).with(c).sending(
                    opening_acks(old(self).with(c), src_mac, src_ip, s@),
                ),
    {
        let nothing: [u8; 0] = [];
        assert(nothing@ =~= Seq::<u8>::empty());
        if s.rx_buffer.len() > 0 {
            let ack = tcp_out(
                self.device.mac,
                self.configuration.address,
                src_mac,
                src_ip,
                s.local_port,
                s.remote_port,
                s.seq_num,
                s.ack_num,
                net::TCP_ACK,
                nothing.as_slice(),
            );
            self.send(ack);
        } else {
            assert(self.device.sent() + Seq::<Seq<u8>>::empty() =~= self.device.sent());
        }
    }
}

fn open_connection(
    our_ip: Ipv4Address,
    src_mac: MacAddress,
    src_ip: Ipv4Address,
    tcp: &TcpHeader,
    our_isn: u32,
    payload: &[u8],
) -> (r: TcpSocket)
    requires
        payload.len() <= 65535,
    ensures
        r@ == opened(our_ip, src_mac, src_ip, *tcp, our_isn, payload@),
{
    let mut connection = TcpSocket {
        state: TcpState::Established,
        local_ip: our_ip,
        local_port: tcp.dest_port,
        remote_ip: src_ip,
        remote_port: tcp.src_port,
        remote_mac: Some(src_mac),
        seq_num: our_isn.wrapping_add(1),
        ack_num: tcp.sequence,
        snd_una: our_isn.wrapping_add(1),
        snd_wnd: tcp.window_size,
        rx_buffer: Vec::new(),
        rx_closed: false,
        tx_closed: false,
        backlog: 0,
        accept_queue: Vec::new(),
        pending_syns: Vec::new(),
        options: SocketOptions::default(),
    };
    if payload.len() > 0 {
        push_all(&mut connection.rx_buffer, payload);
        connection.ack_num = connection.ack_num.wrapping_add(payload.len() as u32);
    }
    assert(connection@ =~= opened(our_ip, src_mac, src_ip, *tcp, our_isn, payload@));
    connection
}

// ---------------------------------------------------------------------------
// One frame
// ---------------------------------------------------------------------------
/// The IPv4 address with these bytes.
pub open spec fn ip_of(s: Seq<u8>) -> Ipv4Address {
    choose|a: Ipv4Address| a@ == s
}

/// The hardware address with these bytes.
pub open spec fn mac_of(s: Seq<u8>) -> MacAddress {
    choose|a: MacAddress| a@ == s
}

pub(crate) proof fn lemma_ip_of(a: Ipv4Address)
    ensures
        ip_of(a@) == a,
{
    let c = ip_of(a@);
    assert(c@ == a@);
    assert(c =~= a);
}

pub(crate) proof fn lemma_mac_of(a: MacAddress)
    ensures
        mac_of(a@) == a,
{
    let c = mac_of(a@);
    assert(c@ == a@);
    assert(c =~= a);
}

/// The header that starts a TCP segment.
pub open spec fn tcp_header(segment: Seq<u8>) -> TcpHeader {
    TcpHeader {
        src_port: crate::bytes::be16_at(segment, 0) as u16,
        dest_port: crate::bytes::be16_at(segment, 2) as u16,
        sequence: crate::bytes::be32_at(segment, 4) as u32,
        acknowledgement: crate::bytes::be32_at(segment, 8) as u32,
        data_offset: net::tcp_header_length(segment) as usize,
        flags: segment[13],
        window_size: crate::bytes::be16_at(segment, 14) as u16,
        checksum: crate::bytes::be16_at(segment, 16) as u16,
        urgent_pointer: crate::bytes::be16_at(segment, 18) as u16,
    }
}

/// A socket after a datagram for `port` has arrived: every bound UDP socket on
/// that port, or on port zero, queues it.
pub open spec fn delivered(s: SocketView, port: u16, datagram: DatagramView) -> SocketView {
    match s {
        SocketView::Udp(u) => {
            if u.bound && (u.local_port == port || u.local_port == 0) {
                SocketView::Udp(UdpView { rx_queue: u.rx_queue.push(datagram), ..u })
            } else {
                s
            }
        },
        _ => s,
    }
}

/// What an ARP packet does: its sender is remembered, and a question for our
/// address is answered.
pub open spec fn on_arp(n: NetView, body: Seq<u8>) -> NetView {
    let sender_mac = mac_of(body.subrange(8, 14));
    let sender_ip = ip_of(body.subrange(14, 18));
    let learned = NetView { arp: n.arp.insert(sender_ip, sender_mac), ..n };
    if crate::bytes::be16_at(body, 6) == net::ARP_REQUEST && body.subrange(24, 28)
        == n.configuration.address@ {
        learned.sending(
            seq![
                net::eth_frame(
                    sender_mac@,
                    n.mac@,
                    net::ETHERTYPE_ARP,
                    net::arp_body(
                        net::ARP_REPLY,
                        n.mac@,
                        n.configuration.address@,
                        sender_mac@,
                        sender_ip@,
                    ),
                ),
            ],
        )
    } else {
        learned
    }
}

/// What an IPv4 payload for this host does.
#[verifier::opaque]
pub open spec fn on_ipv4(
    n: NetView,
    src_mac: MacAddress,
    src_ip: Ipv4Address,
    dest_ip: Ipv4Address,
    protocol: u8,
    payload: Seq<u8>,
) -> NetView {
    if protocol == net::IP_PROTOCOL_ICMP {
        if net::is_control_message(payload) && payload[0] == net::ICMP_ECHO_REQUEST {
            let id = crate::bytes::be16_at(payload, 4) as u16;
            let sequence = crate::bytes::be16_at(payload, 6) as u16;
            n.sending(
                seq![
                    net::ipv4_frame(
                        n.mac@,
                        src_mac@,
                        n.configuration.address@,
                        src_ip@,
                        net::IP_PROTOCOL_ICMP,
                        id,
                        0x4000,
                        64,
                        net::sealed_echo_message(
                            net::ICMP_ECHO_REPLY,
                            id,
                            sequence,
                            payload.skip(8),
                        ),
                    ),
                ],
            )
        } else {
            n
        }
    } else if protocol == net::IP_PROTOCOL_UDP {
        if net::is_udp(payload, src_ip@, dest_ip@) {
            let datagram = DatagramView {
                src_ip,
                src_port: crate::bytes::be16_at(payload, 0) as u16,
                data: payload.subrange(8, net::udp_end(payload)),
            };
            let port = crate::bytes::be16_at(payload, 2) as u16;
            NetView {
                sockets: n.sockets.map_values(|s: SocketView| delivered(s, port, datagram)),
                ..n
            }
        } else {
            n
        }
    } else if protocol == net::IP_PROTOCOL_TCP {
        if net::is_tcp(payload, src_ip@, dest_ip@) {
            on_tcp(
                n,
                src_mac,
                src_ip,
                tcp_header(payload),
                payload.skip(net::tcp_header_length(payload)),
            )
        } else {
            n
        }
    } else {
        n
    }
}

/// What an arrived frame does.
#[verifier::opaque]
pub open spec fn on_frame(n: NetView, frame: Seq<u8>) -> NetView {
    let body = frame.skip(14);
    if frame.len() < net::ETHERNET_HEADER_SIZE {
        n
    } else if crate::bytes::be16_at(frame, 12) == net::ETHERTYPE_ARP {
        if net::is_arp(body) {
            on_arp(n, body)
        } else {
            n
        }
    } else if crate::bytes::be16_at(frame, 12) == net::ETHERTYPE_IPV4 {
        let dest = body.subrange(16, 20);
        if net::is_ipv4(body) && (dest == n.configuration.address@ || dest == seq![
            255u8,
            255u8,
            255u8,
            255u8,
        ]) {
            on_ipv4(
                n,
                mac_of(frame.subrange(6, 12)),
                ip_of(body.subrange(12, 16)),
                ip_of(dest),
                body[9],
                body.subrange(net::ipv4_header_length(body), net::ipv4_end(body)),
            )
        } else {
            n
        }
    } else {
        n
    }
}

impl NetworkState {
    /// Queues a datagram at every UDP socket that is to have it.
    fn deliver(&mut self, port: u16, src_ip: Ipv4Address, src_port: u16, data: &[u8])
        requires
            old(self).wf(),
        ensures
            final(self).wf(),
            forall|c: Counters| #[trigger]
                final(self).with(c) == (NetView {
                    sockets: old(self).with(c).sockets.map_values(
                        |s: SocketView|
                            delivered(s, port, DatagramView { src_ip, src_port, data: data@ }),
                    ),
                    ..old(self).with(c)
                }),
    {
        let ghost dg = DatagramView { src_ip, src_port, data: data@ };
        let ghost before = *self;
        let mut i: usize = 0;
        while i < self.sockets.len()
            invariant
                self.wf(),
                i <= self.sockets.keys.len(),
                self.sockets.keys@ == before.sockets.keys@,
                before.wf(),
                dg == (DatagramView { src_ip, src_port, data: data@ }),
                self.device == before.device,
                self.configuration == before.configuration,
                self.arp_table == before.arp_table,
                self.gateway_mac == before.gateway_mac,
                self.gateway_echoed == before.gateway_echoed,
                self.dns_replied == before.dns_replied,
                self.tcp_connected == before.tcp_connected,
                forall|k: int|
                    0 <= k < i ==> (#[trigger] self.sockets.values@[k])@ == delivered(
                        before.sockets.values@[k]@,
                        port,
                        dg,
                    ),
                forall|k: int|
                    i <= k < self.sockets.keys.len() ==> #[trigger] self.sockets.values@[k]
                        == before.sockets.values@[k],
            decreases self.sockets.keys.len() - i,
        {
            let ghost was = self.sockets.values@[i as int]@;
            match self.sockets.place_mut(i) {
                Socket::Udp(u) => {
                    if u.bound && (u.local_port == port || u.local_port == 0) {
                        let ghost queue = u@.rx_queue;
                        u.rx_queue.push(
                            UdpDatagram {
                                src_ip,
                                src_port,
                                data: vstd::slice::slice_to_vec(data),
                            },
                        );
                        assert(u@.rx_queue =~= queue.push(dg));
                    }
                },
                _ => {},
            }
            assert(self.sockets.values@[i as int]@ =~= delivered(was, port, dg));
            i += 1;
        }
        proof {
            let f = |s: SocketView| delivered(s, port, dg);
            assert forall|k: u64| #[trigger] socket_views(self.sockets@).dom().contains(k) implies
                socket_views(self.sockets@)[k] == socket_views(before.sockets@).map_values(f)[k] by {
                let j = self.sockets.keys@.index_of(k);
                ordmap::lemma_paired(self.sockets.keys@, self.sockets.values@, j);
                ordmap::lemma_paired(before.sockets.keys@, before.sockets.values@, j);
                assert(self.sockets.values@[j]@ == delivered(
                    before.sockets.values@[j]@,
                    port,
                    dg,
                ));
            }
            assert(socket_views(self.sockets@) =~= socket_views(before.sockets@).map_values(f));
        }
    }

    fn process_arp(&mut self, body: &[u8])
        requires
            old(self).wf(),
        ensures
            final(self).wf(),
            forall|c: Counters| #[trigger]
                final(self).with(c) == (if net::is_arp(body@) {
                    on_arp(old(self).with(c), body@)
                } else {
                    old(self).with(c)
                }),
    {
        if let Some(arp) = net::parse_arp(body) {
            let our_mac = self.device.mac;
            let our_ip = self.configuration.address;
            proof {
                lemma_mac_of(arp.sender_mac);
                lemma_ip_of(arp.sender_ip);
            }
            self.arp_table.insert(arp.sender_ip, arp.sender_mac);
            if arp.opcode == net::ARP_REQUEST && same_ip(&arp.target_ip, &our_ip) {
                let reply = net::arp_reply(our_mac, our_ip, arp.sender_mac, arp.sender_ip);
                self.send(vstd::slice::slice_to_vec(reply.as_slice()));
            } else {
                proof {
                    if arp.target_ip@ == our_ip@ {
                        assert(arp.target_ip =~= our_ip);
                    }
                }
            }
        }
    }

    fn process_ipv4(
        &mut self,
        counters: &mut Counters,
        src_mac: MacAddress,
        src_ip: Ipv4Address,
        dest_ip: Ipv4Address,
        protocol: u8,
        payload: &[u8],
    )
        requires
            old(self).wf(),
            payload.len() <= 65535,
        ensures
            final(self).wf(),
            final(self).with(*final(counters)) == on_ipv4(
                old(self).with(*old(counters)),
                src_mac,
                src_ip,
                dest_ip,
                protocol,
                payload@,
            ),
    {
        reveal(on_ipv4);
        if protocol == net::IP_PROTOCOL_ICMP {
            proof {
                net::lemma_word_sum_bounds(payload@);
            }
            if let Some((header, data)) = net::parse_icmp(payload) {
                if header.msg_type == net::ICMP_ECHO_REQUEST {
                    proof {
                        net::lemma_word_sum_bounds(
                            net::echo_message(
                                net::ICMP_ECHO_REPLY,
                                0,
                                header.identifier,
                                header.sequence,
                                data@,
                            ),
                        );
                    }
                    let reply = net::build_icmp_echo_reply(
                        self.device.mac,
                        src_mac,
                        self.configuration.address,
                        src_ip,
                        header.identifier,
                        header.sequence,
                        data,
                    );
                    self.send(reply);
                }
            }
        } else if protocol == net::IP_PROTOCOL_UDP {
            if let Some((header, data)) = net::parse_udp(payload, src_ip, dest_ip) {
                self.deliver(header.dest_port, src_ip, header.src_port, data);
            }
        } else if protocol == net::IP_PROTOCOL_TCP {
            proof {
                net::lemma_transport_sum_bounds(
                    src_ip@,
                    dest_ip@,
                    net::IP_PROTOCOL_TCP,
                    payload@,
                );
            }
            if let Some((header, data)) = net::parse_tcp(payload, src_ip, dest_ip) {
                assert(header == tcp_header(payload@));
                self.handle_incoming_tcp(counters, src_mac, src_ip, &header, data);
            }
        }
    }

    /// Handles one frame.
    fn process_incoming_frame(&mut self, counters: &mut Counters, frame: &[u8])
        requires
            old(self).wf(),
        ensures
            final(self).wf(),
            final(self).with(*final(counters)) == on_frame(
                old(self).with(*old(counters)),
                frame@,
            ),
    {
        reveal(on_frame);
        if let Some((eth, body)) = net::parse_ethernet(frame) {
            proof {
                lemma_mac_of(eth.src_mac);
            }
            if eth.ethertype == net::ETHERTYPE_ARP {
                self.process_arp(body);
            } else if eth.ethertype == net::ETHERTYPE_IPV4 {
                if let Some((ip, payload)) = net::parse_ipv4(body) {
                    let our_ip = self.configuration.address;
                    let everyone: Ipv4Address = [255, 255, 255, 255];
                    proof {
                        lemma_ip_of(ip.src_ip);
                        lemma_ip_of(ip.dest_ip);
                        assert(everyone@ =~= seq![255u8, 255u8, 255u8, 255u8]);
                        if ip.dest_ip@ == our_ip@ {
                            assert(ip.dest_ip =~= our_ip);
                        }
                        if ip.dest_ip@ == everyone@ {
                            assert(ip.dest_ip =~= everyone);
                        }
                    }
                    if same_ip(&ip.dest_ip, &our_ip) || same_ip(&ip.dest_ip, &everyone) {
                        self.process_ipv4(
                            counters,
                            eth.src_mac,
                            ip.src_ip,
                            ip.dest_ip,
                            ip.protocol,
                            payload,
                        );
                    }
                }
            }
        }
    }
}

/// Handling a frame leaves the arrival queue, the fault and the addresses alone.
pub proof fn lemma_on_frame_keeps(n: NetView, frame: Seq<u8>)
    ensures
        on_frame(n, frame).arrived == n.arrived,
        on_frame(n, frame).fault == n.fault,
        on_frame(n, frame).mac == n.mac,
        on_frame(n, frame).configuration == n.configuration,
        on_frame(n, frame).gateway_mac == n.gateway_mac,
{
    reveal(on_frame);
    reveal(on_ipv4);
    reveal(on_tcp);
}

/// What handling every arrived frame, oldest first, does.
pub open spec fn on_frames(n: NetView) -> NetView
    decreases n.arrived.len(),
{
    if n.arrived.len() == 0 {
        n
    } else {
        let taken = NetView { arrived: n.arrived.skip(1), ..n };
        proof {
            lemma_on_frame_keeps(taken, n.arrived[0]);
        }
        on_frames(on_frame(taken, n.arrived[0]))
    }
}

/// The state after a poll: every arrived frame is handled, unless the device
/// has failed.
pub open spec fn polled(n: NetView) -> NetView {
    if n.fault is None {
        on_frames(n)
    } else {
        n
    }
}

/// The outcome of touching a device that may have failed.
pub open spec fn device_result(n: NetView) -> Result<(), NetworkError> {
    match n.fault {
        Some(e) => Err(NetworkError::Device(e)),
        None => Ok(()),
    }
}

/// Polling leaves the fault and the addresses alone.
pub proof fn lemma_on_frames_keeps(n: NetView)
    ensures
        on_frames(n).fault == n.fault,
        on_frames(n).mac == n.mac,
        on_frames(n).configuration == n.configuration,
        on_frames(n).arrived.len() == 0,
    decreases n.arrived.len(),
{
    if n.arrived.len() > 0 {
        let taken = NetView { arrived: n.arrived.skip(1), ..n };
        lemma_on_frame_keeps(taken, n.arrived[0]);
        lemma_on_frames_keeps(on_frame(taken, n.arrived[0]));
    }
}

impl NetworkState {
    pub(crate) fn poll_network_locked(&mut self, counters: &mut Counters) -> (r: Result<(), NetworkError>)
        requires
            old(self).wf(),
        ensures
            final(self).wf(),
            r == device_result(old(self).with(*old(counters))),
            final(self).with(*final(counters)) == polled(old(self).with(*old(counters))),
    {
        let ghost goal = polled(self.with(*counters));
        let ghost fault = self.device.fault;
        loop
            invariant
                self.wf(),
                self.device.fault == fault,
                fault == old(self).device.fault,
                goal == polled(self.with(*counters)),
                goal == polled(old(self).with(*old(counters))),
            decreases self.device.arrived().len(),
        {
            let ghost n = self.with(*counters);
            match self.device.receive() {
                Err(e) => {
                    assert(self.with(*counters) =~= n);
                    return Err(NetworkError::Device(e));
                },
                Ok(None) => {
                    assert(self.with(*counters) =~= n);
                    return Ok(());
                },
                Ok(Some(frame)) => {
                    proof {
                        let taken = NetView { arrived: n.arrived.skip(1), ..n };
                        assert(self.with(*counters) =~= taken);
                        lemma_on_frame_keeps(taken, n.arrived[0]);
                    }
                    self.process_incoming_frame(counters, frame.as_slice());
                },
            }
        }
    }
}

/// Handles every frame that has arrived.
pub fn poll_network(network: &mut Network) -> (r: Result<(), NetworkError>)
    requires
        old(network).wf(),
    ensures
        final(network).wf(),
        final(network).state is Some <==> old(network).state is Some,
        old(network).state is None ==> r == Err::<(), NetworkError>(NetworkError::Unavailable)
            && *final(network) == *old(network),
        old(network).state is Some ==> r == device_result(old(network)@) && final(network)@
            == polled(old(network)@),
{
    match &mut network.state {
        None => Err(NetworkError::Unavailable),
        Some(state) => state.poll_network_locked(&mut network.counters),
    }
}

/// A socket of the given type as it is created: nothing else than the type
/// numbers 1, 2 and 3 is known.
pub open spec fn fresh_socket(socket_type: u32, our_ip: Ipv4Address) -> Option<SocketView> {
    if socket_type == 1 {
        Some(
            SocketView::Tcp(
                TcpView {
                    state: TcpState::Closed,
                    local_ip: our_ip,
                    local_port: 0,
                    remote_ip: ip_of(seq![0u8, 0u8, 0u8, 0u8]),
                    remote_port: 0,
                    remote_mac: None,
                    seq_num: 0,
                    ack_num: 0,
                    snd_una: 0,
                    snd_wnd: DEFAULT_WINDOW_SIZE,
                    rx: Seq::empty(),
                    rx_closed: false,
                    tx_closed: false,
                    backlog: 0,
                    accept_queue: Seq::empty(),
                    pending: Seq::empty(),
                    options: default_options(),
                },
            ),
        )
    } else if socket_type == 2 {
        Some(
            SocketView::Udp(
                UdpView {
                    local_ip: our_ip,
                    local_port: 0,
                    bound: false,
                    connected_peer: None,
                    rx_queue: Seq::empty(),
                    options: default_options(),
                },
            ),
        )
    } else if socket_type == 3 {
        Some(SocketView::Raw)
    } else {
        None
    }
}

fn new_socket(socket_type: u32, our_ip: Ipv4Address) -> (r: Option<Socket>)
    ensures
        r is Some <==> fresh_socket(socket_type, our_ip) is Some,
        r matches Some(s) ==> Some(s@) == fresh_socket(socket_type, our_ip),
{
    let nowhere: Ipv4Address = [0, 0, 0, 0];
    proof {
        assert(nowhere@ =~= seq![0u8, 0u8, 0u8, 0u8]);
        lemma_ip_of(nowhere);
    }
    if socket_type == 1 {
        let s = TcpSocket {
            state: TcpState::Closed,
            local_ip: our_ip,
            local_port: 0,
            remote_ip: nowhere,
            remote_port: 0,
            remote_mac: None,
            seq_num: 0,
            ack_num: 0,
            snd_una: 0,
            snd_wnd: DEFAULT_WINDOW_SIZE,
            rx_buffer: Vec::new(),
            rx_closed: false,
            tx_closed: false,
            backlog: 0,
            accept_queue: Vec::new(),
            pending_syns: Vec::new(),
            options: SocketOptions::default(),
        };
        Some(Socket::Tcp(s))
    } else if socket_type == 2 {
        let s = UdpSocket {
            local_ip: our_ip,
            local_port: 0,
            bound: false,
            connected_peer: None,
            rx_queue: Vec::new(),
            options: SocketOptions::default(),
        };
        assert(s@.rx_queue =~= Seq::<DatagramView>::empty());
        Some(Socket::Udp(s))
    } else if socket_type == 3 {
        Some(Socket::Raw)
    } else {
        None
    }
}

/// Creates a socket of the Internet family. A handle is used up even when the
/// layer is down or the type is unknown.
pub fn socket_create(
    network: &mut Network,
    domain: u32,
    socket_type: u32,
    _protocol: u32,
) -> (r: Result<u32, NetworkError>)
    requires
        old(network).wf(),
    ensures
        final(network).wf(),
        final(network).state is Some <==> old(network).state is Some,
        domain != 2 ==> r == Err::<u32, NetworkError>(NetworkError::InvalidArgument)
            && *final(network) == *old(network),
        domain == 2 ==> final(network).counters == (Counters {
            next_handle: old(network).counters.next_handle.wrapping_add(1),
            ..old(network).counters
        }),
        domain == 2 && old(network).state is None ==> r == Err::<u32, NetworkError>(
            NetworkError::Unavailable,
        ),
        domain == 2 && old(network).state is Some ==> {
            let n = old(network)@;
            let handle = n.counters.next_handle;
            match fresh_socket(socket_type, n.configuration.address) {
                None => r == Err::<u32, NetworkError>(NetworkError::InvalidSocketType)
                    && final(network)@ == (NetView { counters: final(network).counters, ..n }),
                Some(s) => r == Ok::<u32, NetworkError>(handle) && final(network)@ == (NetView {
                    counters: final(network).counters,
                    sockets: n.sockets.insert(handle as u64, s),
                    ..n
                }),
            }
        },
{
    if domain != 2 {
        return Err(NetworkError::InvalidArgument);
    }
    let handle: u32 = network.counters.next_handle;
    network.counters.next_handle = handle.wrapping_add(1);
    match &mut network.state {
        None => Err(NetworkError::Unavailable),
        Some(state) => {
            let our_ip = state.configuration.address;
            match new_socket(socket_type, our_ip) {
                None => Err(NetworkError::InvalidSocketType),
                Some(socket) => {
                    proof {
                        lemma_views_insert(state.sockets@, handle as u64, socket);
                    }
                    state.sockets.insert(handle as u64, socket);
                    Ok(handle)
                },
            }
        },
    }
}

/// Takes the next ephemeral port.
pub(crate) fn take_port(counters: &mut Counters) -> (r: u16)
    ensures
        r == old(counters).next_port,
        *final(counters) == (Counters {
            next_port: old(counters).next_port.wrapping_add(1),
            ..*old(counters)
        }),
{
    let port: u16 = counters.next_port;
    counters.next_port = port.wrapping_add(1);
    port
}

/// `counters` with the next ephemeral port taken.
pub open spec fn port_taken(counters: Counters) -> Counters {
    Counters { next_port: counters.next_port.wrapping_add(1), ..counters }
}

/// The outcome of binding a socket to an address.
pub open spec fn bound(s: SocketView, ip: Ipv4Address, port: u16) -> Result<
    SocketView,
    NetworkError,
> {
    match s {
        SocketView::Tcp(t) => if t.local_port != 0 {
            Err(NetworkError::AlreadyBound)
        } else {
            Ok(SocketView::Tcp(TcpView { local_ip: ip, local_port: port, ..t }))
        },
        SocketView::Udp(u) => if u.bound {
            Err(NetworkError::AlreadyBound)
        } else {
            Ok(SocketView::Udp(UdpView { local_ip: ip, local_port: port, bound: true, ..u }))
        },
        SocketView::Raw => Ok(s),
    }
}

/// Binds a socket. Port zero asks for an ephemeral port, which is used up even
/// when binding fails; address zero stands for the configured address.
pub fn socket_bind(network: &mut Network, handle: u32, ip: Ipv4Address, port: u16) -> (r: Result<
    (),
    NetworkError,
>)
    requires
        old(network).wf(),
    ensures
        final(network).wf(),
        final(network).state is Some <==> old(network).state is Some,
        old(network).state is None ==> r == Err::<(), NetworkError>(NetworkError::Unavailable)
            && *final(network) == *old(network),
        old(network).state is Some ==> {
            let n = old(network)@;
            let counters = if port == 0 {
                port_taken(n.counters)
            } else {
                n.counters
            };
            let bind_port = if port == 0 {
                n.counters.next_port
            } else {
                port
            };
            let bind_ip = if ip@ == seq![0u8, 0u8, 0u8, 0u8] {
                n.configuration.address
            } else {
                ip
            };
            if !n.sockets.dom().contains(handle as u64) {
                r == Err::<(), NetworkError>(NetworkError::SocketNotFound) && final(network)@ == (
                NetView { counters, ..n })
            } else {
                match bound(n.sockets[handle as u64], bind_ip, bind_port) {
                    Err(e) => r == Err::<(), NetworkError>(e) && final(network)@ == (NetView {
                        counters,
                        ..n
                    }),
                    Ok(s) => r is Ok && final(network)@ == (NetView {
                        counters,
                        sockets: n.sockets.insert(handle as u64, s),
                        ..n
                    }),
                }
            }
        },
{
    match &mut network.state {
        None => Err(NetworkError::Unavailable),
        Some(state) => {
            let ghost m = state.sockets@;
            let bind_port: u16 = if port == 0 {
                take_port(&mut network.counters)
            } else {
                port
            };
            let zero: Ipv4Address = [0, 0, 0, 0];
            assert(zero@ =~= seq![0u8, 0u8, 0u8, 0u8]);
            let bind_ip = if bytes_equal(ip.as_slice(), zero.as_slice()) {
                state.configuration.address
            } else {
                ip
            };
            let key: u64 = handle as u64;
            if !state.sockets.contains_key(key) {
                return Err(NetworkError::SocketNotFound);
            }
            let r = match state.sockets.at_mut(key) {
                Socket::Tcp(tcp) => {
                    if tcp.local_port != 0 {
                        Err(NetworkError::AlreadyBound)
                    } else {
                        tcp.local_ip = bind_ip;
                        tcp.local_port = bind_port;
                        Ok(())
                    }
                },
                Socket::Udp(udp) => {
                    if udp.bound {
                        Err(NetworkError::AlreadyBound)
                    } else {
                        udp.local_ip = bind_ip;
                        udp.local_port = bind_port;
                        udp.bound = true;
                        Ok(())
                    }
                },
                Socket::Raw => Ok(()),
            };
            proof {
                let v = state.sockets@[key];
                lemma_views_insert(m, key, v);
                assert(state.sockets@ =~= m.insert(key, v));
                match bound(m[key]@, bind_ip, bind_port) {
                    Err(_) => {
                        assert(v@ =~= m[key]@);
                        assert(socket_views(state.sockets@) =~= socket_views(m));
                    },
                    Ok(s) => {
                        assert(v@ =~= s);
                    },
                }
            }
            r
        },
    }
}

/// Makes a TCP socket listen. An unbound socket gets an ephemeral port; a
/// backlog of zero stands for 128.
pub fn socket_listen(network: &mut Network, handle: u32, backlog: usize) -> (r: Result<
    (),
    NetworkError,
>)
    requires
        old(network).wf(),
    ensures
        final(network).wf(),
        final(network).state is Some <==> old(network).state is Some,
        old(network).state is None ==> r == Err::<(), NetworkError>(NetworkError::Unavailable)
            && *final(network) == *old(network),
        old(network).state is Some ==> {
            let n = old(network)@;
            if !n.sockets.dom().contains(handle as u64) {
                r == Err::<(), NetworkError>(NetworkError::SocketNotFound) && final(network)@ == n
            } else {
                match n.sockets[handle as u64] {
                    SocketView::Tcp(t) => r is Ok && final(network)@ == (NetView {
                        counters: if t.local_port == 0 {
                            port_taken(n.counters)
                        } else {
                            n.counters
                        },
                        sockets: n.sockets.insert(
                            handle as u64,
                            SocketView::Tcp(
                                TcpView {
                                    local_port: if t.local_port == 0 {
                                        n.counters.next_port
                                    } else {
                                        t.local_port
                                    },
                                    state: TcpState::Listen,
                                    backlog: if backlog == 0 {
                                        128
                                    } else {
                                        backlog
                                    },
                                    ..t
                                },
                            ),
                        ),
                        ..n
                    }),
                    _ => r == Err::<(), NetworkError>(NetworkError::InvalidSocketType)
                        && final(network)@ == n,
                }
            }
        },
{
    match &mut network.state {
        None => Err(NetworkError::Unavailable),
        Some(state) => {
            let ghost m = state.sockets@;
            let key: u64 = handle as u64;
            if !state.sockets.contains_key(key) {
                return Err(NetworkError::SocketNotFound);
            }
            let r = match state.sockets.at_mut(key) {
                Socket::Tcp(tcp) => {
                    if tcp.local_port == 0 {
                        tcp.local_port = take_port(&mut network.counters);
                    }
                    tcp.state = TcpState::Listen;
                    tcp.backlog = if backlog == 0 {
                        128
                    } else {
                        backlog
                    };
                    Ok(())
                },
                _ => Err(NetworkError::InvalidSocketType),
            };
            proof {
                let v = state.sockets@[key];
                lemma_views_insert(m, key, v);
                assert(state.sockets@ =~= m.insert(key, v));
                if r is Err {
                    assert(socket_views(state.sockets@) =~= socket_views(m));
                }
            }
            r
        },
    }
}

/// One attempt to take a connection off a listening socket's accept queue.
pub open spec fn accept_attempt(n: NetView, handle: u32, nonblocking: bool) -> (
    Result<Option<(u32, Ipv4Address, u16)>, NetworkError>,
    NetView,
) {
    let p = polled(n);
    if n.fault is Some {
        (Err(NetworkError::Device(n.fault->0)), p)
    } else if !p.sockets.dom().contains(handle as u64) {
        (Err(NetworkError::SocketNotFound), p)
    } else {
        match p.sockets[handle as u64] {
            SocketView::Tcp(t) => {
                let idle = if nonblocking {
                    Err(NetworkError::WouldBlock)
                } else {
                    Ok(None)
                };
                if t.state !is Listen {
                    (Err(NetworkError::NotListening), p)
                } else if t.accept_queue.len() == 0 {
                    (idle, p)
                } else {
                    let accepted = t.accept_queue[0];
                    let q = NetView {
                        sockets: p.sockets.insert(
                            handle as u64,
                            SocketView::Tcp(TcpView { accept_queue: t.accept_queue.skip(1), ..t }),
                        ),
                        ..p
                    };
                    if q.sockets.dom().contains(accepted as u64) {
                        match q.sockets[accepted as u64] {
                            SocketView::Tcp(c) => (
                                Ok(Some((accepted, c.remote_ip, c.remote_port))),
                                q,
                            ),
                            _ => (idle, q),
                        }
                    } else {
                        (idle, q)
                    }
                }
            },
            _ => (Err(NetworkError::InvalidSocketType), p),
        }
    }
}

/// Takes the oldest waiting connection of a listening socket: its handle and
/// peer. `Ok(None)` asks for another call once more frames have arrived; each
/// call uses up one attempt, and none left is a timeout.
pub fn socket_accept(
    network: &mut Network,
    handle: u32,
    nonblocking: bool,
    attempts: &mut usize,
) -> (r: Result<Option<(u32, Ipv4Address, u16)>, NetworkError>)
    requires
        old(network).wf(),
    ensures
        final(network).wf(),
        final(network).state is Some <==> old(network).state is Some,
        *old(attempts) == 0 ==> r == Err::<Option<(u32, Ipv4Address, u16)>, NetworkError>(
            NetworkError::TcpReceiveTimeout,
        ) && *final(network) == *old(network) && *final(attempts) == 0,
        *old(attempts) > 0 ==> *final(attempts) == *old(attempts) - 1,
        *old(attempts) > 0 && old(network).state is None ==> r == Err::<
            Option<(u32, Ipv4Address, u16)>,
            NetworkError,
        >(NetworkError::Unavailable) && *final(network) == *old(network),
        *old(attempts) > 0 && old(network).state is Some ==> (r, final(network)@)
            == accept_attempt(old(network)@, handle, nonblocking),
{
    if *attempts == 0 {
        return Err(NetworkError::TcpReceiveTimeout);
    }
    *attempts = *attempts - 1;
    match &mut network.state {
        None => Err(NetworkError::Unavailable),
        Some(state) => {
            if let Err(e) = state.poll_network_locked(&mut network.counters) {
                return Err(e);
            }
            let ghost m = state.sockets@;
            let ghost p = state.with(network.counters);
            let key: u64 = handle as u64;
            if !state.sockets.contains_key(key) {
                return Err(NetworkError::SocketNotFound);
            }
            let mut accepted: Option<u32> = None;
            match state.sockets.at_mut(key) {
                Socket::Tcp(tcp) => {
                    if tcp.state == TcpState::Listen {
                        if tcp.accept_queue.len() > 0 {
                            let ghost queue = tcp.accept_queue@;
                            accepted = Some(tcp.accept_queue.remove(0));
                            assert(tcp.accept_queue@ =~= queue.skip(1));
                        }
                    }
                },
                _ => {},
            }
            proof {
                let v = state.sockets@[key];
                lemma_views_insert(m, key, v);
                assert(state.sockets@ =~= m.insert(key, v));
                if accepted is None {
                    assert(v@ =~= m[key]@);
                    assert(socket_views(state.sockets@) =~= socket_views(m));
                    assert(state.with(network.counters) =~= p);
                }
            }
            match state.sockets.get(key) {
                Some(Socket::Tcp(tcp)) => {
                    if tcp.state != TcpState::Listen {
                        return Err(NetworkError::NotListening);
                    }
                },
                _ => {
                    return Err(NetworkError::InvalidSocketType);
                },
            }
            if let Some(a) = accepted {
                if let Some(Socket::Tcp(connection)) = state.sockets.get(a as u64) {
                    return Ok(Some((a, connection.remote_ip, connection.remote_port)));
                }
            }
            if nonblocking {
                Err(NetworkError::WouldBlock)
            } else {
                Ok(None)
            }
        },
    }
}

// ---------------------------------------------------------------------------
// Finding the hardware address to send to
// ---------------------------------------------------------------------------
/// Whether two addresses share their first three bytes.
pub open spec fn same_subnet(a: Ipv4Address, b: Ipv4Address) -> bool {
    a@[0] == b@[0] && a@[1] == b@[1] && a@[2] == b@[2]
}

/// The gateway's hardware address, if it is known.
pub open spec fn by_gateway(n: NetView) -> Result<Option<MacAddress>, NetworkError> {
    match n.gateway_mac {
        Some(mac) => Ok(Some(mac)),
        None => Err(NetworkError::GatewayUnreachable),
    }
}

/// The start of a resolution: a neighbour that is known answers at once, an
/// unknown neighbour is asked for, anyone else is reached by the gateway.
pub open spec fn resolve_start(n: NetView, ip: Ipv4Address) -> (
    Result<Option<MacAddress>, NetworkError>,
    NetView,
) {
    if !same_subnet(ip, n.configuration.address) {
        (by_gateway(n), n)
    } else if n.arp.dom().contains(ip) {
        (Ok(Some(n.arp[ip])), n)
    } else {
        match n.fault {
            Some(e) => (Err(NetworkError::Device(e)), n),
            None => (
                Ok(None),
                n.sending(
                    seq![
                        net::eth_frame(
                            Seq::new(6, |i: int| 0xffu8),
                            n.mac@,
                            net::ETHERTYPE_ARP,
                            net::arp_body(
                                net::ARP_REQUEST,
                                n.mac@,
                                n.configuration.address@,
                                crate::bytes::zeros(6),
                                ip@,
                            ),
                        ),
                    ],
                ),
            ),
        }
    }
}

/// One look at the device for the answer to a question for `ip`: a frame that
/// is not the answer is dropped, and the last look falls back on the gateway.
pub open spec fn resolve_look(n: NetView, ip: Ipv4Address, attempts: usize) -> (
    Result<Option<MacAddress>, NetworkError>,
    NetView,
) {
    if attempts == 0 {
        (by_gateway(n), n)
    } else if n.fault is Some {
        (Err(NetworkError::Device(n.fault->0)), n)
    } else if n.arrived.len() == 0 {
        (Ok(None), n)
    } else {
        let frame = n.arrived[0];
        let taken = NetView { arrived: n.arrived.skip(1), ..n };
        if net::is_arp_reply(frame, n.configuration.address@, ip@) {
            let mac = mac_of(frame.subrange(22, 28));
            (Ok(Some(mac)), NetView { arp: n.arp.insert(ip, mac), ..taken })
        } else {
            (Ok(None), taken)
        }
    }
}

impl NetworkState {
    pub(crate) fn gateway(&self) -> (r: Result<Option<MacAddress>, NetworkError>)
        ensures
            forall|c: Counters| r == #[trigger] by_gateway(self.with(c)),
    {
        match self.gateway_mac {
            Some(mac) => Ok(Some(mac)),
            None => Err(NetworkError::GatewayUnreachable),
        }
    }

    /// Starts to resolve `target_ip`; `Ok(None)` means that it was asked for.
    pub(crate) fn resolve_destination_mac(&mut self, target_ip: Ipv4Address) -> (r: Result<
        Option<MacAddress>,
        NetworkError,
    >)
        requires
            old(self).wf(),
        ensures
            final(self).wf(),
            final(self).sockets@ == old(self).sockets@,
            forall|c: Counters|
                (r, #[trigger] final(self).with(c)) == resolve_start(old(self).with(c), target_ip),
    {
        let our_ip = self.configuration.address;
        if target_ip[0] == our_ip[0] && target_ip[1] == our_ip[1] && target_ip[2] == our_ip[2] {
            if let Some(mac) = self.arp_table.get(target_ip) {
                return Ok(Some(mac));
            }
            let request = net::arp_request(self.device.mac, our_ip, target_ip);
            let frame = vstd::slice::slice_to_vec(request.as_slice());
            match self.device.transmit(frame) {
                Err(e) => Err(NetworkError::Device(e)),
                Ok(_) => {
                    assert(old(self).device.sent() + seq![frame@] =~= old(
                        self,
                    ).device.sent().push(frame@));
                    Ok(None)
                },
            }
        } else {
            self.gateway()
        }
    }

    pub(crate) fn resolve_poll(&mut self, target_ip: Ipv4Address, attempts: usize) -> (r: Result<
        Option<MacAddress>,
        NetworkError,
    >)
        requires
            old(self).wf(),
        ensures
            final(self).wf(),
            final(self).sockets@ == old(self).sockets@,
            forall|c: Counters|
                (r, #[trigger] final(self).with(c)) == resolve_look(
                    old(self).with(c),
                    target_ip,
                    attempts,
                ),
    {
        if attempts == 0 {
            return self.gateway();
        }
        match self.device.receive() {
            Err(e) => Err(NetworkError::Device(e)),
            Ok(None) => Ok(None),
            Ok(Some(frame)) => {
                match net::arp_reply_mac(
                    frame.as_slice(),
                    self.configuration.address,
                    target_ip,
                ) {
                    Some(mac) => {
                        proof {
                            lemma_mac_of(mac);
                        }
                        self.arp_table.insert(target_ip, mac);
                        Ok(Some(mac))
                    },
                    None => Ok(None),
                }
            },
        }
    }
}

} // verus!
