//! Server-side socket data structures and SYN cookies.
use vstd::prelude::*;

use crate::bytes::{self, get_le32};
use crate::net::{Ipv4Address, MacAddress};

verus! {

pub const SOMAXCONN: usize = 128;

/// One maximum segment lifetime in ticks.
pub const TCP_MSL_TICKS: u64 = 1000;

#[derive(Clone, Copy, Debug, Eq, PartialEq, Structural)]
pub enum SocketType {
    Stream,
    Datagram,
    Raw,
}

#[derive(Clone, Copy, Debug, Eq, PartialEq, Structural)]
pub enum TcpState {
    Closed,
    Listen,
    SynSent,
    SynReceived,
    Established,
    FinWait1,
    FinWait2,
    CloseWait,
    Closing,
    LastAck,
    TimeWait,
    Reset,
}

impl TcpState {
    pub fn is_active(&self) -> (r: bool)
        ensures
            r == !(*self is Closed || *self is Reset),
    {
        !matches!(self, TcpState::Closed | TcpState::Reset)
    }

    pub fn can_send(&self) -> (r: bool)
        ensures
            r == (*self is Established || *self is CloseWait),
    {
        matches!(self, TcpState::Established | TcpState::CloseWait)
    }

    pub fn can_recv(&self) -> (r: bool)
        ensures
            r == (*self is Established || *self is FinWait1 || *self is FinWait2),
    {
        matches!(self, TcpState::Established | TcpState::FinWait1 | TcpState::FinWait2)
    }
}

#[derive(Clone, Copy, Debug)]
pub struct SocketOptions {
    pub reuse_addr: bool,
    pub reuse_port: bool,
    pub rcvbuf: usize,
    pub sndbuf: usize,
    pub nonblocking: bool,
    pub tcp_nodelay: bool,
}

impl Default for SocketOptions {
    fn default() -> (r: Self)
        ensures
            r == (SocketOptions {
                reuse_addr: false,
                reuse_port: false,
                rcvbuf: 65536,
                sndbuf: 65536,
                nonblocking: false,
                tcp_nodelay: true,
            }),
    {
        SocketOptions {
            reuse_addr: false,
            reuse_port: false,
            rcvbuf: 65536,
            sndbuf: 65536,
            nonblocking: false,
            tcp_nodelay: true,
        }
    }
}

#[derive(Clone, Debug)]
pub struct UdpDatagram {
    pub src_ip: Ipv4Address,
    pub src_port: u16,
    pub data: Vec<u8>,
}

#[derive(Clone, Copy, Debug)]
pub struct PendingSyn {
    pub remote_ip: Ipv4Address,
    pub remote_port: u16,
    pub remote_mac: MacAddress,
    pub our_isn: u32,
    pub peer_seq: u32,
    pub created_tick: u64,
}

pub struct TcpSocket {
    pub state: TcpState,
    pub local_ip: Ipv4Address,
    pub local_port: u16,
    pub remote_ip: Ipv4Address,
    pub remote_port: u16,
    pub remote_mac: Option<MacAddress>,
    pub seq_num: u32,
    pub ack_num: u32,
    pub snd_una: u32,
    pub snd_wnd: u16,
    pub rx_buffer: Vec<u8>,
    pub rx_closed: bool,
    pub tx_closed: bool,
    pub backlog: usize,
    pub accept_queue: Vec<u32>,
    pub pending_syns: Vec<PendingSyn>,
    pub time_wait_entered: Option<u64>,
    pub options: SocketOptions,
}

pub struct UdpSocket {
    pub local_ip: Ipv4Address,
    pub local_port: u16,
    pub bound: bool,
    pub connected_peer: Option<(Ipv4Address, u16)>,
    pub rx_queue: Vec<UdpDatagram>,
    pub options: SocketOptions,
}

pub enum Socket {
    Tcp(TcpSocket),
    Udp(UdpSocket),
    Raw,
}

// ---------------------------------------------------------------------------
// SYN cookies
// ---------------------------------------------------------------------------
const SYN_COOKIE_SECRET: u32 = 0x5a17_c001;

/// One round of the mixing function: a linear congruential step.
pub open spec fn mix(h: u32) -> u32 {
    h.wrapping_mul(1664525).wrapping_add(1013904223)
}

/// The keyed hash of a connection's four-tuple at minute `t`.
pub closed spec fn cookie_hash(
    local: Seq<u8>,
    remote: Seq<u8>,
    local_port: u16,
    remote_port: u16,
    t: u32,
) -> u32 {
    let h1 = mix(SYN_COOKIE_SECRET ^ t);
    let h2 = mix(h1 ^ (bytes::le32_at(local, 0) as u32));
    let h3 = mix(h2 ^ (bytes::le32_at(remote, 0) as u32));
    mix(h3 ^ ((local_port * 65536 + remote_port) as u32))
}

/// The cookie's fields: five bits of the minute counter, three bits for the
/// segment-size class 1 and twenty-four bits of the hash.
pub open spec fn cookie(
    local: Seq<u8>,
    remote: Seq<u8>,
    local_port: u16,
    remote_port: u16,
    peer_seq: u32,
    t: u32,
) -> int {
    (t % 32) * 0x800_0000 + 0x100_0000 + (cookie_hash(local, remote, local_port, remote_port, t)
        ^ peer_seq) % 0x100_0000
}

/// How many minutes before `now`, modulo 32, the cookie was made.
pub open spec fn cookie_age(value: u32, now: u32) -> int {
    (now % 32 + 32 - value / 0x800_0000) % 32
}

fn syn_hash(
    local_ip: &Ipv4Address,
    remote_ip: &Ipv4Address,
    local_port: u16,
    remote_port: u16,
    t: u32,
) -> (r: u32)
    ensures
        r == cookie_hash(local_ip@, remote_ip@, local_port, remote_port, t),
{
    let mut h: u32 = SYN_COOKIE_SECRET ^ t;
    h = h.wrapping_mul(1664525).wrapping_add(1013904223);
    h = h ^ get_le32(local_ip.as_slice(), 0);
    h = h.wrapping_mul(1664525).wrapping_add(1013904223);
    h = h ^ get_le32(remote_ip.as_slice(), 0);
    h = h.wrapping_mul(1664525).wrapping_add(1013904223);
    h = h ^ ((local_port as u32) * 65536 + (remote_port as u32));
    h.wrapping_mul(1664525).wrapping_add(1013904223)
}

/// The initial sequence number to answer with when the queue of half-open
/// connections is full.
pub fn generate_syn_cookie(
    local_ip: Ipv4Address,
    remote_ip: Ipv4Address,
    local_port: u16,
    remote_port: u16,
    peer_seq: u32,
    time_min: u32,
) -> (r: u32)
    ensures
        r == cookie(local_ip@, remote_ip@, local_port, remote_port, peer_seq, time_min),
{
    let hash: u32 = syn_hash(&local_ip, &remote_ip, local_port, remote_port, time_min) ^ peer_seq;
    (time_min % 32) * 0x800_0000 + 0x100_0000 + hash % 0x100_0000
}

/// Whether `cookie` was made for this connection at most two minutes ago.
pub fn validate_syn_cookie(
    cookie: u32,
    local_ip: Ipv4Address,
    remote_ip: Ipv4Address,
    local_port: u16,
    remote_port: u16,
    peer_seq: u32,
    time_min: u32,
) -> (r: bool)
    ensures
        r == (cookie_age(cookie, time_min) <= 2 && cookie % 0x100_0000 == (cookie_hash(
            local_ip@,
            remote_ip@,
            local_port,
            remote_port,
            time_min.wrapping_sub(cookie_age(cookie, time_min) as u32),
        ) ^ peer_seq) % 0x100_0000),
{
    let cookie_t: u32 = cookie / 0x800_0000;
    let current_t: u32 = time_min % 32;
    let diff: u32 = (current_t + 32 - cookie_t) % 32;
    if diff > 2 {
        return false;
    }
    let orig_t: u32 = time_min.wrapping_sub(diff);
    let expected: u32 = (syn_hash(&local_ip, &remote_ip, local_port, remote_port, orig_t)
        ^ peer_seq) % 0x100_0000;
    cookie % 0x100_0000 == expected
}

proof fn lemma_age(t: int, age: int)
    requires
        t >= 0,
        0 <= age < 32,
    ensures
        ((t + age) % 32 + 32 - t % 32) % 32 == age,
{
    let q = t % 32;
    vstd::arithmetic::div_mod::lemma_add_mod_noop(t, age, 32);
    assert((t + age) % 32 == (q + age) % 32);
    if q + age < 32 {
        assert((q + age) % 32 == q + age);
    } else {
        assert((q + age) % 32 == q + age - 32);
    }
}

/// A cookie is accepted for the connection it was made for during the two
/// minutes that follow.
pub proof fn law_cookie_accepted(
    local: Seq<u8>,
    remote: Seq<u8>,
    local_port: u16,
    remote_port: u16,
    peer_seq: u32,
    t: u32,
    age: u32,
)
    requires
        age <= 2,
    ensures
        ({
            let value = cookie(local, remote, local_port, remote_port, peer_seq, t) as u32;
            let now = t.wrapping_add(age);
            &&& cookie_age(value, now) == age
            &&& now.wrapping_sub(age) == t
            &&& value % 0x100_0000 == (cookie_hash(
                local,
                remote,
                local_port,
                remote_port,
                now.wrapping_sub(cookie_age(value, now) as u32),
            ) ^ peer_seq) % 0x100_0000
        }),
{
    let low = (cookie_hash(local, remote, local_port, remote_port, t) ^ peer_seq) % 0x100_0000;
    let value = cookie(local, remote, local_port, remote_port, peer_seq, t) as u32;
    assert(value == (t % 32) * 0x800_0000 + 0x100_0000 + low);
    let now = t.wrapping_add(age);
    assert(now % 32 == (t + age) % 32);
    assert(value / 0x800_0000 == t % 32);
    lemma_age(t as int, age as int);
}

/// A cookie is refused from the third minute to the thirty-first.
pub proof fn law_cookie_expires(
    local: Seq<u8>,
    remote: Seq<u8>,
    local_port: u16,
    remote_port: u16,
    peer_seq: u32,
    t: u32,
    age: u32,
)
    requires
        3 <= age < 32,
    ensures
        cookie_age(
            cookie(local, remote, local_port, remote_port, peer_seq, t) as u32,
            t.wrapping_add(age),
        ) > 2,
{
    let low = (cookie_hash(local, remote, local_port, remote_port, t) ^ peer_seq) % 0x100_0000;
    let value = cookie(local, remote, local_port, remote_port, peer_seq, t) as u32;
    assert(value == (t % 32) * 0x800_0000 + 0x100_0000 + low);
    let now = t.wrapping_add(age);
    assert(now % 32 == (t + age) % 32);
    assert(value / 0x800_0000 == t % 32);
    lemma_age(t as int, age as int);
}

} // verus!
