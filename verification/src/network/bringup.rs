//! Bringing the stack up: find the gateway, ping it, ask the name server.
use vstd::prelude::*;
use vstd::slice::slice_to_vec;

use crate::net::{self, Ipv4Address, MacAddress};
use crate::network::{
    self, ARP_POLL_ATTEMPTS, ArpTable, Counters, NetView, Network, NetworkConfig, NetworkError,
    NetworkInfo, NetworkState, SocketView,
};
use crate::ordmap::OrdMap;
use crate::virtio_net::{VirtioNet, VirtioNetError};

verus! {

/// The identifier of the ping to the gateway.
pub const PING_ID: u16 = 0x564e;

/// What the stack waits for while it comes up.
#[derive(Clone, Copy, Debug, Eq, PartialEq)]
pub enum Stage {
    Gateway,
    Echo { gateway_mac: MacAddress },
    Dns { gateway_mac: MacAddress },
}

/// A stack that is coming up.
pub struct BringUp {
    pub device: VirtioNet,
    pub configuration: NetworkConfig,
    pub stage: Stage,
    pub attempts: usize,
}

/// What one step of coming up leads to.
pub enum BringUpStep {
    Waiting(BringUp),
    Up(NetworkState, Result<NetworkInfo, NetworkError>),
    Failed(NetworkError),
}

#[verifier::ext_equal]
pub struct BringUpView {
    pub mac: MacAddress,
    pub arrived: Seq<Seq<u8>>,
    pub sent: Seq<Seq<u8>>,
    pub fault: Option<VirtioNetError>,
    pub configuration: NetworkConfig,
    pub stage: Stage,
    pub attempts: usize,
}

impl BringUp {
    pub open spec fn view(&self) -> BringUpView {
        BringUpView {
            mac: self.device.mac,
            arrived: self.device.arrived(),
            sent: self.device.sent(),
            fault: self.device.fault,
            configuration: self.configuration,
            stage: self.stage,
            attempts: self.attempts,
        }
    }
}

/// The question for the gateway's hardware address.
pub open spec fn gateway_question(mac: MacAddress, configuration: NetworkConfig) -> Seq<u8> {
    net::eth_frame(
        Seq::new(6, |i: int| 0xffu8),
        mac@,
        net::ETHERTYPE_ARP,
        net::arp_body(
            net::ARP_REQUEST,
            mac@,
            configuration.address@,
            crate::bytes::zeros(6),
            configuration.gateway@,
        ),
    )
}

/// The ping to the gateway.
pub open spec fn gateway_ping(
    mac: MacAddress,
    gateway_mac: MacAddress,
    configuration: NetworkConfig,
) -> Seq<u8> {
    net::ipv4_frame(
        mac@,
        gateway_mac@,
        configuration.address@,
        configuration.gateway@,
        net::IP_PROTOCOL_ICMP,
        PING_ID,
        0,
        64,
        net::sealed_echo_message(net::ICMP_ECHO_REQUEST, PING_ID, 1, Seq::empty()),
    )
}

/// The question to the name server.
pub open spec fn name_question(
    mac: MacAddress,
    gateway_mac: MacAddress,
    configuration: NetworkConfig,
) -> Seq<u8> {
    net::ipv4_frame(
        mac@,
        gateway_mac@,
        configuration.address@,
        configuration.dns@,
        net::IP_PROTOCOL_UDP,
        0x5650,
        0,
        64,
        net::udp_datagram(49_152, 53, 0, net::dns_probe()),
    )
}

/// The stack once it is up: the gateway is its only neighbour, and it has no socket.
pub open spec fn up(b: BringUpView, gateway_mac: MacAddress, dns_replied: bool, c: Counters) -> NetView {
    NetView {
        mac: b.mac,
        arrived: b.arrived,
        sent: b.sent,
        fault: b.fault,
        configuration: b.configuration,
        arp: Map::<Ipv4Address, MacAddress>::empty().insert(b.configuration.gateway, gateway_mac),
        gateway_mac: Some(gateway_mac),
        gateway_echoed: true,
        dns_replied,
        tcp_connected: false,
        sockets: Map::<u64, SocketView>::empty(),
        counters: c,
    }
}

/// What the stack tells of itself.
pub open spec fn info_of(n: NetView) -> NetworkInfo {
    NetworkInfo {
        mac: n.mac,
        local_ip: n.configuration.address,
        dns_server: n.configuration.dns,
        tcp_host: n.configuration.tcp_host,
        tcp_port: n.configuration.tcp_port,
        gateway_mac: n.gateway_mac,
        gateway_echoed: n.gateway_echoed,
        dns_replied: n.dns_replied,
        tcp_connected: n.tcp_connected,
    }
}

/// Whether the answer that a stage waits for is at the head of the queue.
pub open spec fn answered(b: BringUpView) -> bool {
    b.arrived.len() > 0 && match b.stage {
        Stage::Gateway => net::is_arp_reply(
            b.arrived[0],
            b.configuration.address@,
            b.configuration.gateway@,
        ),
        Stage::Echo { .. } => net::echo_reply_frame(
            b.arrived[0],
            b.configuration.address@,
            b.configuration.gateway@,
            PING_ID,
        ),
        Stage::Dns { .. } => net::dns_probe_reply(
            b.arrived[0],
            b.configuration.address@,
            b.configuration.dns@,
        ),
    }
}

/// A stack with the head of its queue taken off, if there is one.
pub open spec fn taken(b: BringUpView) -> BringUpView {
    if b.arrived.len() > 0 {
        BringUpView { arrived: b.arrived.skip(1), ..b }
    } else {
        b
    }
}

/// Whether `step` is what one look at the device leads to.
pub open spec fn is_step(b: BringUpView, step: BringUpStep) -> bool {
    let t = taken(b);
    if b.attempts == 0 {
        match b.stage {
            Stage::Gateway => step == BringUpStep::Failed(NetworkError::GatewayUnreachable),
            Stage::Echo { .. } => step == BringUpStep::Failed(NetworkError::GatewayNoEcho),
            Stage::Dns { gateway_mac } => step matches BringUpStep::Up(state, told) && state.wf()
                && told == Err::<NetworkInfo, NetworkError>(NetworkError::DnsUnreachable)
                && forall|c: Counters| #[trigger] state.with(c) == up(b, gateway_mac, false, c),
        }
    } else if !answered(b) {
        step matches BringUpStep::Waiting(next) && next@ == (BringUpView {
            attempts: (b.attempts - 1) as usize,
            ..t
        })
    } else {
        match b.stage {
            Stage::Gateway => {
                let gateway_mac = network::mac_of(b.arrived[0].subrange(22, 28));
                step matches BringUpStep::Waiting(next) && next@ == (
                BringUpView {
                    sent: b.sent.push(gateway_ping(b.mac, gateway_mac, b.configuration)),
                    stage: Stage::Echo { gateway_mac },
                    attempts: ARP_POLL_ATTEMPTS,
                    ..t
                })
            },
            Stage::Echo { gateway_mac } => step matches BringUpStep::Waiting(next) && next@ == (BringUpView {
                sent: b.sent.push(name_question(b.mac, gateway_mac, b.configuration)),
                stage: Stage::Dns { gateway_mac },
                attempts: ARP_POLL_ATTEMPTS,
                ..t
            }),
            Stage::Dns { gateway_mac } => step matches BringUpStep::Up(state, told) && state.wf()
                && forall|c: Counters| #[trigger]
                state.with(c) == up(t, gateway_mac, true, c) && told == Ok::<
                    NetworkInfo,
                    NetworkError,
                >(info_of(up(t, gateway_mac, true, c))),
        }
    }
}

/// Starts to bring the stack up: asks for the gateway.
pub fn initialize(device: VirtioNet, configuration: NetworkConfig) -> (r: Result<
    BringUp,
    NetworkError,
>)
    ensures
        match device.fault {
            Some(e) => r is Err && r->Err_0 == NetworkError::Device(e),
            None => r matches Ok(b) && b@ == (BringUpView {
                mac: device.mac,
                arrived: device.arrived(),
                sent: device.sent().push(gateway_question(device.mac, configuration)),
                fault: None,
                configuration,
                stage: Stage::Gateway,
                attempts: ARP_POLL_ATTEMPTS,
            }),
        },
{
    let mut device = device;
    let request = net::arp_request(device.mac, configuration.address, configuration.gateway);
    match device.transmit(slice_to_vec(request.as_slice())) {
        Err(e) => Err(NetworkError::Device(e)),
        Ok(_) => Ok(
            BringUp { device, configuration, stage: Stage::Gateway, attempts: ARP_POLL_ATTEMPTS },
        ),
    }
}

impl BringUp {
    /// One look at the device: the answer that is waited for leads on, anything
    /// else is dropped, and running out of attempts ends the wait.
    pub fn step(self) -> (r: BringUpStep)
        ensures
            self.attempts > 0 && self.device.fault is Some ==> r == BringUpStep::Failed(
                NetworkError::Device(self.device.fault->0),
            ),
            self.attempts == 0 || self.device.fault is None ==> is_step(self@, r),
    {
        let mut b = self;
        let ghost v = self@;
        if b.attempts == 0 {
            return match b.stage {
                Stage::Gateway => BringUpStep::Failed(NetworkError::GatewayUnreachable),
                Stage::Echo { .. } => BringUpStep::Failed(NetworkError::GatewayNoEcho),
                Stage::Dns { gateway_mac } => {
                    let (state, _) = b.finish(gateway_mac, false);
                    BringUpStep::Up(state, Err(NetworkError::DnsUnreachable))
                },
            };
        }
        b.attempts = b.attempts - 1;
        let frame = match b.device.receive() {
            Err(e) => {
                return BringUpStep::Failed(NetworkError::Device(e));
            },
            Ok(None) => {
                return BringUpStep::Waiting(b);
            },
            Ok(Some(frame)) => frame,
        };
        let configuration = b.configuration;
        match b.stage {
            Stage::Gateway => {
                match net::arp_reply_mac(
                    frame.as_slice(),
                    configuration.address,
                    configuration.gateway,
                ) {
                    None => BringUpStep::Waiting(b),
                    Some(gateway_mac) => {
                        proof {
                            network::lemma_mac_of(gateway_mac);
                        }
                        let ping = net::icmp_echo_request(
                            b.device.mac,
                            gateway_mac,
                            configuration.address,
                            configuration.gateway,
                            PING_ID,
                        );
                        let _ = b.device.transmit(slice_to_vec(ping.as_slice()));
                        b.stage = Stage::Echo { gateway_mac };
                        b.attempts = ARP_POLL_ATTEMPTS;
                        BringUpStep::Waiting(b)
                    },
                }
            },
            Stage::Echo { gateway_mac } => {
                if net::is_icmp_echo_reply(
                    frame.as_slice(),
                    configuration.address,
                    configuration.gateway,
                    PING_ID,
                ) {
                    let question = net::udp_dns_query(
                        b.device.mac,
                        gateway_mac,
                        configuration.address,
                        configuration.dns,
                    );
                    let _ = b.device.transmit(slice_to_vec(question.as_slice()));
                    b.stage = Stage::Dns { gateway_mac };
                    b.attempts = ARP_POLL_ATTEMPTS;
                }
                BringUpStep::Waiting(b)
            },
            Stage::Dns { gateway_mac } => {
                if net::is_udp_dns_reply(
                    frame.as_slice(),
                    configuration.address,
                    configuration.dns,
                ) {
                    let (state, info) = b.finish(gateway_mac, true);
                    BringUpStep::Up(state, Ok(info))
                } else {
                    BringUpStep::Waiting(b)
                }
            },
        }
    }

    fn finish(self, gateway_mac: MacAddress, dns_replied: bool) -> (r: (NetworkState, NetworkInfo))
        ensures
            r.0.wf(),
            forall|c: Counters| #[trigger]
                r.0.with(c) == up(self@, gateway_mac, dns_replied, c) && r.1 == info_of(
                    up(self@, gateway_mac, dns_replied, c),
                ),
    {
        let mut arp_table = ArpTable::new();
        arp_table.insert(self.configuration.gateway, gateway_mac);
        let info = NetworkInfo {
            mac: self.device.mac,
            local_ip: self.configuration.address,
            dns_server: self.configuration.dns,
            tcp_host: self.configuration.tcp_host,
            tcp_port: self.configuration.tcp_port,
            gateway_mac: Some(gateway_mac),
            gateway_echoed: true,
            dns_replied,
            tcp_connected: false,
        };
        let state = NetworkState {
            device: self.device,
            configuration: self.configuration,
            arp_table,
            gateway_mac: Some(gateway_mac),
            gateway_echoed: true,
            dns_replied,
            tcp_connected: false,
            sockets: OrdMap::new(),
        };
        assert(crate::network::socket_views(state.sockets@) =~= Map::<u64, SocketView>::empty());
        (state, info)
    }
}

/// What the stack tells of itself, once it is up.
pub fn status(network: &Network) -> (r: Option<NetworkInfo>)
    ensures
        r is Some <==> network.state is Some,
        r matches Some(info) ==> info == info_of(network@),
{
    match &network.state {
        None => None,
        Some(state) => Some(
            NetworkInfo {
                mac: state.device.mac,
                local_ip: state.configuration.address,
                dns_server: state.configuration.dns,
                tcp_host: state.configuration.tcp_host,
                tcp_port: state.configuration.tcp_port,
                gateway_mac: state.gateway_mac,
                gateway_echoed: state.gateway_echoed,
                dns_replied: state.dns_replied,
                tcp_connected: state.tcp_connected,
            },
        ),
    }
}

} // verus!
