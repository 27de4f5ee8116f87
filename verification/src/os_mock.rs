//! The socket table of a simulated host: the addresses its sockets are
//! bound to, the networks it is attached to, and where a datagram that
//! comes in or goes out is sent.
//!
//! Sockets and networks are named by handles (`u64`) that the caller hands
//! in; what stands behind a handle (a channel, a network) is the caller's.
use vstd::prelude::*;

use crate::assoc;
use crate::assoc::{Mappable, keys_distinct, lemma_to_map, to_map};
use crate::net::addr::{IpAddress, SocketAddress};
use crate::net::error::ParseError;
use crate::net::udp::{Header, Packet, packet_bytes, packet_parse_defined, spec_parse_packet};

verus! {

/// The first port handed out to a socket bound to port 0.
pub const EPHEMERAL_START: u16 = 49152;

/// The end (not included) of the ports handed out to sockets bound to
/// port 0.
pub const EPHEMERAL_END: u16 = 65535;

impl Mappable for IpAddress {
    fn same_as(&self, other: &Self) -> (b: bool) {
        IpAddress::same_as(self, other)
    }
}

/// The sockets and network attachments of a host.
pub struct SocketTable {
    sockets: Vec<(SocketAddress, u64)>,
    wildcard_sockets: Vec<u16>,
    nets: Vec<(IpAddress, u64)>,
    next_port: u16,
    public_ips: Option<([u8; 4], [u8; 16])>,
}

/// The state of a socket table.
pub struct SocketTableView {
    /// The socket bound to each address.
    pub sockets: Map<SocketAddress, u64>,
    /// The ports bound on the unspecified address, in the order they were.
    pub wildcard_sockets: Seq<u16>,
    /// The network attached at each of the host's addresses.
    pub nets: Map<IpAddress, u64>,
    /// Where the search for a free ephemeral port goes on from.
    pub next_port: u16,
    /// The host's public IPv4 and IPv6 addresses, once set.
    pub public_ips: Option<([u8; 4], [u8; 16])>,
}

impl View for SocketTable {
    type V = SocketTableView;

    closed spec fn view(&self) -> SocketTableView {
        SocketTableView {
            sockets: to_map(self.sockets@),
            wildcard_sockets: self.wildcard_sockets@,
            nets: to_map(self.nets@),
            next_port: self.next_port,
            public_ips: self.public_ips,
        }
    }
}

/// Whether `port` is taken on `on`: on the unspecified address, bound on
/// any of the host's addresses; else bound on `on`.
pub open spec fn port_taken_in(v: SocketTableView, on: IpAddress, port: u16) -> bool {
    if on.spec_is_unspecified() {
        exists|ip: IpAddress|
            #[trigger] v.nets.dom().contains(ip) && v.sockets.dom().contains(
                SocketAddress { ip, port },
            )
    } else {
        v.sockets.dom().contains(SocketAddress { ip: on, port })
    }
}

/// Whether an ephemeral port from `from` on is free on `on`.
pub open spec fn free_port_from(v: SocketTableView, on: IpAddress, from: int) -> bool {
    exists|p: u16| from <= p < EPHEMERAL_END && !#[trigger] port_taken_in(v, on, p)
}

/// Whether `r` is the port that binding to port 0 on `on` picks: the first
/// free ephemeral port from where the last search stopped, or, when there
/// is none, the first free one from the start of the range.
pub open spec fn picked_port(v: SocketTableView, on: IpAddress, r: u16) -> bool {
    &&& EPHEMERAL_START <= r < EPHEMERAL_END
    &&& !port_taken_in(v, on, r)
    &&& if free_port_from(v, on, v.next_port as int) {
        &&& v.next_port <= r
        &&& forall|p: u16| v.next_port <= p < r ==> #[trigger] port_taken_in(v, on, p)
    } else {
        forall|p: u16| EPHEMERAL_START <= p < r ==> #[trigger] port_taken_in(v, on, p)
    }
}

/// The sockets after binding `bound` to `handle`: on the unspecified
/// address, the port on each of the host's addresses; else the address.
pub open spec fn bound_sockets(v: SocketTableView, bound: SocketAddress, handle: u64) -> Map<
    SocketAddress,
    u64,
> {
    if bound.ip.spec_is_unspecified() {
        v.sockets.union_prefer_right(
            Map::new(
                |a: SocketAddress| a.port == bound.port && v.nets.dom().contains(a.ip),
                |a: SocketAddress| handle,
            ),
        )
    } else {
        v.sockets.insert(bound, handle)
    }
}

/// The address a datagram sent from `src` leaves from: the public address
/// of its version in place of the unspecified address.
pub open spec fn outgoing_source(v: SocketTableView, src: SocketAddress) -> SocketAddress {
    if src.ip.spec_is_unspecified() {
        match v.public_ips {
            Some((v4, v6)) => SocketAddress {
                ip: if src.ip.spec_is_v4() {
                    IpAddress::V4(v4)
                } else {
                    IpAddress::V6(v6)
                },
                port: src.port,
            },
            None => src,
        }
    } else {
        src
    }
}

/// The header a datagram with header `h` leaves with.
pub open spec fn outgoing_header(v: SocketTableView, h: Header) -> Header {
    if h.spec_socket_addrs().0.ip.spec_is_unspecified() {
        h.spec_with_addrs(outgoing_source(v, h.spec_socket_addrs().0), h.spec_socket_addrs().1)
    } else {
        h
    }
}

/// Why a socket could not be bound.
#[derive(Clone, Copy, Debug, PartialEq, Eq)]
pub enum BindError {
    /// The address is in use.
    AddrInUse(SocketAddress),
}

/// Where a datagram that reached the host goes.
pub enum Delivery {
    /// The bytes are not a datagram.
    Malformed(ParseError),
    /// No socket is bound to its destination.
    Unbound(SocketAddress),
    /// To the socket with this handle.
    Deliver(u64, Packet),
}

/// Where a datagram that a socket sends goes.
pub enum Outgoing {
    /// Onto the network with handle `net`, as `bytes`.
    Send { net: u64, bytes: Vec<u8>, source_rewritten: bool },
    /// No network is attached at its source address.
    Unreachable { source_rewritten: bool },
}

impl SocketTable {
    #[verifier::type_invariant]
    closed spec fn inv(self) -> bool {
        &&& keys_distinct(self.sockets@)
        &&& keys_distinct(self.nets@)
        &&& EPHEMERAL_START <= self.next_port <= EPHEMERAL_END
    }

    /// A host with no sockets, no networks and no public address.
    pub fn new() -> (t: Self)
        ensures
            t@.sockets == Map::<SocketAddress, u64>::empty(),
            t@.wildcard_sockets == Seq::<u16>::empty(),
            t@.nets == Map::<IpAddress, u64>::empty(),
            t@.next_port == EPHEMERAL_START,
            t@.public_ips is None,
    {
        SocketTable {
            sockets: Vec::new(),
            wildcard_sockets: Vec::new(),
            nets: Vec::new(),
            next_port: EPHEMERAL_START,
            public_ips: None,
        }
    }

    /// Attaches the network `net` at the host's address `addr`. Sockets
    /// bound on the unspecified address before are not bound on it.
    pub fn add_net(&mut self, addr: IpAddress, net: u64)
        ensures
            final(self)@.nets == old(self)@.nets.insert(addr, net),
            final(self)@.sockets == old(self)@.sockets,
            final(self)@.wildcard_sockets == old(self)@.wildcard_sockets,
            final(self)@.next_port == old(self)@.next_port,
            final(self)@.public_ips == old(self)@.public_ips,
    {
        proof {
            use_type_invariant(&*self);
        }
        let mut nets: Vec<(IpAddress, u64)> = Vec::new();
        std::mem::swap(&mut nets, &mut self.nets);
        assoc::insert(&mut nets, addr, net);
        self.nets = nets;
    }

    /// Sets the host's public addresses.
    pub fn set_public_ips(&mut self, v4: [u8; 4], v6: [u8; 16])
        ensures
            final(self)@.public_ips == Some((v4, v6)),
            final(self)@.sockets == old(self)@.sockets,
            final(self)@.wildcard_sockets == old(self)@.wildcard_sockets,
            final(self)@.nets == old(self)@.nets,
            final(self)@.next_port == old(self)@.next_port,
    {
        proof {
            use_type_invariant(&*self);
        }
        self.public_ips = Some((v4, v6));
    }

    /// The host's public addresses, once set.
    pub fn public_ips(&self) -> (r: Option<([u8; 4], [u8; 16])>)
        ensures
            r == self@.public_ips,
    {
        self.public_ips
    }

    /// The socket bound to `addr`, if any.
    pub fn socket_at(&self, addr: &SocketAddress) -> (r: Option<u64>)
        ensures
            r == (if self@.sockets.dom().contains(*addr) {
                Some(self@.sockets[*addr])
            } else {
                None
            }),
    {
        proof {
            use_type_invariant(self);
        }
        match assoc::find(&self.sockets, addr) {
            Some(i) => Some(self.sockets[i].1),
            None => None,
        }
    }

    /// Whether `port` is taken on `on`; see `port_taken_in`.
    pub fn port_taken(&self, on: &IpAddress, port: u16) -> (b: bool)
        ensures
            b == port_taken_in(self@, *on, port),
    {
        proof {
            use_type_invariant(self);
            lemma_to_map(self.nets@);
        }
        if on.is_unspecified() {
            let mut i: usize = 0;
            while i < self.nets.len()
                invariant
                    i <= self.nets@.len(),
                    on.spec_is_unspecified(),
                    keys_distinct(self.sockets@),
                    forall|j: int|
                        0 <= j < i ==> !to_map(self.sockets@).dom().contains(
                            SocketAddress { ip: #[trigger] self.nets@[j].0, port },
                        ),
                decreases self.nets@.len() - i,
            {
                let addr = SocketAddress { ip: self.nets[i].0, port };
                if let Some(_) = assoc::find(&self.sockets, &addr) {
                    proof {
                        use_type_invariant(self);
                        lemma_to_map(self.nets@);
                        let ip = self.nets@[i as int].0;
                        assert(to_map(self.nets@).dom().contains(ip));
                        assert(self@.nets.dom().contains(ip) && self@.sockets.dom().contains(
                            SocketAddress { ip, port },
                        ));
                    }
                    return true;
                }
                i = i + 1;
            }
            proof {
                lemma_to_map(self.nets@);
                assert forall|ip: IpAddress| #[trigger]
                    to_map(self.nets@).dom().contains(ip) implies !to_map(
                    self.sockets@,
                ).dom().contains(SocketAddress { ip, port }) by {
                    let j = choose|j: int| 0 <= j < self.nets@.len() && self.nets@[j].0 == ip;
                    assert(self.nets@[j].0 == ip);
                }
            }
            false
        } else {
            assoc::find(&self.sockets, &SocketAddress { ip: *on, port }).is_some()
        }
    }

    /// Whether some ephemeral port is free on `on`, which binding to port 0
    /// on `on` needs.
    pub fn has_free_port(&self, on: &IpAddress) -> (b: bool)
        ensures
            b == free_port_from(self@, *on, EPHEMERAL_START as int),
    {
        let mut p: u16 = EPHEMERAL_START;
        while p < EPHEMERAL_END
            invariant
                EPHEMERAL_START <= p <= EPHEMERAL_END,
                forall|q: u16| EPHEMERAL_START <= q < p ==> #[trigger] port_taken_in(self@, *on, q),
            decreases EPHEMERAL_END - p,
        {
            if !self.port_taken(on, p) {
                return true;
            }
            p = p + 1;
        }
        false
    }

    /// Picks the port for a socket bound to port 0 on `on`; see
    /// `picked_port`. The search goes on from there the next time.
    pub fn pick_unused_port(&mut self, on: &IpAddress) -> (r: u16)
        requires
            free_port_from(old(self)@, *on, EPHEMERAL_START as int),
        ensures
            picked_port(old(self)@, *on, r),
            final(self)@.next_port == r + 1,
            final(self)@.sockets == old(self)@.sockets,
            final(self)@.wildcard_sockets == old(self)@.wildcard_sockets,
            final(self)@.nets == old(self)@.nets,
            final(self)@.public_ips == old(self)@.public_ips,
    {
        proof {
            use_type_invariant(&*self);
        }
        let ghost v = self@;
        let mut p: u16 = self.next_port;
        while p < EPHEMERAL_END
            invariant
                self@ == v,
                v == old(self)@,
                EPHEMERAL_START <= v.next_port <= p <= EPHEMERAL_END,
                forall|q: u16| v.next_port <= q < p ==> #[trigger] port_taken_in(v, *on, q),
            decreases EPHEMERAL_END - p,
        {
            if !self.port_taken(on, p) {
                proof {
                    use_type_invariant(&*self);
                }
                self.next_port = p + 1;
                return p;
            }
            p = p + 1;
        }
        assert(!free_port_from(v, *on, v.next_port as int));
        let mut p: u16 = EPHEMERAL_START;
        while p < EPHEMERAL_END
            invariant
                self@ == v,
                v == old(self)@,
                !free_port_from(v, *on, v.next_port as int),
                free_port_from(v, *on, EPHEMERAL_START as int),
                EPHEMERAL_START <= p <= EPHEMERAL_END,
                forall|q: u16| EPHEMERAL_START <= q < p ==> #[trigger] port_taken_in(v, *on, q),
            decreases EPHEMERAL_END - p,
        {
            if !self.port_taken(on, p) {
                proof {
                    use_type_invariant(&*self);
                }
                self.next_port = p + 1;
                return p;
            }
            p = p + 1;
        }
        proof {
            let q = choose|q: u16| EPHEMERAL_START <= q < EPHEMERAL_END && !port_taken_in(v, *on, q);
            assert(port_taken_in(v, *on, q));
        }
        0
    }

    /// Binds the socket `handle` to `addr`, picking a free ephemeral port
    /// when its port is 0: on the unspecified address, on each of the
    /// host's addresses. Fails when the address is taken. Gives the address
    /// bound.
    pub fn bind_to_addr(&mut self, addr: SocketAddress, handle: u64) -> (r: Result<
        SocketAddress,
        BindError,
    >)
        requires
            addr.port == 0 ==> free_port_from(old(self)@, addr.ip, EPHEMERAL_START as int),
        ensures
            r is Err <==> addr.port != 0 && port_taken_in(old(self)@, addr.ip, addr.port),
            match r {
                Ok(bound) => {
                    &&& bound.ip == addr.ip
                    &&& addr.port != 0 ==> bound.port == addr.port && final(self)@.next_port
                        == old(self)@.next_port
                    &&& addr.port == 0 ==> picked_port(old(self)@, addr.ip, bound.port)
                        && final(self)@.next_port == bound.port + 1
                    &&& final(self)@.sockets == bound_sockets(old(self)@, bound, handle)
                    &&& final(self)@.wildcard_sockets == if addr.ip.spec_is_unspecified() {
                        old(self)@.wildcard_sockets.push(bound.port)
                    } else {
                        old(self)@.wildcard_sockets
                    }
                    &&& final(self)@.nets == old(self)@.nets
                    &&& final(self)@.public_ips == old(self)@.public_ips
                },
                Err(e) => e == BindError::AddrInUse(addr) && final(self)@ == old(self)@,
            },
    {
        proof {
            use_type_invariant(&*self);
        }
        let mut addr = addr;
        if addr.port == 0 {
            addr.port = self.pick_unused_port(&addr.ip);
        }
        if self.port_taken(&addr.ip, addr.port) {
            return Err(BindError::AddrInUse(addr));
        }
        proof {
            use_type_invariant(&*self);
        }
        let mut sockets: Vec<(SocketAddress, u64)> = Vec::new();
        std::mem::swap(&mut sockets, &mut self.sockets);
        let ghost before = to_map(sockets@);
        if addr.ip.is_unspecified() {
            let mut wildcard: Vec<u16> = Vec::new();
            std::mem::swap(&mut wildcard, &mut self.wildcard_sockets);
            wildcard.push(addr.port);
            self.wildcard_sockets = wildcard;
            let mut i: usize = 0;
            while i < self.nets.len()
                invariant
                    i <= self.nets@.len(),
                    keys_distinct(sockets@),
                    to_map(sockets@) == before.union_prefer_right(
                        Map::new(
                            |a: SocketAddress|
                                a.port == addr.port && exists|j: int|
                                    0 <= j < i && #[trigger] self.nets@[j].0 == a.ip,
                            |a: SocketAddress| handle,
                        ),
                    ),
                decreases self.nets@.len() - i,
            {
                let ghost m = to_map(sockets@);
                let key = SocketAddress { ip: self.nets[i].0, port: addr.port };
                assoc::insert(&mut sockets, key, handle);
                proof {
                    let next = before.union_prefer_right(
                        Map::new(
                            |a: SocketAddress|
                                a.port == addr.port && exists|j: int|
                                    0 <= j < i + 1 && #[trigger] self.nets@[j].0 == a.ip,
                            |a: SocketAddress| handle,
                        ),
                    );
                    assert forall|a: SocketAddress| #[trigger]
                        next.dom().contains(a) == m.insert(key, handle).dom().contains(a) by {
                        if a.port == addr.port && a.ip == self.nets@[i as int].0 {
                            assert(self.nets@[i as int].0 == a.ip);
                        }
                        if next.dom().contains(a) && a != key && !before.dom().contains(a) {
                            let j = choose|j: int| 0 <= j < i + 1 && self.nets@[j].0 == a.ip;
                            assert(j != i);
                            assert(self.nets@[j].0 == a.ip);
                        }
                    }
                    assert(to_map(sockets@) =~= next);
                }
                i = i + 1;
            }
            proof {
                lemma_to_map(self.nets@);
                assert(to_map(sockets@) =~= bound_sockets(old(self)@, addr, handle)) by {
                    assert forall|a: SocketAddress|
                        (a.port == addr.port && to_map(self.nets@).dom().contains(a.ip)) == (
                        a.port == addr.port && exists|j: int|
                            0 <= j < self.nets@.len() && #[trigger] self.nets@[j].0 == a.ip) by {
                        if to_map(self.nets@).dom().contains(a.ip) {
                            let j = choose|j: int|
                                0 <= j < self.nets@.len() && self.nets@[j].0 == a.ip;
                            assert(self.nets@[j].0 == a.ip);
                        }
                    }
                }
            }
        } else {
            assoc::insert(&mut sockets, addr, handle);
        }
        self.sockets = sockets;
        Ok(addr)
    }

    /// Where the datagram `bytes` that reached the host goes: to the socket
    /// bound to its destination.
    pub fn deliver(&self, bytes: &[u8]) -> (d: Delivery)
        requires
            packet_parse_defined(bytes@),
        ensures
            match spec_parse_packet(bytes@) {
                Err(e) => d == Delivery::Malformed(e),
                Ok((h, data)) => {
                    let dst = h.spec_socket_addrs().1;
                    if self@.sockets.dom().contains(dst) {
                        d matches Delivery::Deliver(s, p) && s == self@.sockets[dst] && p.header
                            == h && p.data@ == data
                    } else {
                        d == Delivery::Unbound(dst)
                    }
                },
            },
    {
        let packet = match Packet::try_from_bytes(bytes) {
            Ok(p) => p,
            Err(e) => return Delivery::Malformed(e),
        };
        let dst = packet.header.get_dst_addr();
        match self.socket_at(&dst) {
            Some(s) => Delivery::Deliver(s, packet),
            None => Delivery::Unbound(dst),
        }
    }

    /// Where the datagram `packet` that a socket sends goes: from the
    /// unspecified address it leaves from the public address of its
    /// version; it goes onto the network attached at its source address,
    /// written out.
    pub fn route_outgoing(&self, packet: Packet) -> (o: Outgoing)
        requires
            packet.header.ip_header.spec_writable(),
            packet.header.spec_socket_addrs().0.ip.spec_is_unspecified() ==> self@.public_ips
                is Some && !outgoing_source(
                self@,
                packet.header.spec_socket_addrs().0,
            ).ip.spec_is_unspecified(),
        ensures
            ({
                let rewritten = packet.header.spec_socket_addrs().0.ip.spec_is_unspecified();
                let src = outgoing_source(self@, packet.header.spec_socket_addrs().0);
                match o {
                    Outgoing::Send { net, bytes, source_rewritten } => {
                        &&& source_rewritten == rewritten
                        &&& self@.nets.dom().contains(src.ip)
                        &&& net == self@.nets[src.ip]
                        &&& bytes@ == packet_bytes(outgoing_header(self@, packet.header), packet.data@)
                    },
                    Outgoing::Unreachable { source_rewritten } => {
                        &&& source_rewritten == rewritten
                        &&& !self@.nets.dom().contains(src.ip)
                    },
                }
            }),
    {
        proof {
            use_type_invariant(self);
            lemma_to_map(self.nets@);
        }
        let mut packet = packet;
        let src = packet.header.get_src_addr();
        let rewritten = src.ip.is_unspecified();
        if rewritten {
            let (v4, v6) = self.public_ips.unwrap();
            let ip = if src.ip.is_v4() {
                IpAddress::V4(v4)
            } else {
                IpAddress::V6(v6)
            };
            packet.set_src_addr(SocketAddress { ip, port: src.port });
        }
        let from = packet.header.get_src_addr();
        match assoc::find(&self.nets, &from.ip) {
            None => Outgoing::Unreachable { source_rewritten: rewritten },
            Some(i) => {
                let net = self.nets[i].1;
                let mut bytes: Vec<u8> = Vec::new();
                packet.write_into_buf(&mut bytes);
                Outgoing::Send { net, bytes, source_rewritten: rewritten }
            },
        }
    }
}

/// A socket bound to an address receives what is sent to it: after a
/// socket is bound to a specified address, the datagrams to that address
/// go to it; bound on the unspecified address, the datagrams to its port
/// on any address the host is attached at go to it.
pub proof fn lemma_bound_socket_receives(
    v: SocketTableView,
    bound: SocketAddress,
    handle: u64,
    dst: SocketAddress,
)
    requires
        !bound.ip.spec_is_unspecified() && dst == bound || bound.ip.spec_is_unspecified()
            && dst.port == bound.port && v.nets.dom().contains(dst.ip),
    ensures
        bound_sockets(v, bound, handle).dom().contains(dst),
        bound_sockets(v, bound, handle)[dst] == handle,
{
    if bound.ip.spec_is_unspecified() {
        let m = Map::new(
            |a: SocketAddress| a.port == bound.port && v.nets.dom().contains(a.ip),
            |a: SocketAddress| handle,
        );
        assert(m.dom().contains(dst));
        assert(m[dst] == handle);
    }
}

/// An address once bound is taken: binding it again fails, as long as an
/// address bound on the unspecified address has a network to be bound on.
pub proof fn lemma_bound_port_taken(v: SocketTableView, bound: SocketAddress, handle: u64, w: SocketTableView)
    requires
        w.sockets == bound_sockets(v, bound, handle),
        w.nets == v.nets,
        bound.ip.spec_is_unspecified() ==> v.nets.dom().len() > 0 && v.nets.dom().finite(),
    ensures
        port_taken_in(w, bound.ip, bound.port),
{
    if bound.ip.spec_is_unspecified() {
        let ip = v.nets.dom().choose();
        assert(v.nets.dom().contains(ip));
        assert(w.sockets.dom().contains(SocketAddress { ip, port: bound.port }));
    }
}

} // verus!
