//! Network address translation: the port mappings of a router, the
//! firewall in front of it, and the decision of where a packet that reaches
//! the translator goes.
use vstd::prelude::*;

use crate::assoc;
use crate::assoc::{keys_distinct, lemma_to_map, to_map};
use crate::net::addr::{IpAddress, SocketAddress};
use crate::net::ip;
use crate::net::udp::{Packet, packet_bytes, packet_parse_defined, spec_parse_packet};

pub use crate::assoc::Mappable;

verus! {

/// How long, in nanoseconds, a mapping or a firewall hole lives unused.
pub const MAPPING_LIFETIME_NANOS: u64 = 30_000_000_000;

/// Whether something last used at `last_used` has expired at `now`: more
/// than the lifetime has passed (no time has passed when `now` is earlier).
pub open spec fn is_stale(last_used: u64, now: u64) -> bool {
    now > last_used && now - last_used > MAPPING_LIFETIME_NANOS
}

fn stale(last_used: u64, now: u64) -> (b: bool)
    ensures
        b == is_stale(last_used, now),
{
    now > last_used && now - last_used > MAPPING_LIFETIME_NANOS
}

impl Mappable for SocketAddress {
    fn same_as(&self, other: &Self) -> (b: bool) {
        SocketAddress::same_as(self, other)
    }
}

/// The key of a firewall hole: the internal address and the remote side.
#[derive(Clone, Copy, Debug, PartialEq, Eq)]
pub struct HoleKey<D>(pub SocketAddress, pub D);

impl<D: Mappable> Mappable for HoleKey<D> {
    fn same_as(&self, other: &Self) -> (b: bool) {
        SocketAddress::same_as(&self.0, &other.0) && self.1.same_as(&other.1)
    }
}

/// What the router keys its mappings by, made from an outgoing packet's
/// (source, destination) and giving back the internal address.
pub trait RouterDependence: Mappable {
    spec fn spec_from_pair(src: SocketAddress, dst: SocketAddress) -> Self;

    spec fn spec_internal(self) -> SocketAddress;

    fn from_pair(src: SocketAddress, dst: SocketAddress) -> (r: Self)
        ensures
            r == Self::spec_from_pair(src, dst),
    ;

    fn internal(&self) -> (a: SocketAddress)
        ensures
            a == self.spec_internal(),
    ;
}

/// What the firewall keys the remote side of a hole by.
pub trait FirewallDependence: Mappable {
    spec fn spec_from_addr(a: SocketAddress) -> Self;

    fn from_addr(a: SocketAddress) -> (r: Self)
        ensures
            r == Self::spec_from_addr(a),
    ;
}

/// Endpoint dependent mapping: each (internal source, destination) gets a
/// port of its own.
#[derive(Clone, Copy, Debug, PartialEq, Eq)]
pub struct EdnNatMapping(pub SocketAddress, pub SocketAddress);

/// Endpoint independent mapping: an internal source keeps its port
/// whatever the destination.
#[derive(Clone, Copy, Debug, PartialEq, Eq)]
pub struct EinNatMapping(pub SocketAddress);

/// Endpoint socket dependent firewall: a hole opens to one remote socket
/// address.
#[derive(Clone, Copy, Debug, PartialEq, Eq)]
pub struct EsdFirewall(pub SocketAddress);

impl Mappable for EdnNatMapping {
    fn same_as(&self, other: &Self) -> (b: bool) {
        self.0.same_as(&other.0) && self.1.same_as(&other.1)
    }
}

impl RouterDependence for EdnNatMapping {
    open spec fn spec_from_pair(src: SocketAddress, dst: SocketAddress) -> Self {
        EdnNatMapping(src, dst)
    }

    open spec fn spec_internal(self) -> SocketAddress {
        self.0
    }

    fn from_pair(src: SocketAddress, dst: SocketAddress) -> (r: Self) {
        EdnNatMapping(src, dst)
    }

    fn internal(&self) -> (a: SocketAddress) {
        self.0
    }
}

impl Mappable for EinNatMapping {
    fn same_as(&self, other: &Self) -> (b: bool) {
        self.0.same_as(&other.0)
    }
}

impl RouterDependence for EinNatMapping {
    open spec fn spec_from_pair(src: SocketAddress, dst: SocketAddress) -> Self {
        EinNatMapping(src)
    }

    open spec fn spec_internal(self) -> SocketAddress {
        self.0
    }

    fn from_pair(src: SocketAddress, dst: SocketAddress) -> (r: Self) {
        EinNatMapping(src)
    }

    fn internal(&self) -> (a: SocketAddress) {
        self.0
    }
}

impl Mappable for EsdFirewall {
    fn same_as(&self, other: &Self) -> (b: bool) {
        self.0.same_as(&other.0)
    }
}

impl FirewallDependence for EsdFirewall {
    open spec fn spec_from_addr(a: SocketAddress) -> Self {
        EsdFirewall(a)
    }

    fn from_addr(a: SocketAddress) -> (r: Self) {
        EsdFirewall(a)
    }
}

/// The port after `p`, wrapping around.
pub open spec fn next_port(p: u16) -> u16 {
    if p == 0xffff {
        0
    } else {
        (p + 1) as u16
    }
}

/// Whether `port` can be handed out: no mapping uses it, or its mapping has
/// expired.
pub open spec fn port_available<RD>(incoming: Map<u16, (RD, u64)>, port: u16, now: u64) -> bool {
    !incoming.dom().contains(port) || is_stale(incoming[port].1, now)
}

/// The first available port from `port` on, wrapping around, looking at
/// `remaining` more ports after it.
pub open spec fn probe_port<RD>(
    incoming: Map<u16, (RD, u64)>,
    port: u16,
    now: u64,
    remaining: nat,
) -> u16
    decreases remaining,
{
    if port_available(incoming, port, now) || remaining == 0 {
        port
    } else {
        probe_port(incoming, next_port(port), now, (remaining - 1) as nat)
    }
}

/// The port mappings of a router: from each key to its external port, and
/// from each external port to its key and the time it was last used.
pub struct Router<RD> {
    outgoing: Vec<(RD, u16)>,
    incoming: Vec<(u16, (RD, u64))>,
}

/// The state of a router as maps.
#[verifier::reject_recursive_types(RD)]
pub struct RouterView<RD> {
    pub outgoing: Map<RD, u16>,
    pub incoming: Map<u16, (RD, u64)>,
}

/// What a packet arriving at external `port` meets in a router in state
/// `v` at `now`: the internal address it goes to, if the port is mapped and
/// the mapping has not expired, and the state after. An expired mapping is
/// removed; a live one is marked used.
pub open spec fn spec_router_inbound<RD: RouterDependence>(
    v: RouterView<RD>,
    port: u16,
    now: u64,
) -> (Option<SocketAddress>, RouterView<RD>) {
    if !v.incoming.dom().contains(port) {
        (None, v)
    } else {
        let (key, last_used) = v.incoming[port];
        if is_stale(last_used, now) {
            (
                None,
                RouterView { outgoing: v.outgoing.remove(key), incoming: v.incoming.remove(port) },
            )
        } else {
            (
                Some(key.spec_internal()),
                RouterView { outgoing: v.outgoing, incoming: v.incoming.insert(port, (key, now)) },
            )
        }
    }
}

/// The external port a router in state `v` gives a packet from `src` to
/// `dst` at `now`, and the state after: the port of its key if it has one,
/// else the first available port from `random_port` on, which becomes the
/// key's port. Either way the port is marked used by the key.
pub open spec fn spec_router_outbound<RD: RouterDependence>(
    v: RouterView<RD>,
    src: SocketAddress,
    dst: SocketAddress,
    now: u64,
    random_port: u16,
) -> (u16, RouterView<RD>) {
    let key = RD::spec_from_pair(src, dst);
    if v.outgoing.dom().contains(key) {
        let port = v.outgoing[key];
        (port, RouterView { outgoing: v.outgoing, incoming: v.incoming.insert(port, (key, now)) })
    } else {
        let port = probe_port(v.incoming, random_port, now, 0xffff);
        (
            port,
            RouterView {
                outgoing: v.outgoing.insert(key, port),
                incoming: v.incoming.insert(port, (key, now)),
            },
        )
    }
}

/// Whether the router has to pick a new port for a packet from `src` to
/// `dst`.
pub open spec fn spec_router_needs_port<RD: RouterDependence>(
    v: RouterView<RD>,
    src: SocketAddress,
    dst: SocketAddress,
) -> bool {
    !v.outgoing.dom().contains(RD::spec_from_pair(src, dst))
}

/// Whether some port can be handed out at `now`.
pub open spec fn spec_has_free_port<RD>(v: RouterView<RD>, now: u64) -> bool {
    exists|q: u16| port_available(v.incoming, q, now)
}

/// Probing from `start` reaches every port, so when one is available the
/// probe ends at an available one.
proof fn lemma_probe_finds<RD>(
    incoming: Map<u16, (RD, u64)>,
    start: u16,
    now: u64,
    remaining: nat,
    q: u16,
)
    requires
        port_available(incoming, q, now),
        remaining <= 0xffff,
        (q - start + 0x10000) % 0x10000 <= remaining,
    ensures
        port_available(incoming, probe_port(incoming, start, now, remaining), now),
    decreases remaining,
{
    if !port_available(incoming, start, now) && remaining > 0 {
        assert(start != q);
        lemma_probe_finds(incoming, next_port(start), now, (remaining - 1) as nat, q);
    }
}

impl<RD> View for Router<RD> {
    type V = RouterView<RD>;

    closed spec fn view(&self) -> RouterView<RD> {
        RouterView { outgoing: to_map(self.outgoing@), incoming: to_map(self.incoming@) }
    }
}

impl<RD> Router<RD> {
    #[verifier::type_invariant]
    closed spec fn inv(self) -> bool {
        &&& keys_distinct(self.outgoing@)
        &&& keys_distinct(self.incoming@)
    }
}

impl<RD: RouterDependence> Router<RD> {
    /// A router with no mappings.
    pub fn new() -> (r: Self)
        ensures
            r@.outgoing == Map::<RD, u16>::empty(),
            r@.incoming == Map::<u16, (RD, u64)>::empty(),
    {
        Router { outgoing: Vec::new(), incoming: Vec::new() }
    }

    /// The internal address a packet arriving at external `port` goes to at
    /// `now`, if the port is mapped and the mapping has not expired; an
    /// expired mapping is removed, a live one is marked used.
    pub fn external_port_to_internal_addr(
        &mut self,
        port: u16,
        _dst: SocketAddress,
        now: u64,
    ) -> (r: Option<SocketAddress>)
        ensures
            (r, final(self)@) == spec_router_inbound(old(self)@, port, now),
    {
        proof {
            use_type_invariant(&*self);
        }
        let mut outgoing: Vec<(RD, u16)> = Vec::new();
        let mut incoming: Vec<(u16, (RD, u64))> = Vec::new();
        std::mem::swap(&mut outgoing, &mut self.outgoing);
        std::mem::swap(&mut incoming, &mut self.incoming);
        let r = match assoc::find(&incoming, &port) {
            None => None,
            Some(j) => {
                let key = incoming[j].1.0;
                let last_used = incoming[j].1.1;
                if stale(last_used, now) {
                    assoc::remove(&mut outgoing, &key);
                    assoc::remove(&mut incoming, &port);
                    None
                } else {
                    assoc::insert(&mut incoming, port, (key, now));
                    Some(key.internal())
                }
            },
        };
        self.outgoing = outgoing;
        self.incoming = incoming;
        r
    }

    /// Whether a packet from `src` to `dst` needs a new port.
    pub fn needs_port(&self, src: SocketAddress, dst: SocketAddress) -> (b: bool)
        ensures
            b == spec_router_needs_port(self@, src, dst),
    {
        proof {
            use_type_invariant(self);
        }
        let key = RD::from_pair(src, dst);
        assoc::find(&self.outgoing, &key).is_none()
    }

    /// Whether some port can be handed out at `now`.
    pub fn has_free_port(&self, now: u64) -> (b: bool)
        ensures
            b == spec_has_free_port(self@, now),
    {
        proof {
            use_type_invariant(self);
            lemma_to_map(self.incoming@);
        }
        if self.incoming.len() < 0x10000 {
            proof {
                lemma_missing_port(to_map(self.incoming@));
                let q = choose|q: u16| !to_map(self.incoming@).dom().contains(q);
                assert(port_available(self@.incoming, q, now));
            }
            return true;
        }
        let mut i: usize = 0;
        while i < self.incoming.len()
            invariant
                i <= self.incoming@.len(),
                keys_distinct(self.incoming@),
                forall|j: int| 0 <= j < i ==> !is_stale(#[trigger] self.incoming@[j].1.1, now),
            decreases self.incoming@.len() - i,
        {
            if stale(self.incoming[i].1.1, now) {
                proof {
                    lemma_to_map(self.incoming@);
                    let q = self.incoming@[i as int].0;
                    assert(to_map(self.incoming@)[self.incoming@[i as int].0]
                        == self.incoming@[i as int].1);
                    assert(port_available(self@.incoming, q, now));
                }
                return true;
            }
            i = i + 1;
        }
        proof {
            lemma_to_map(self.incoming@);
            lemma_all_ports(to_map(self.incoming@));
            assert forall|q: u16| !port_available(self@.incoming, q, now) by {
                assert(to_map(self.incoming@).dom().contains(q));
                let j = choose|j: int| 0 <= j < self.incoming@.len() && self.incoming@[j].0 == q;
                assert(to_map(self.incoming@)[self.incoming@[j].0] == self.incoming@[j].1);
            }
        }
        false
    }

    /// The external port for a packet from `src` to `dst` at `now`: the
    /// port of its key if it has one, else the first available port from
    /// `random_port` on, which becomes the key's port; the port is marked
    /// used by the key.
    pub fn internal_addr_to_external_port(
        &mut self,
        src: SocketAddress,
        dst: SocketAddress,
        now: u64,
        random_port: u16,
    ) -> (port: u16)
        requires
            spec_router_needs_port(old(self)@, src, dst) ==> random_port != 0
                && spec_has_free_port(old(self)@, now),
        ensures
            (port, final(self)@) == spec_router_outbound(old(self)@, src, dst, now, random_port),
            port_available(old(self)@.incoming, port, now) || !spec_router_needs_port(
                old(self)@,
                src,
                dst,
            ),
    {
        proof {
            use_type_invariant(&*self);
        }
        let mut outgoing: Vec<(RD, u16)> = Vec::new();
        let mut incoming: Vec<(u16, (RD, u64))> = Vec::new();
        std::mem::swap(&mut outgoing, &mut self.outgoing);
        std::mem::swap(&mut incoming, &mut self.incoming);
        let ghost old_incoming = to_map(incoming@);
        let addr = RD::from_pair(src, dst);
        let port = match assoc::find(&outgoing, &addr) {
            Some(i) => outgoing[i].1,
            None => {
                let mut port: u16 = random_port;
                let wrapped_around_addr: u16 = random_port - 1;
                let ghost mut steps: int = 0;
                proof {
                    let q = choose|q: u16| port_available(old_incoming, q, now);
                    lemma_probe_finds(old_incoming, random_port, now, 0xffff, q);
                }
                loop
                    invariant_except_break
                        0 <= steps <= 0xffff,
                        port == (random_port + steps) % 0x10000,
                        wrapped_around_addr == random_port - 1,
                        keys_distinct(incoming@),
                        to_map(incoming@) == old_incoming,
                        probe_port(old_incoming, random_port, now, 0xffff) == probe_port(
                            old_incoming,
                            port,
                            now,
                            (0xffff - steps) as nat,
                        ),
                        port_available(
                            old_incoming,
                            probe_port(old_incoming, random_port, now, 0xffff),
                            now,
                        ),
                    ensures
                        keys_distinct(incoming@),
                        port == probe_port(old_incoming, random_port, now, 0xffff),
                        port_available(old_incoming, port, now),
                        to_map(incoming@) == old_incoming || to_map(incoming@)
                            == old_incoming.remove(port),
                    decreases 0xffff - steps,
                {
                    match assoc::find(&incoming, &port) {
                        None => {
                            break ;
                        },
                        Some(j) => {
                            if stale(incoming[j].1.1, now) {
                                assoc::remove(&mut incoming, &port);
                                break ;
                            }
                            if port == wrapped_around_addr {
                                proof {
                                    assert(steps == 0xffff);
                                }
                                unreached()
                            }
                            port = port.wrapping_add(1);
                            proof {
                                steps = steps + 1;
                            }
                        },
                    }
                }
                assoc::insert(&mut outgoing, addr, port);
                port
            },
        };
        assoc::insert(&mut incoming, port, (addr, now));
        proof {
            assert(to_map(incoming@) =~= old_incoming.insert(port, (addr, now)));
        }
        self.outgoing = outgoing;
        self.incoming = incoming;
        port
    }
}

/// A map from ports that lacks a port has fewer than 65536 keys' worth of
/// room: when it has fewer keys, some port is missing.
proof fn lemma_missing_port<V>(m: Map<u16, V>)
    requires
        m.dom().finite(),
        m.dom().len() < 0x10000,
    ensures
        exists|q: u16| !m.dom().contains(q),
{
    if forall|q: u16| m.dom().contains(q) {
        lemma_full_ports(m);
    }
}

/// A map with 65536 keys or more has every port as a key.
proof fn lemma_all_ports<V>(m: Map<u16, V>)
    requires
        m.dom().finite(),
        m.dom().len() >= 0x10000,
    ensures
        forall|q: u16| m.dom().contains(q),
{
    assert forall|q: u16| m.dom().contains(q) by {
        if !m.dom().contains(q) {
            let ints = vstd::set_lib::set_int_range(0, 0x10000);
            vstd::set_lib::lemma_int_range(0, 0x10000);
            let f = |i: int| i as u16;
            let ports = ints.map(f);
            assert forall|a: int, b: int| ints.contains(a) && ints.contains(b) && #[trigger] f(a)
                == #[trigger] f(b) implies a == b by {}
            vstd::set_lib::lemma_map_size(ints, ports, f);
            assert forall|x: u16| m.dom().contains(x) implies ports.remove(q).contains(x) by {
                assert(ints.contains(x as int));
                assert(f(x as int) == x);
            }
            assert(ports.contains(q)) by {
                assert(ints.contains(q as int));
                assert(f(q as int) == q);
            }
            vstd::set_lib::lemma_len_subset(m.dom(), ports.remove(q));
        }
    }
}

/// A map that has every port as a key has 65536 keys.
proof fn lemma_full_ports<V>(m: Map<u16, V>)
    requires
        m.dom().finite(),
    ensures
        (forall|q: u16| m.dom().contains(q)) ==> m.dom().len() >= 0x10000,
{
    if forall|q: u16| m.dom().contains(q) {
        let ints = vstd::set_lib::set_int_range(0, 0x10000);
        vstd::set_lib::lemma_int_range(0, 0x10000);
        let f = |i: int| i as u16;
        let ports = ints.map(f);
        assert forall|a: int, b: int| ints.contains(a) && ints.contains(b) && #[trigger] f(a)
            == #[trigger] f(b) implies a == b by {}
        vstd::set_lib::lemma_map_size(ints, ports, f);
        assert forall|q: u16| ports.contains(q) implies m.dom().contains(q) by {}
        vstd::set_lib::lemma_len_subset(ports, m.dom());
    }
}

/// The holes of a firewall: from each (internal address, remote side) to
/// the time the hole was last opened.
pub struct Firewall<D> {
    holes: Vec<(HoleKey<D>, u64)>,
}

impl<D> View for Firewall<D> {
    type V = Map<HoleKey<D>, u64>;

    closed spec fn view(&self) -> Map<HoleKey<D>, u64> {
        to_map(self.holes@)
    }
}

/// Whether a firewall with holes `m` lets a packet from `dst` through to
/// `src` at `now`, and the holes after: an expired hole is closed.
pub open spec fn spec_firewall_check<D: FirewallDependence>(
    m: Map<HoleKey<D>, u64>,
    src: SocketAddress,
    dst: SocketAddress,
    now: u64,
) -> (bool, Map<HoleKey<D>, u64>) {
    let key = HoleKey(src, D::spec_from_addr(dst));
    if !m.dom().contains(key) {
        (false, m)
    } else if is_stale(m[key], now) {
        (false, m.remove(key))
    } else {
        (true, m)
    }
}

impl<D> Firewall<D> {
    #[verifier::type_invariant]
    closed spec fn inv(self) -> bool {
        keys_distinct(self.holes@)
    }
}

impl<D: FirewallDependence> Firewall<D> {
    /// A firewall with no holes.
    pub fn new() -> (f: Self)
        ensures
            f@ == Map::<HoleKey<D>, u64>::empty(),
    {
        Firewall { holes: Vec::new() }
    }

    /// Whether a packet from `dst` may reach `src` at `now`: a hole was
    /// opened for them and has not expired. An expired hole is closed.
    pub fn check(&mut self, src: SocketAddress, dst: SocketAddress, now: u64) -> (b: bool)
        ensures
            (b, final(self)@) == spec_firewall_check(old(self)@, src, dst, now),
    {
        proof {
            use_type_invariant(&*self);
        }
        let mut holes: Vec<(HoleKey<D>, u64)> = Vec::new();
        std::mem::swap(&mut holes, &mut self.holes);
        let key = HoleKey(src, D::from_addr(dst));
        let b = match assoc::find(&holes, &key) {
            None => false,
            Some(i) => {
                if stale(holes[i].1, now) {
                    assoc::remove(&mut holes, &key);
                    false
                } else {
                    true
                }
            },
        };
        self.holes = holes;
        b
    }

    /// Opens (or refreshes) the hole for packets from `dst` to `src`.
    pub fn insert(&mut self, src: SocketAddress, dst: SocketAddress, now: u64)
        ensures
            final(self)@ == old(self)@.insert(HoleKey(src, D::spec_from_addr(dst)), now),
    {
        proof {
            use_type_invariant(&*self);
        }
        let mut holes: Vec<(HoleKey<D>, u64)> = Vec::new();
        std::mem::swap(&mut holes, &mut self.holes);
        assoc::insert(&mut holes, HoleKey(src, D::from_addr(dst)), now);
        self.holes = holes;
    }
}

/// A translator: a router's port mappings behind a firewall.
pub struct GenericNat<RD, FD> {
    router: Router<RD>,
    firewall: Firewall<FD>,
}

/// The state of a translator.
#[verifier::reject_recursive_types(RD)]
#[verifier::reject_recursive_types(FD)]
pub struct NatView<RD, FD> {
    pub router: RouterView<RD>,
    pub firewall: Map<HoleKey<FD>, u64>,
}

impl<RD, FD> View for GenericNat<RD, FD> {
    type V = NatView<RD, FD>;

    closed spec fn view(&self) -> NatView<RD, FD> {
        NatView { router: self.router@, firewall: self.firewall@ }
    }
}

/// Where a packet arriving from `dst` at external `port` goes, and the
/// state after: the router's internal address, if the firewall has a hole
/// for it and `dst`. The router keeps time by the simulation's clock, `now`;
/// the firewall by its own, `fw_now`.
pub open spec fn spec_nat_inbound<RD: RouterDependence, FD: FirewallDependence>(
    v: NatView<RD, FD>,
    port: u16,
    dst: SocketAddress,
    now: u64,
    fw_now: u64,
) -> (Option<SocketAddress>, NatView<RD, FD>) {
    let (r, rv) = spec_router_inbound(v.router, port, now);
    match r {
        None => (None, NatView { router: rv, firewall: v.firewall }),
        Some(out) => {
            let (ok, fw) = spec_firewall_check(v.firewall, out, dst, fw_now);
            (
                if ok {
                    Some(out)
                } else {
                    None
                },
                NatView { router: rv, firewall: fw },
            )
        },
    }
}

/// The external port of a packet from `src` to `dst`, and the state after:
/// a hole opens for replies from `dst`, stamped with the firewall's clock
/// `fw_now`, and the router gives the port at the simulation's time `now`.
pub open spec fn spec_nat_outbound<RD: RouterDependence, FD: FirewallDependence>(
    v: NatView<RD, FD>,
    src: SocketAddress,
    dst: SocketAddress,
    now: u64,
    fw_now: u64,
    random_port: u16,
) -> (u16, NatView<RD, FD>) {
    let (port, rv) = spec_router_outbound(v.router, src, dst, now, random_port);
    (
        port,
        NatView {
            router: rv,
            firewall: v.firewall.insert(HoleKey(src, FD::spec_from_addr(dst)), fw_now),
        },
    )
}

/// Where a translator sends a packet.
pub enum Forward {
    /// Nowhere: the packet is malformed or refused.
    Drop,
    /// Into the internal network, as these bytes.
    Internal(Vec<u8>),
    /// Out to the external network, as these bytes.
    External(Vec<u8>),
}

/// Where a translator sends a packet, with the bytes as values.
pub enum ForwardView {
    Drop,
    Internal(Seq<u8>),
    External(Seq<u8>),
}

impl View for Forward {
    type V = ForwardView;

    open spec fn view(&self) -> ForwardView {
        match self {
            Forward::Drop => ForwardView::Drop,
            Forward::Internal(b) => ForwardView::Internal(b@),
            Forward::External(b) => ForwardView::External(b@),
        }
    }
}

/// The translator's own address of the packet's IP version.
pub open spec fn our_addr(h: crate::net::udp::Header, our_v4: [u8; 4], our_v6: [u8; 16]) -> IpAddress {
    if h.ip_header is V4 {
        IpAddress::V4(our_v4)
    } else {
        IpAddress::V6(our_v6)
    }
}

/// Whether translating `b` draws a new external port: it is a packet from
/// the internal network whose flow has no port yet.
pub open spec fn spec_nat_needs_port<RD: RouterDependence, FD: FirewallDependence>(
    v: NatView<RD, FD>,
    b: Seq<u8>,
    our_v4: [u8; 4],
    our_v6: [u8; 16],
) -> bool {
    match spec_parse_packet(b) {
        Err(_) => false,
        Ok((h, data)) => {
            let (src, dst) = h.spec_socket_addrs();
            dst.ip != our_addr(h, our_v4, our_v6) && spec_router_needs_port(v.router, src, dst)
        },
    }
}

/// What a translator in state `v` with addresses `our_v4` and `our_v6`
/// does with the packet `b` at the simulation's time `now` and the
/// firewall's clock reading `fw_now`, and its state after. A packet that
/// cannot be read is dropped. One addressed to the translator goes into the
/// internal network, readdressed to the internal address its port maps to,
/// when the mapping and the firewall let it through and that address is of
/// the packet's IP version; else it is dropped. Any other packet leaves
/// from the translator's address, at the port its flow maps to.
pub open spec fn spec_translate<RD: RouterDependence, FD: FirewallDependence>(
    v: NatView<RD, FD>,
    b: Seq<u8>,
    our_v4: [u8; 4],
    our_v6: [u8; 16],
    now: u64,
    fw_now: u64,
    random_port: u16,
) -> (ForwardView, NatView<RD, FD>) {
    match spec_parse_packet(b) {
        Err(_) => (ForwardView::Drop, v),
        Ok((h, data)) => {
            let (src, dst) = h.spec_socket_addrs();
            let our = our_addr(h, our_v4, our_v6);
            if dst.ip == our {
                let (r, v2) = spec_nat_inbound(v, dst.port, src, now, fw_now);
                match r {
                    None => (ForwardView::Drop, v2),
                    Some(internal) => if internal.ip.spec_is_v4() == dst.ip.spec_is_v4() {
                        (
                            ForwardView::Internal(
                                packet_bytes(h.spec_with_addrs(src, internal), data),
                            ),
                            v2,
                        )
                    } else {
                        (ForwardView::Drop, v2)
                    },
                }
            } else {
                let (port, v2) = spec_nat_outbound(v, src, dst, now, fw_now, random_port);
                (
                    ForwardView::External(
                        packet_bytes(
                            h.spec_with_addrs(SocketAddress { ip: our, port: port }, dst),
                            data,
                        ),
                    ),
                    v2,
                )
            }
        },
    }
}

impl<RD: RouterDependence, FD: FirewallDependence> GenericNat<RD, FD> {
    /// A translator with no mappings and no holes.
    pub fn new() -> (n: Self)
        ensures
            n@.router.outgoing == Map::<RD, u16>::empty(),
            n@.router.incoming == Map::<u16, (RD, u64)>::empty(),
            n@.firewall == Map::<HoleKey<FD>, u64>::empty(),
    {
        GenericNat { router: Router::new(), firewall: Firewall::new() }
    }

    /// The internal address a packet from `dst` arriving at external
    /// `port` goes to at the simulation's time `now`, if the port is mapped
    /// and the firewall has a hole for it at its own clock's `fw_now`.
    pub fn external_port_to_internal_addr(
        &mut self,
        port: u16,
        dst: SocketAddress,
        now: u64,
        fw_now: u64,
    ) -> (r: Option<SocketAddress>)
        ensures
            (r, final(self)@) == spec_nat_inbound(old(self)@, port, dst, now, fw_now),
    {
        let out = match self.router.external_port_to_internal_addr(port, dst, now) {
            Some(a) => a,
            None => return None,
        };
        if self.firewall.check(out, dst, fw_now) {
            Some(out)
        } else {
            None
        }
    }

    /// The external port of a packet from `src` to `dst` at the
    /// simulation's time `now`; opens a hole for replies from `dst`, stamped
    /// with the firewall's clock `fw_now`.
    pub fn internal_addr_to_external_port(
        &mut self,
        src: SocketAddress,
        dst: SocketAddress,
        now: u64,
        fw_now: u64,
        random_port: u16,
    ) -> (port: u16)
        requires
            spec_router_needs_port(old(self)@.router, src, dst) ==> random_port != 0
                && spec_has_free_port(old(self)@.router, now),
        ensures
            (port, final(self)@) == spec_nat_outbound(old(self)@, src, dst, now, fw_now, random_port),
    {
        self.firewall.insert(src, dst, fw_now);
        self.router.internal_addr_to_external_port(src, dst, now, random_port)
    }

    /// Whether some external port can be handed out at `now`.
    pub fn has_free_port(&self, now: u64) -> (b: bool)
        ensures
            b == spec_has_free_port(self@.router, now),
    {
        self.router.has_free_port(now)
    }

    /// Whether translating `bytes` draws a new external port.
    pub fn needs_port(&self, bytes: &[u8], our_v4: [u8; 4], our_v6: [u8; 16]) -> (b: bool)
        requires
            packet_parse_defined(bytes@),
        ensures
            b == spec_nat_needs_port(self@, bytes@, our_v4, our_v6),
    {
        let packet = match Packet::try_from_bytes(bytes) {
            Ok(p) => p,
            Err(_) => return false,
        };
        let (src, dst) = packet.header.get_socket_addrs();
        let our = if packet.header.ip_header.is_v4() {
            IpAddress::V4(our_v4)
        } else {
            IpAddress::V6(our_v6)
        };
        !our.same_as(&dst.ip) && self.router.needs_port(src, dst)
    }

    /// Decides where the packet `bytes` goes, rewriting its addresses and
    /// updating the mappings and holes; see `spec_translate`.
    pub fn translate(
        &mut self,
        bytes: &[u8],
        our_v4: [u8; 4],
        our_v6: [u8; 16],
        now: u64,
        fw_now: u64,
        random_port: u16,
    ) -> (f: Forward)
        requires
            packet_parse_defined(bytes@),
            spec_nat_needs_port(old(self)@, bytes@, our_v4, our_v6) ==> random_port != 0
                && spec_has_free_port(old(self)@.router, now),
        ensures
            (f@, final(self)@) == spec_translate(
                old(self)@,
                bytes@,
                our_v4,
                our_v6,
                now,
                fw_now,
                random_port,
            ),
    {
        let mut packet = match Packet::try_from_bytes(bytes) {
            Ok(p) => p,
            Err(_) => return Forward::Drop,
        };
        let (src, dst) = packet.header.get_socket_addrs();
        let our = if packet.header.ip_header.is_v4() {
            IpAddress::V4(our_v4)
        } else {
            IpAddress::V6(our_v6)
        };
        if our.same_as(&dst.ip) {
            let internal = match self.external_port_to_internal_addr(dst.port, src, now, fw_now) {
                Some(a) => a,
                None => return Forward::Drop,
            };
            if internal.ip.is_v4() != dst.ip.is_v4() {
                return Forward::Drop;
            }
            packet.set_dst_addr(internal);
            let mut out: Vec<u8> = Vec::new();
            packet.write_into_buf(&mut out);
            Forward::Internal(out)
        } else {
            let port = self.internal_addr_to_external_port(src, dst, now, fw_now, random_port);
            packet.set_src_addr(SocketAddress::new(our, port));
            let mut out: Vec<u8> = Vec::new();
            packet.write_into_buf(&mut out);
            Forward::External(out)
        }
    }
}

/// A symmetric translator: a port for each (internal source, destination)
/// and firewall holes to one remote socket address each.
pub type Symmetric = GenericNat<EdnNatMapping, EsdFirewall>;

/// A reply to an outgoing packet, from the packet's destination to the port
/// it left from, reaches the sender while the mapping is live.
pub proof fn lemma_symmetric_reply_reaches_sender(
    v: NatView<EdnNatMapping, EsdFirewall>,
    src: SocketAddress,
    dst: SocketAddress,
    now: u64,
    fw_now: u64,
    random_port: u16,
    later: u64,
    fw_later: u64,
)
    requires
        !is_stale(now, later),
        !is_stale(fw_now, fw_later),
    ensures
        ({
            let (port, v1) = spec_nat_outbound(v, src, dst, now, fw_now, random_port);
            spec_nat_inbound(v1, port, dst, later, fw_later).0 == Some(src)
        }),
{
}

/// A packet to the port of an outgoing flow from any other remote address
/// is refused, unless a hole was opened for that remote before.
pub proof fn lemma_symmetric_other_remote_refused(
    v: NatView<EdnNatMapping, EsdFirewall>,
    src: SocketAddress,
    dst: SocketAddress,
    other: SocketAddress,
    now: u64,
    fw_now: u64,
    random_port: u16,
    later: u64,
    fw_later: u64,
)
    requires
        other != dst,
        !v.firewall.dom().contains(HoleKey(src, EsdFirewall(other))),
    ensures
        ({
            let (port, v1) = spec_nat_outbound(v, src, dst, now, fw_now, random_port);
            spec_nat_inbound(v1, port, other, later, fw_later).0 is None
        }),
{
    let (port, v1) = spec_nat_outbound(v, src, dst, now, fw_now, random_port);
    let (r, rv) = spec_router_inbound(v1.router, port, later);
    if r is Some {
        assert(!v1.firewall.dom().contains(HoleKey(r->0, EsdFirewall(other))));
    }
}

/// Two flows that differ in source or destination get different ports
/// from a fresh symmetric translator while the first mapping is live.
pub proof fn lemma_symmetric_flows_get_different_ports(
    src1: SocketAddress,
    dst1: SocketAddress,
    src2: SocketAddress,
    dst2: SocketAddress,
    now1: u64,
    now2: u64,
    fw_now1: u64,
    fw_now2: u64,
    random1: u16,
    random2: u16,
)
    requires
        src1 != src2 || dst1 != dst2,
        now1 <= now2,
        !is_stale(now1, now2),
    ensures
        ({
            let v0 = NatView::<EdnNatMapping, EsdFirewall> {
                router: RouterView { outgoing: Map::empty(), incoming: Map::empty() },
                firewall: Map::empty(),
            };
            let (p1, v1) = spec_nat_outbound(v0, src1, dst1, now1, fw_now1, random1);
            let (p2, v2) = spec_nat_outbound(v1, src2, dst2, now2, fw_now2, random2);
            p1 != p2
        }),
{
    let v0 = NatView::<EdnNatMapping, EsdFirewall> {
        router: RouterView { outgoing: Map::empty(), incoming: Map::empty() },
        firewall: Map::empty(),
    };
    let (p1, v1) = spec_nat_outbound(v0, src1, dst1, now1, fw_now1, random1);
    let inc = v1.router.incoming;
    assert(!port_available(inc, p1, now2));
    let q = if p1 == 0 {
        1u16
    } else {
        0u16
    };
    assert(!inc.dom().contains(q));
    lemma_probe_finds(inc, random2, now2, 0xffff, q);
    assert(!v1.router.outgoing.dom().contains(EdnNatMapping(src2, dst2)));
}

} // verus!
