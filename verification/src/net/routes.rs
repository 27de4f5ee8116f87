//! Where a simulated network delivers a packet: the address ranges bound to
//! machines, looked up by longest prefix, and the partitions that block
//! traffic between two addresses.
use vstd::prelude::*;

use crate::assoc;
use crate::assoc::{keys_distinct, lemma_to_map, to_map};
use crate::kademlia::id::{be_value, bit_at};
use vstd::arithmetic::power2::pow2;
use crate::net::addr::IpAddress;
use crate::net::error::ParseError;
use crate::net::ip;
use crate::net::ip::header_parse_defined;
use crate::sim::MachineId;

verus! {

/// A range of IP addresses: the addresses whose first `len` bits are those
/// of `addr`.
#[derive(Clone, Copy, Debug, PartialEq, Eq, Hash)]
pub struct Prefix {
    pub addr: IpAddress,
    pub len: u8,
}

/// The octets of an address.
pub open spec fn octets(a: IpAddress) -> Seq<u8> {
    match a {
        IpAddress::V4(o) => o@,
        IpAddress::V6(o) => o@,
    }
}

/// Whether two addresses are of the same IP version.
pub open spec fn same_version(a: IpAddress, b: IpAddress) -> bool {
    a.spec_is_v4() == b.spec_is_v4()
}

impl Prefix {
    /// A prefix no longer than its address, with no bit set past it.
    pub open spec fn spec_valid(self) -> bool {
        &&& self.len <= 8 * octets(self.addr).len()
        &&& forall|j: int|
            self.len <= j < 8 * octets(self.addr).len() ==> !#[trigger] bit_at(octets(self.addr), j)
    }

    /// Whether `ip` is in the range.
    pub open spec fn spec_contains(self, ip: IpAddress) -> bool {
        &&& same_version(self.addr, ip)
        &&& forall|j: int|
            0 <= j < self.len ==> #[trigger] bit_at(octets(self.addr), j) == bit_at(octets(ip), j)
    }

    /// Whether the prefix is one `ip_network` accepts: no longer than its
    /// address, with no bit set past it.
    pub fn is_valid(&self) -> (b: bool)
        ensures
            b == self.spec_valid(),
    {
        let bytes: &[u8] = match &self.addr {
            IpAddress::V4(o) => o.as_slice(),
            IpAddress::V6(o) => o.as_slice(),
        };
        if self.len as usize > 8 * bytes.len() {
            return false;
        }
        let mut j: usize = self.len as usize;
        while j < 8 * bytes.len()
            invariant
                bytes@ == octets(self.addr),
                bytes@.len() <= 16,
                self.len <= j <= 8 * bytes@.len(),
                forall|k: int| self.len <= k < j ==> !#[trigger] bit_at(octets(self.addr), k),
            decreases 8 * bytes@.len() - j,
        {
            if crate::kademlia::id::bit_of_array::<16>(bytes, j) {
                return false;
            }
            j = j + 1;
        }
        true
    }
}

/// A table of address ranges, each bound to a machine.
#[verifier::external_type_specification]
#[verifier::external_body]
#[verifier::reject_recursive_types(T)]
pub struct ExIpNetworkTable<T>(ip_network_table::IpNetworkTable<T>);

/// A table of the ranges bound to machines.
pub type MachineTable = ip_network_table::IpNetworkTable<MachineId>;

/// The ranges of a table and the machine each is bound to.
pub uninterp spec fn table_entries(t: MachineTable) -> Map<Prefix, MachineId>;

/// An empty table, made with `IpNetworkTable::new`.
#[verifier::external_body]
fn table_new() -> (table: MachineTable)
    ensures
        table_entries(table).dom() == Set::<Prefix>::empty(),
{
    ip_network_table::IpNetworkTable::new()
}

/// Binds `prefix` to `id` with `IpNetworkTable::insert`, which replaces an
/// earlier binding of the same range. The range is built with
/// `Ipv4Network::new` or `Ipv6Network::new`, which accept it because it is
/// valid.
#[verifier::external_body]
fn table_insert(t: &mut MachineTable, prefix: Prefix, id: MachineId)
    requires
        prefix.spec_valid(),
    ensures
        table_entries(*final(t)) == table_entries(*old(t)).insert(prefix, id),
{
    match prefix.addr {
        IpAddress::V4(o) => {
            t.insert(ip_network::Ipv4Network::new(o.into(), prefix.len).unwrap(), id);
        },
        IpAddress::V6(o) => {
            t.insert(ip_network::Ipv6Network::new(o.into(), prefix.len).unwrap(), id);
        },
    }
}

/// Unbinds `prefix` with `IpNetworkTable::remove`.
#[verifier::external_body]
fn table_remove(t: &mut MachineTable, prefix: Prefix)
    requires
        prefix.spec_valid(),
    ensures
        table_entries(*final(t)) == table_entries(*old(t)).remove(prefix),
{
    match prefix.addr {
        IpAddress::V4(o) => {
            t.remove(ip_network::Ipv4Network::new(o.into(), prefix.len).unwrap());
        },
        IpAddress::V6(o) => {
            t.remove(ip_network::Ipv6Network::new(o.into(), prefix.len).unwrap());
        },
    }
}

/// The most specific range that holds `ip`, with its machine, found with
/// `IpNetworkTable::longest_match`: a bound range holding `ip` that no
/// longer bound range holding `ip` exceeds; none when no range holds it.
#[verifier::external_body]
fn table_longest_match(t: &MachineTable, ip: IpAddress) -> (r: Option<
    (Prefix, MachineId),
>)
    ensures
        match r {
            Some((p, id)) => {
                &&& table_entries(*t).dom().contains(p)
                &&& table_entries(*t)[p] == id
                &&& p.spec_contains(ip)
                &&& forall|q: Prefix|
                    table_entries(*t).dom().contains(q) && q.spec_contains(ip) ==> q.len <= p.len
            },
            None => forall|q: Prefix|
                table_entries(*t).dom().contains(q) ==> !q.spec_contains(ip),
        },
{
    match ip {
        IpAddress::V4(o) => t.longest_match_ipv4(o.into()).map(
            |(n, id)| (Prefix { addr: IpAddress::V4(n.network_address().octets()), len: n.netmask() }, *id),
        ),
        IpAddress::V6(o) => t.longest_match_ipv6(o.into()).map(
            |(n, id)| (Prefix { addr: IpAddress::V6(n.network_address().octets()), len: n.netmask() }, *id),
        ),
    }
}

/// An iterator over the subnetworks of an IPv4 network.
#[verifier::external_type_specification]
#[verifier::external_body]
pub struct ExIpv4NetworkIterator(ip_network::iterator::Ipv4NetworkIterator);

/// An iterator over the subnetworks of an IPv6 network.
#[verifier::external_type_specification]
#[verifier::external_body]
pub struct ExIpv6NetworkIterator(ip_network::iterator::Ipv6NetworkIterator);

/// The single addresses, as numbers, that an IPv4 iterator has yet to
/// give.
pub uninterp spec fn v4_addresses_left(it: ip_network::iterator::Ipv4NetworkIterator) -> Seq<u32>;

/// The single addresses, as numbers, that an IPv6 iterator has yet to
/// give.
pub uninterp spec fn v6_addresses_left(it: ip_network::iterator::Ipv6NetworkIterator) -> Seq<
    u128,
>;

/// The addresses of the range of `o` of length `len`, in order: none when
/// the range is the single address (`len` is the address's width), else
/// each address of the range from its first on.
pub open spec fn range_addresses(o: Seq<u8>, len: nat) -> Seq<nat> {
    if len == 8 * o.len() {
        Seq::empty()
    } else {
        Seq::new(pow2((8 * o.len() - len) as nat), |i: int| (be_value(o) + i) as nat)
    }
}

/// The iterator over the single addresses (`/32`) of the range `o/len`,
/// made with `Ipv4NetworkIterator::new(Ipv4Network::new(o, len), 32)`,
/// which accepts the range because it is valid. Per its source, it gives
/// the addresses from the range's first address up, one by one, and
/// nothing when the range is itself a single address.
#[verifier::external_body]
fn v4_single_addresses(o: [u8; 4], len: u8) -> (it: ip_network::iterator::Ipv4NetworkIterator)
    requires
        (Prefix { addr: IpAddress::V4(o), len }).spec_valid(),
    ensures
        v4_addresses_left(it).map_values(|a: u32| a as nat) == range_addresses(o@, len as nat),
{
    ip_network::iterator::Ipv4NetworkIterator::new(
        ip_network::Ipv4Network::new(o.into(), len).unwrap(),
        32,
    )
}

/// The iterator over the single addresses (`/128`) of the range `o/len`,
/// made with `Ipv6NetworkIterator::new(Ipv6Network::new(o, len), 128)`,
/// which accepts the range because it is valid; it gives the addresses as
/// its IPv4 counterpart does.
#[verifier::external_body]
fn v6_single_addresses(o: [u8; 16], len: u8) -> (it: ip_network::iterator::Ipv6NetworkIterator)
    requires
        (Prefix { addr: IpAddress::V6(o), len }).spec_valid(),
    ensures
        v6_addresses_left(it).map_values(|a: u128| a as nat) == range_addresses(o@, len as nat),
{
    ip_network::iterator::Ipv6NetworkIterator::new(
        ip_network::Ipv6Network::new(o.into(), len).unwrap(),
        128,
    )
}

/// The next address of an IPv4 iterator, with `Iterator::next`, which
/// gives the first address left and drops it, or nothing when none is
/// left.
#[verifier::external_body]
fn v4_next(it: &mut ip_network::iterator::Ipv4NetworkIterator) -> (r: Option<[u8; 4]>)
    ensures
        v4_addresses_left(*old(it)).len() == 0 ==> r is None && v4_addresses_left(*final(it))
            == v4_addresses_left(*old(it)),
        v4_addresses_left(*old(it)).len() > 0 ==> (r matches Some(o) && be_value(o@)
            == v4_addresses_left(*old(it))[0] && v4_addresses_left(*final(it))
            == v4_addresses_left(*old(it)).drop_first()),
{
    match it.next() {
        Some(n) => Some(n.network_address().octets()),
        None => None,
    }
}

/// The next address of an IPv6 iterator, with `Iterator::next`, as
/// `v4_next` does.
#[verifier::external_body]
fn v6_next(it: &mut ip_network::iterator::Ipv6NetworkIterator) -> (r: Option<[u8; 16]>)
    ensures
        v6_addresses_left(*old(it)).len() == 0 ==> r is None && v6_addresses_left(*final(it))
            == v6_addresses_left(*old(it)),
        v6_addresses_left(*old(it)).len() > 0 ==> (r matches Some(o) && be_value(o@)
            == v6_addresses_left(*old(it))[0] && v6_addresses_left(*final(it))
            == v6_addresses_left(*old(it)).drop_first()),
{
    match it.next() {
        Some(n) => Some(n.network_address().octets()),
        None => None,
    }
}

/// The IPv6 address that maps the IPv4 address `o`: `::ffff:` then `o`.
pub open spec fn v6_mapped(o: Seq<u8>) -> Seq<u8> {
    seq![0u8, 0u8, 0u8, 0u8, 0u8, 0u8, 0u8, 0u8, 0u8, 0u8, 0xffu8, 0xffu8] + o
}

/// The addresses a network hands out to the machines added to it, one of
/// each IP version at a time.
pub struct AddressGenerator {
    v4: ip_network::iterator::Ipv4NetworkIterator,
    v6: ip_network::iterator::Ipv6NetworkIterator,
}

/// The addresses a generator has yet to hand out, as numbers.
pub struct AddressGeneratorView {
    pub v4: Seq<nat>,
    pub v6: Seq<nat>,
}

impl View for AddressGenerator {
    type V = AddressGeneratorView;

    closed spec fn view(&self) -> AddressGeneratorView {
        AddressGeneratorView {
            v4: v4_addresses_left(self.v4).map_values(|a: u32| a as nat),
            v6: v6_addresses_left(self.v6).map_values(|a: u128| a as nat),
        }
    }
}

impl AddressGenerator {
    /// Hands out the addresses of the IPv4 range `prefix`, and of the IPv6
    /// range that maps it (as long, counted from the end).
    pub fn new_with_ipv4_prefix(prefix: Prefix) -> (g: Self)
        requires
            prefix.addr is V4,
            prefix.spec_valid(),
        ensures
            g@.v4 == range_addresses(octets(prefix.addr), prefix.len as nat),
            g@.v6 == range_addresses(v6_mapped(octets(prefix.addr)), (prefix.len + 96) as nat),
    {
        let o = match prefix.addr {
            IpAddress::V4(o) => o,
            IpAddress::V6(_) => unreached(),
        };
        let mapped: [u8; 16] = [0, 0, 0, 0, 0, 0, 0, 0, 0, 0, 0xff, 0xff, o[0], o[1], o[2], o[3]];
        proof {
            assert(mapped@ =~= v6_mapped(o@));
            lemma_mapped_valid(o, mapped, prefix.len);
        }
        AddressGenerator {
            v4: v4_single_addresses(o, prefix.len),
            v6: v6_single_addresses(mapped, prefix.len + 96),
        }
    }

    /// Hands out the addresses of 192.168.0.0/16 and ::ffff:192.168.0.0/112.
    pub fn new() -> (g: Self)
        ensures
            g@.v4 == range_addresses(seq![192u8, 168u8, 0u8, 0u8], 16),
            g@.v6 == range_addresses(v6_mapped(seq![192u8, 168u8, 0u8, 0u8]), 112),
    {
        let prefix = Prefix { addr: IpAddress::V4([192, 168, 0, 0]), len: 16 };
        proof {
            assert(prefix.spec_valid()) by {
                let o = octets(prefix.addr);
                assert forall|j: int| 16 <= j < 32 implies !#[trigger] bit_at(o, j) by {
                    let b = o[j / 8];
                    assert(b == 0);
                    let k = (7 - j % 8) as u8;
                    assert((b >> k) & 1u8 == 0u8) by (bit_vector)
                        requires
                            b == 0u8,
                    ;
                }
            }
            assert(octets(prefix.addr) =~= seq![192u8, 168u8, 0u8, 0u8]);
        }
        Self::new_with_ipv4_prefix(prefix)
    }
}

/// The IPv6 range that maps a valid IPv4 range is valid.
proof fn lemma_mapped_valid(o: [u8; 4], m: [u8; 16], len: u8)
    requires
        (Prefix { addr: IpAddress::V4(o), len }).spec_valid(),
        m@ == v6_mapped(o@),
    ensures
        (Prefix { addr: IpAddress::V6(m), len: (len + 96) as u8 }).spec_valid(),
{
    assert forall|j: int| len + 96 <= j < 128 implies !#[trigger] bit_at(m@, j) by {
        assert((j - 96) / 8 == j / 8 - 12);
        assert((j - 96) % 8 == j % 8);
        assert(m@[j / 8] == o@[(j - 96) / 8]);
        assert(!bit_at(octets(IpAddress::V4(o)), j - 96));
    }
}

/// The addresses of a range are its first address plus 0, 1, 2, ... in
/// turn, so no two of them are the same: the machines added to a network
/// get addresses of their own.
pub proof fn lemma_range_addresses_distinct(o: Seq<u8>, len: nat, i: int, j: int)
    requires
        len < 8 * o.len(),
        0 <= i < j < range_addresses(o, len).len(),
    ensures
        range_addresses(o, len)[i] == be_value(o) + i,
        range_addresses(o, len)[i] != range_addresses(o, len)[j],
{
}

/// Why a packet could not be routed.
#[derive(Clone, Copy, Debug, PartialEq, Eq)]
pub enum RouteError {
    /// Its IP header could not be read.
    PacketParse(ParseError),
    /// No machine's range holds its destination.
    HostUnreachable,
}

/// The routing state of a network: the ranges bound to machines, the range
/// each machine was given explicitly, and the blocked (source,
/// destination) pairs.
pub struct Routes {
    bound_ips: MachineTable,
    machine_to_prefix: Vec<(MachineId, Prefix)>,
    partitions: Vec<(IpAddress, IpAddress)>,
}

/// The state of a network's routing, as maps and sets.
pub struct RoutesView {
    pub bound: Map<Prefix, MachineId>,
    pub machine_to_prefix: Map<MachineId, Prefix>,
    pub partitions: Set<(IpAddress, IpAddress)>,
}

impl View for Routes {
    type V = RoutesView;

    closed spec fn view(&self) -> RoutesView {
        RoutesView {
            bound: table_entries(self.bound_ips),
            machine_to_prefix: to_map(self.machine_to_prefix@),
            partitions: self.partitions@.to_set(),
        }
    }
}

/// Where a network in state `v` sends the packet `b`: nowhere (`None`)
/// when its source and destination are partitioned apart, else the machine
/// of the most specific range holding its destination.
pub open spec fn spec_route(v: RoutesView, b: Seq<u8>) -> Result<Option<MachineId>, RouteError> {
    match ip::spec_parse_header(b) {
        Err(e) => Err(RouteError::PacketParse(e)),
        Ok((h, n)) => {
            let (src, dst) = h.spec_ip_addrs();
            if v.partitions.contains((src, dst)) {
                Ok(None)
            } else if exists|q: Prefix| v.bound.dom().contains(q) && q.spec_contains(dst) {
                Ok(Some(v.bound[longest_holding(v.bound, dst)]))
            } else {
                Err(RouteError::HostUnreachable)
            }
        },
    }
}

/// Whether `p` is a bound range holding `ip` that no other bound range
/// holding `ip` is longer than.
pub open spec fn is_longest_holding(bound: Map<Prefix, MachineId>, ip: IpAddress, p: Prefix) -> bool {
    &&& bound.dom().contains(p)
    &&& p.spec_contains(ip)
    &&& forall|q: Prefix| bound.dom().contains(q) && q.spec_contains(ip) ==> q.len <= p.len
}

/// The most specific bound range holding `ip`.
pub open spec fn longest_holding(bound: Map<Prefix, MachineId>, ip: IpAddress) -> Prefix {
    choose|p: Prefix| is_longest_holding(bound, ip, p)
}

/// The longest bound ranges holding one address are the same range: both
/// bit strings agree with the address up to their common length.
proof fn lemma_longest_unique(bound: Map<Prefix, MachineId>, ip: IpAddress, p: Prefix, q: Prefix)
    requires
        is_longest_holding(bound, ip, p),
        is_longest_holding(bound, ip, q),
        p.spec_valid(),
        q.spec_valid(),
    ensures
        p == q,
{
    assert(p.len == q.len);
    assert(same_version(p.addr, q.addr));
    let a = octets(p.addr);
    let b = octets(q.addr);
    assert(a.len() == b.len());
    assert forall|j: int| 0 <= j < 8 * a.len() implies bit_at(a, j) == bit_at(b, j) by {
        if j < p.len {
            assert(bit_at(a, j) == bit_at(octets(ip), j));
            assert(bit_at(b, j) == bit_at(octets(ip), j));
        }
    }
    lemma_bits_determine_bytes(a, b);
    match (p.addr, q.addr) {
        (IpAddress::V4(x), IpAddress::V4(y)) => {
            assert(x@ =~= y@);
            assert(x == y);
        },
        (IpAddress::V6(x), IpAddress::V6(y)) => {
            assert(x@ =~= y@);
            assert(x == y);
        },
        _ => {},
    }
}

/// Byte strings of one length with the same bits are equal.
proof fn lemma_bits_determine_bytes(a: Seq<u8>, b: Seq<u8>)
    requires
        a.len() == b.len(),
        forall|j: int| 0 <= j < 8 * a.len() ==> bit_at(a, j) == bit_at(b, j),
    ensures
        a == b,
{
    assert forall|i: int| 0 <= i < a.len() implies a[i] == b[i] by {
        let x = a[i];
        let y = b[i];
        assert(bit_at(a, 8 * i) == bit_at(b, 8 * i));
        assert(bit_at(a, 8 * i + 1) == bit_at(b, 8 * i + 1));
        assert(bit_at(a, 8 * i + 2) == bit_at(b, 8 * i + 2));
        assert(bit_at(a, 8 * i + 3) == bit_at(b, 8 * i + 3));
        assert(bit_at(a, 8 * i + 4) == bit_at(b, 8 * i + 4));
        assert(bit_at(a, 8 * i + 5) == bit_at(b, 8 * i + 5));
        assert(bit_at(a, 8 * i + 6) == bit_at(b, 8 * i + 6));
        assert(bit_at(a, 8 * i + 7) == bit_at(b, 8 * i + 7));
        assert(((x >> 7u8) & 1u8 != 0u8) == ((y >> 7u8) & 1u8 != 0u8) && ((x >> 6u8) & 1u8 != 0u8)
            == ((y >> 6u8) & 1u8 != 0u8) && ((x >> 5u8) & 1u8 != 0u8) == ((y >> 5u8) & 1u8 != 0u8)
            && ((x >> 4u8) & 1u8 != 0u8) == ((y >> 4u8) & 1u8 != 0u8) && ((x >> 3u8) & 1u8 != 0u8)
            == ((y >> 3u8) & 1u8 != 0u8) && ((x >> 2u8) & 1u8 != 0u8) == ((y >> 2u8) & 1u8 != 0u8)
            && ((x >> 1u8) & 1u8 != 0u8) == ((y >> 1u8) & 1u8 != 0u8) && ((x >> 0u8) & 1u8 != 0u8)
            == ((y >> 0u8) & 1u8 != 0u8));
        assert(x == y) by (bit_vector)
            requires
                ((x >> 7u8) & 1u8 != 0u8) == ((y >> 7u8) & 1u8 != 0u8) && ((x >> 6u8) & 1u8 != 0u8)
                    == ((y >> 6u8) & 1u8 != 0u8) && ((x >> 5u8) & 1u8 != 0u8) == ((y >> 5u8) & 1u8
                    != 0u8) && ((x >> 4u8) & 1u8 != 0u8) == ((y >> 4u8) & 1u8 != 0u8) && ((x >> 3u8)
                    & 1u8 != 0u8) == ((y >> 3u8) & 1u8 != 0u8) && ((x >> 2u8) & 1u8 != 0u8) == ((y
                    >> 2u8) & 1u8 != 0u8) && ((x >> 1u8) & 1u8 != 0u8) == ((y >> 1u8) & 1u8 != 0u8)
                    && ((x >> 0u8) & 1u8 != 0u8) == ((y >> 0u8) & 1u8 != 0u8),
        ;
    }
    assert(a =~= b);
}

impl Routes {
    #[verifier::type_invariant]
    closed spec fn inv(self) -> bool {
        &&& keys_distinct(self.machine_to_prefix@)
        &&& forall|q: Prefix| #[trigger] table_entries(self.bound_ips).dom().contains(q) ==> q.spec_valid()
    }

    /// No ranges, no machines, no partitions.
    pub fn new() -> (r: Self)
        ensures
            r@.bound == Map::<Prefix, MachineId>::empty(),
            r@.machine_to_prefix == Map::<MachineId, Prefix>::empty(),
            r@.partitions == Set::<(IpAddress, IpAddress)>::empty(),
    {
        let r = Routes { bound_ips: table_new(), machine_to_prefix: Vec::new(), partitions: Vec::new() };
        assert(r.partitions@.to_set() =~= Set::<(IpAddress, IpAddress)>::empty());
        assert(table_entries(r.bound_ips) =~= Map::<Prefix, MachineId>::empty());
        r
    }

    /// Binds `range` to `host`: packets to addresses in it go to `host`.
    pub fn bind(&mut self, host: MachineId, range: Prefix)
        requires
            range.spec_valid(),
        ensures
            final(self)@ == (RoutesView { bound: old(self)@.bound.insert(range, host), ..old(self)@ }),
    {
        proof {
            use_type_invariant(&*self);
        }
        let mut bound_ips = table_new();
        std::mem::swap(&mut bound_ips, &mut self.bound_ips);
        table_insert(&mut bound_ips, range, host);
        self.bound_ips = bound_ips;
    }

    /// Gives `host` the next address of each IP version that `addresses`
    /// hands out, each bound to `host` as a range of its own, and gives
    /// them; nothing when `addresses` has run out (of IPv4 addresses first,
    /// before an IPv6 address is taken).
    pub fn add_machine(&mut self, host: MachineId, addresses: &mut AddressGenerator) -> (r: Option<
        ([u8; 4], [u8; 16]),
    >)
        ensures
            match r {
                Some((v4, v6)) => {
                    &&& old(addresses)@.v4.len() > 0
                    &&& old(addresses)@.v6.len() > 0
                    &&& be_value(v4@) == old(addresses)@.v4[0]
                    &&& be_value(v6@) == old(addresses)@.v6[0]
                    &&& final(addresses)@.v4 == old(addresses)@.v4.drop_first()
                    &&& final(addresses)@.v6 == old(addresses)@.v6.drop_first()
                    &&& final(self)@ == (RoutesView {
                        bound: old(self)@.bound.insert(
                            Prefix { addr: IpAddress::V4(v4), len: 32 },
                            host,
                        ).insert(Prefix { addr: IpAddress::V6(v6), len: 128 }, host),
                        ..old(self)@
                    })
                },
                None => {
                    &&& old(addresses)@.v4.len() == 0 || old(addresses)@.v6.len() == 0
                    &&& final(self)@ == old(self)@
                    &&& final(addresses)@.v6 == old(addresses)@.v6
                    &&& final(addresses)@.v4 == if old(addresses)@.v4.len() > 0 {
                        old(addresses)@.v4.drop_first()
                    } else {
                        old(addresses)@.v4
                    }
                },
            },
    {
        let ghost a4 = v4_addresses_left(addresses.v4);
        let ghost a6 = v6_addresses_left(addresses.v6);
        let v4 = match v4_next(&mut addresses.v4) {
            Some(o) => o,
            None => return None,
        };
        proof {
            assert(a4.drop_first().map_values(|a: u32| a as nat) =~= a4.map_values(
                |a: u32| a as nat,
            ).drop_first());
        }
        let v6 = match v6_next(&mut addresses.v6) {
            Some(o) => o,
            None => return None,
        };
        proof {
            assert(a6.drop_first().map_values(|a: u128| a as nat) =~= a6.map_values(
                |a: u128| a as nat,
            ).drop_first());
        }
        self.bind(host, Prefix { addr: IpAddress::V4(v4), len: 32 });
        self.bind(host, Prefix { addr: IpAddress::V6(v6), len: 128 });
        Some((v4, v6))
    }

    /// Unbinds `range`.
    pub fn unbind(&mut self, range: Prefix)
        requires
            range.spec_valid(),
        ensures
            final(self)@ == (RoutesView { bound: old(self)@.bound.remove(range), ..old(self)@ }),
    {
        proof {
            use_type_invariant(&*self);
        }
        let mut bound_ips = table_new();
        std::mem::swap(&mut bound_ips, &mut self.bound_ips);
        table_remove(&mut bound_ips, range);
        self.bound_ips = bound_ips;
    }

    /// Gives `host` the range `new_range`, unbinding the range it was given
    /// before, if any.
    pub fn set_host_ip_range(&mut self, host: MachineId, new_range: Prefix)
        requires
            new_range.spec_valid(),
        ensures
            final(self)@.machine_to_prefix == old(self)@.machine_to_prefix.insert(host, new_range),
            final(self)@.partitions == old(self)@.partitions,
            final(self)@.bound == if old(self)@.machine_to_prefix.dom().contains(host) {
                old(self)@.bound.remove(old(self)@.machine_to_prefix[host]).insert(new_range, host)
            } else {
                old(self)@.bound.insert(new_range, host)
            },
    {
        proof {
            use_type_invariant(&*self);
        }
        let mut bound_ips = table_new();
        std::mem::swap(&mut bound_ips, &mut self.bound_ips);
        let mut machines: Vec<(MachineId, Prefix)> = Vec::new();
        std::mem::swap(&mut machines, &mut self.machine_to_prefix);
        match assoc::find(&machines, &host) {
            Some(i) => {
                let old_range = machines[i].1;
                proof {
                    assert(table_entries(bound_ips).dom().contains(old_range) ==> old_range.spec_valid());
                }
                if old_range.is_valid() {
                    table_remove(&mut bound_ips, old_range);
                } else {
                    proof {
                        assert(!table_entries(bound_ips).dom().contains(old_range));
                        assert(table_entries(bound_ips).remove(old_range) =~= table_entries(bound_ips));
                    }
                }
            },
            None => {},
        }
        assoc::insert(&mut machines, host, new_range);
        table_insert(&mut bound_ips, new_range, host);
        self.machine_to_prefix = machines;
        self.bound_ips = bound_ips;
    }

    /// The range `host` was given, if any.
    pub fn machine_ip_prefix(&self, host: &MachineId) -> (r: Option<Prefix>)
        ensures
            match r {
                Some(p) => self@.machine_to_prefix.dom().contains(*host)
                    && self@.machine_to_prefix[*host] == p,
                None => !self@.machine_to_prefix.dom().contains(*host),
            },
    {
        proof {
            use_type_invariant(self);
        }
        match assoc::find(&self.machine_to_prefix, host) {
            Some(i) => Some(self.machine_to_prefix[i].1),
            None => None,
        }
    }

    /// Whether traffic from `from` to `to` is blocked.
    pub fn is_partitioned(&self, from: IpAddress, to: IpAddress) -> (b: bool)
        ensures
            b == self@.partitions.contains((from, to)),
    {
        let mut i: usize = 0;
        while i < self.partitions.len()
            invariant
                i <= self.partitions@.len(),
                forall|j: int| 0 <= j < i ==> self.partitions@[j] != (from, to),
            decreases self.partitions@.len() - i,
        {
            let (a, b) = self.partitions[i];
            if a.same_as(&from) && b.same_as(&to) {
                assert(self.partitions@[i as int] == (from, to));
                return true;
            }
            i = i + 1;
        }
        false
    }

    /// Blocks traffic from `from` to `to`.
    pub fn add_partition(&mut self, from: IpAddress, to: IpAddress)
        ensures
            final(self)@ == (RoutesView {
                partitions: old(self)@.partitions.insert((from, to)),
                ..old(self)@
            }),
    {
        proof {
            use_type_invariant(&*self);
        }
        if !self.is_partitioned(from, to) {
            let ghost before = self.partitions@;
            let mut partitions: Vec<(IpAddress, IpAddress)> = Vec::new();
            std::mem::swap(&mut partitions, &mut self.partitions);
            partitions.push((from, to));
            self.partitions = partitions;
            assert(self.partitions@.to_set() =~= before.to_set().insert((from, to))) by {
                assert forall|x| self.partitions@.to_set().contains(x) == before.to_set().insert(
                    (from, to),
                ).contains(x) by {
                    if before.contains(x) {
                        let k = choose|k: int| 0 <= k < before.len() && before[k] == x;
                        assert(self.partitions@[k] == x);
                    }
                    if self.partitions@.contains(x) && x != (from, to) {
                        let k = choose|k: int| 0 <= k < self.partitions@.len() && self.partitions@[k]
                            == x;
                        assert(before[k] == x);
                    }
                    if x == (from, to) {
                        assert(self.partitions@[before.len() as int] == x);
                    }
                }
            }
        } else {
            assert(self.partitions@.to_set() =~= self.partitions@.to_set().insert((from, to)));
        }
    }

    /// Lets traffic from `from` to `to` through again.
    pub fn remove_partition(&mut self, from: IpAddress, to: IpAddress)
        ensures
            final(self)@ == (RoutesView {
                partitions: old(self)@.partitions.remove((from, to)),
                ..old(self)@
            }),
    {
        proof {
            use_type_invariant(&*self);
        }
        let ghost before = self.partitions@;
        let mut kept: Vec<(IpAddress, IpAddress)> = Vec::new();
        let mut i: usize = 0;
        while i < self.partitions.len()
            invariant
                i <= self.partitions@.len(),
                self.partitions@ == before,
                forall|x| #[trigger] kept@.contains(x) <==> (exists|j: int|
                    0 <= j < i && before[j] == x) && x != (from, to),
            decreases self.partitions@.len() - i,
        {
            let (a, b) = self.partitions[i];
            if !(a.same_as(&from) && b.same_as(&to)) {
                let ghost k = kept@;
                kept.push((a, b));
                proof {
                    assert forall|x| #[trigger] kept@.contains(x) <==> (exists|j: int|
                        0 <= j < i + 1 && before[j] == x) && x != (from, to) by {
                        if kept@.contains(x) {
                            let m = choose|m: int| 0 <= m < kept@.len() && kept@[m] == x;
                            if m < k.len() {
                                assert(k[m] == x);
                                assert(k.contains(x));
                            } else {
                                assert(before[i as int] == x);
                            }
                        }
                        if (exists|j: int| 0 <= j < i + 1 && before[j] == x) && x != (from, to) {
                            let j = choose|j: int| 0 <= j < i + 1 && before[j] == x;
                            if j < i {
                                assert(k.contains(x));
                                let m = choose|m: int| 0 <= m < k.len() && k[m] == x;
                                assert(kept@[m] == x);
                            } else {
                                assert(kept@[k.len() as int] == x);
                            }
                        }
                    }
                }
            } else {
                proof {
                    assert forall|x| #[trigger] kept@.contains(x) <==> (exists|j: int|
                        0 <= j < i + 1 && before[j] == x) && x != (from, to) by {
                        if (exists|j: int| 0 <= j < i + 1 && before[j] == x) && x != (from, to) {
                            let j = choose|j: int| 0 <= j < i + 1 && before[j] == x;
                            assert(j < i);
                        }
                    }
                }
            }
            i = i + 1;
        }
        self.partitions = kept;
        assert(self.partitions@.to_set() =~= before.to_set().remove((from, to))) by {
            assert forall|x| self.partitions@.to_set().contains(x) == before.to_set().remove(
                (from, to),
            ).contains(x) by {
                assert(self.partitions@.contains(x) == kept@.contains(x));
                if before.contains(x) {
                    let k = choose|k: int| 0 <= k < before.len() && before[k] == x;
                    assert(exists|j: int| 0 <= j < before.len() && before[j] == x);
                }
            }
        }
    }

    /// Where the packet `bytes` goes: nowhere when its source and
    /// destination are partitioned apart, else the machine of the most
    /// specific range holding its destination (see `spec_route`).
    pub fn route(&self, bytes: &[u8]) -> (r: Result<Option<MachineId>, RouteError>)
        requires
            header_parse_defined(bytes@),
        ensures
            r == spec_route(self@, bytes@),
    {
        proof {
            use_type_invariant(self);
        }
        let (h, _) = match ip::Header::try_from_buf(bytes) {
            Ok(x) => x,
            Err(e) => return Err(RouteError::PacketParse(e)),
        };
        let (src, dst) = h.get_ip_addrs();
        if self.is_partitioned(src, dst) {
            return Ok(None);
        }
        match table_longest_match(&self.bound_ips, dst) {
            None => Err(RouteError::HostUnreachable),
            Some((p, id)) => {
                proof {
                    let bound = self@.bound;
                    assert(is_longest_holding(bound, dst, p));
                    let q = longest_holding(bound, dst);
                    assert(is_longest_holding(bound, dst, q));
                    lemma_longest_unique(bound, dst, p, q);
                }
                Ok(Some(id))
            },
        }
    }
}

/// A partition from `from` to `to` that was not there before drops every
/// well-formed packet from `from` to `to` while it stands, leaves every
/// other packet (those from `to` to `from` among them) routed as before,
/// and once it is removed again the network routes every packet as it did
/// before the partition was added.
pub proof fn lemma_partition_guard(v: RoutesView, from: IpAddress, to: IpAddress, b: Seq<u8>)
    requires
        !v.partitions.contains((from, to)),
    ensures
        ({
            let blocked = RoutesView { partitions: v.partitions.insert((from, to)), ..v };
            let lifted = RoutesView { partitions: blocked.partitions.remove((from, to)), ..blocked };
            &&& match ip::spec_parse_header(b) {
                Ok((h, n)) => if h.spec_ip_addrs() == (from, to) {
                    spec_route(blocked, b) == Ok::<Option<MachineId>, RouteError>(None)
                } else {
                    spec_route(blocked, b) == spec_route(v, b)
                },
                Err(e) => spec_route(blocked, b) == spec_route(v, b),
            }
            &&& spec_route(lifted, b) == spec_route(v, b)
        }),
{
    let blocked = RoutesView { partitions: v.partitions.insert((from, to)), ..v };
    let lifted = RoutesView { partitions: blocked.partitions.remove((from, to)), ..blocked };
    assert(lifted.partitions =~= v.partitions);
    assert(lifted == v);
}

impl crate::assoc::Mappable for MachineId {
    fn same_as(&self, other: &Self) -> (b: bool) {
        self.id == other.id
    }
}

} // verus!
