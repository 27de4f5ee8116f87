//! Naming and addressing of simulated hosts: the simulated DNS and the
//! generators of host addresses.
use vstd::prelude::*;

use crate::net::addr::{IpAddress, SocketAddress};

verus! {

/// Why a lookup failed.
#[derive(Clone, Copy, Debug, PartialEq, Eq, Structural)]
pub enum DnsError {
    /// The name is not known.
    NotFound,
}

/// The simulated DNS: the addresses known for each name.
pub struct Dns {
    lookup: Vec<(String, Vec<IpAddress>)>,
}

/// Whether no name occurs twice.
pub open spec fn names_distinct(s: Seq<(String, Vec<IpAddress>)>) -> bool {
    forall|i: int, j: int| 0 <= i < j < s.len() ==> s[i].0@ != s[j].0@
}

/// The names and their addresses, as a map.
pub open spec fn dns_map(s: Seq<(String, Vec<IpAddress>)>) -> Map<Seq<char>, Seq<IpAddress>>
    decreases s.len(),
{
    if s.len() == 0 {
        Map::empty()
    } else {
        dns_map(s.drop_last()).insert(s.last().0@, s.last().1@)
    }
}

/// A name is mapped exactly when some entry has it, to that entry's
/// addresses.
proof fn lemma_dns_map(s: Seq<(String, Vec<IpAddress>)>)
    requires
        names_distinct(s),
    ensures
        forall|k: Seq<char>| #[trigger]
            dns_map(s).dom().contains(k) <==> exists|i: int| 0 <= i < s.len() && s[i].0@ == k,
        forall|i: int| 0 <= i < s.len() ==> #[trigger] dns_map(s)[s[i].0@] == s[i].1@,
    decreases s.len(),
{
    if s.len() > 0 {
        let t = s.drop_last();
        lemma_dns_map(t);
        assert forall|k: Seq<char>| #[trigger]
            dns_map(s).dom().contains(k) <==> exists|i: int| 0 <= i < s.len() && s[i].0@ == k by {
            if dns_map(s).dom().contains(k) {
                if k == s.last().0@ {
                    assert(s[s.len() - 1].0@ == k);
                } else {
                    assert(dns_map(t).dom().contains(k));
                    let i = choose|i: int| 0 <= i < t.len() && t[i].0@ == k;
                    assert(t[i] == s[i]);
                    assert(s[i].0@ == k);
                }
            }
            if exists|i: int| 0 <= i < s.len() && s[i].0@ == k {
                let i = choose|i: int| 0 <= i < s.len() && s[i].0@ == k;
                if i < t.len() {
                    assert(t[i] == s[i]);
                    assert(t[i].0@ == k);
                    assert(dns_map(t).dom().contains(k));
                }
            }
        }
        assert forall|i: int| 0 <= i < s.len() implies #[trigger] dns_map(s)[s[i].0@] == s[i].1@ by {
            if i < t.len() {
                assert(t[i] == s[i]);
                assert(s[i].0@ != s[s.len() - 1].0@);
                assert(dns_map(t)[t[i].0@] == t[i].1@);
            }
        }
    }
}

/// A copy of the addresses.
fn copy_addrs(v: &Vec<IpAddress>) -> (out: Vec<IpAddress>)
    ensures
        out@ == v@,
{
    let mut out: Vec<IpAddress> = Vec::new();
    let mut i: usize = 0;
    while i < v.len()
        invariant
            i <= v@.len(),
            out@ == v@.take(i as int),
        decreases v@.len() - i,
    {
        out.push(v[i]);
        i = i + 1;
        assert(out@ =~= v@.take(i as int));
    }
    assert(v@.take(v@.len() as int) =~= v@);
    out
}

impl View for Dns {
    type V = Map<Seq<char>, Seq<IpAddress>>;

    closed spec fn view(&self) -> Map<Seq<char>, Seq<IpAddress>> {
        dns_map(self.lookup@)
    }
}

impl Dns {
    #[verifier::type_invariant]
    closed spec fn inv(self) -> bool {
        names_distinct(self.lookup@)
    }

    /// The index of the entry of `domain`, if any.
    fn find(&self, domain: &String) -> (r: Option<usize>)
        ensures
            match r {
                Some(i) => i < self.lookup@.len() && self.lookup@[i as int].0@ == domain@
                    && self@.dom().contains(domain@) && self@[domain@]
                    == self.lookup@[i as int].1@,
                None => !self@.dom().contains(domain@),
            },
    {
        proof {
            use_type_invariant(self);
            lemma_dns_map(self.lookup@);
        }
        let mut i: usize = 0;
        while i < self.lookup.len()
            invariant
                i <= self.lookup@.len(),
                names_distinct(self.lookup@),
                forall|j: int| 0 <= j < i ==> self.lookup@[j].0@ != domain@,
            decreases self.lookup@.len() - i,
        {
            if self.lookup[i].0 == *domain {
                proof {
                    lemma_dns_map(self.lookup@);
                    assert(dns_map(self.lookup@)[self.lookup@[i as int].0@]
                        == self.lookup@[i as int].1@);
                    assert(dns_map(self.lookup@).dom().contains(self.lookup@[i as int].0@));
                }
                return Some(i);
            }
            i = i + 1;
        }
        None
    }

    /// A DNS that knows only `localhost`, as 127.0.0.1 and ::1.
    pub fn new() -> (d: Self)
        ensures
            d@ == Map::<Seq<char>, Seq<IpAddress>>::empty().insert(
                "localhost"@,
                seq![
                    IpAddress::V4([127, 0, 0, 1]),
                    IpAddress::V6([0, 0, 0, 0, 0, 0, 0, 0, 0, 0, 0, 0, 0, 0, 0, 1]),
                ],
            ),
    {
        let mut addrs: Vec<IpAddress> = Vec::new();
        addrs.push(IpAddress::V4([127, 0, 0, 1]));
        addrs.push(IpAddress::V6([0, 0, 0, 0, 0, 0, 0, 0, 0, 0, 0, 0, 0, 0, 0, 1]));
        let mut lookup: Vec<(String, Vec<IpAddress>)> = Vec::new();
        let name = "localhost".to_owned();
        assert(name@ == "localhost"@);
        lookup.push((name, addrs));
        let d = Dns { lookup };
        assert(d.lookup@.drop_last() =~= Seq::<(String, Vec<IpAddress>)>::empty());
        assert(dns_map(d.lookup@.drop_last()) == Map::<Seq<char>, Seq<IpAddress>>::empty());
        assert(d.lookup@.last().1@ =~= seq![
            IpAddress::V4([127, 0, 0, 1]),
            IpAddress::V6([0, 0, 0, 0, 0, 0, 0, 0, 0, 0, 0, 0, 0, 0, 0, 1]),
        ]);
        d
    }

    /// The addresses of `domain`, or `NotFound` when it is not known.
    pub fn lookup(&self, domain: &str) -> (r: Result<Vec<IpAddress>, DnsError>)
        ensures
            match r {
                Ok(v) => self@.dom().contains(domain@) && v@ == self@[domain@],
                Err(e) => !self@.dom().contains(domain@) && e == DnsError::NotFound,
            },
    {
        let name = domain.to_owned();
        match self.find(&name) {
            Some(i) => Ok(copy_addrs(&self.lookup[i].1)),
            None => Err(DnsError::NotFound),
        }
    }

    /// Adds `addrs` after the addresses known for `domain`.
    pub fn extend(&mut self, domain: &str, addrs: Vec<IpAddress>)
        ensures
            final(self)@ == old(self)@.insert(
                domain@,
                if old(self)@.dom().contains(domain@) {
                    old(self)@[domain@]
                } else {
                    Seq::<IpAddress>::empty()
                } + addrs@,
            ),
    {
        proof {
            use_type_invariant(&*self);
            lemma_dns_map(self.lookup@);
        }
        let name = domain.to_owned();
        let mut lookup: Vec<(String, Vec<IpAddress>)> = Vec::new();
        std::mem::swap(&mut lookup, &mut self.lookup);
        let ghost before = lookup@;
        let found = {
            let this = Dns { lookup };
            let f = this.find(&name);
            lookup = this.lookup;
            f
        };
        match found {
            Some(i) => {
                let mut known = copy_addrs(&lookup[i].1);
                let mut extra = addrs;
                known.append(&mut extra);
                lookup.set(i, (name, known));
                proof {
                    assert(names_distinct(lookup@)) by {
                        assert forall|a: int, b: int| 0 <= a < b < lookup@.len() implies lookup@[a].0@
                            != lookup@[b].0@ by {
                            assert(before[a].0@ != before[b].0@);
                        }
                    }
                    lemma_dns_map(lookup@);
                    lemma_dns_map(before);
                    let expected = dns_map(before).insert(domain@, dns_map(before)[domain@] + addrs@);
                    assert(dns_map(lookup@) =~= expected) by {
                        assert forall|k: Seq<char>| #[trigger] expected.dom().contains(k) implies dns_map(
                            lookup@,
                        ).dom().contains(k) by {
                            if k != domain@ {
                                let j = choose|j: int| 0 <= j < before.len() && before[j].0@ == k;
                                assert(lookup@[j].0@ == k);
                            } else {
                                assert(lookup@[i as int].0@ == k);
                            }
                        }
                        assert forall|k: Seq<char>| #[trigger] dns_map(lookup@).dom().contains(k) implies expected.dom().contains(k) by {
                            let j = choose|j: int| 0 <= j < lookup@.len() && lookup@[j].0@ == k;
                            if j != i {
                                assert(before[j].0@ == k);
                            }
                        }
                        assert forall|k: Seq<char>| #[trigger] dns_map(lookup@).dom().contains(k) implies dns_map(lookup@)[k] == expected[k] by {
                            let j = choose|j: int| 0 <= j < lookup@.len() && lookup@[j].0@ == k;
                            assert(dns_map(lookup@)[lookup@[j].0@] == lookup@[j].1@);
                            if j != i {
                                assert(before[j] == lookup@[j]);
                                assert(dns_map(before)[before[j].0@] == before[j].1@);
                            }
                        }
                    }
                }
            },
            None => {
                let mut known: Vec<IpAddress> = Vec::new();
                let mut extra = addrs;
                known.append(&mut extra);
                lookup.push((name, known));
                proof {
                    assert(lookup@.drop_last() =~= before);
                    assert(names_distinct(lookup@)) by {
                        lemma_dns_map(before);
                        assert forall|a: int, b: int| 0 <= a < b < lookup@.len() implies lookup@[a].0@
                            != lookup@[b].0@ by {
                            if b == lookup@.len() - 1 {
                                assert(before[a].0@ == lookup@[a].0@);
                                assert(dns_map(before).dom().contains(before[a].0@));
                            } else {
                                assert(before[a].0@ != before[b].0@);
                            }
                        }
                    }
                    assert(Seq::<IpAddress>::empty() + addrs@ =~= addrs@);
                }
            },
        }
        self.lookup = lookup;
    }

    /// Adds `addr` after the addresses known for `domain`.
    pub fn insert(&mut self, domain: &str, addr: IpAddress)
        ensures
            final(self)@ == old(self)@.insert(
                domain@,
                if old(self)@.dom().contains(domain@) {
                    old(self)@[domain@]
                } else {
                    Seq::<IpAddress>::empty()
                }.push(addr),
            ),
    {
        let mut addrs: Vec<IpAddress> = Vec::new();
        addrs.push(addr);
        self.extend(domain, addrs);
        proof {
            let known = if old(self)@.dom().contains(domain@) {
                old(self)@[domain@]
            } else {
                Seq::<IpAddress>::empty()
            };
            assert(known + seq![addr] =~= known.push(addr));
        }
    }

    /// The socket addresses at `port` of the addresses of `host`, or
    /// `NotFound` when the name is not known.
    pub fn resolve(&self, host: &str, port: u16) -> (r: Result<Vec<SocketAddress>, DnsError>)
        ensures
            match r {
                Ok(v) => self@.dom().contains(host@) && v@.len() == self@[host@].len() && forall|
                    i: int,
                | 0 <= i < v@.len() ==> #[trigger] v@[i] == (SocketAddress {
                    ip: self@[host@][i],
                    port: port,
                }),
                Err(e) => !self@.dom().contains(host@) && e == DnsError::NotFound,
            },
    {
        let ips = match self.lookup(host) {
            Ok(v) => v,
            Err(e) => return Err(e),
        };
        let mut out: Vec<SocketAddress> = Vec::new();
        let mut i: usize = 0;
        while i < ips.len()
            invariant
                i <= ips@.len(),
                out@.len() == i,
                forall|k: int| 0 <= k < i ==> #[trigger] out@[k] == (SocketAddress {
                    ip: ips@[k],
                    port: port,
                }),
            decreases ips@.len() - i,
        {
            out.push(SocketAddress::new(ips[i], port));
            i = i + 1;
        }
        Ok(out)
    }
}

/// The address the IPv4 generator gives for `host`: 192.168 and the low
/// two bytes of `host`.
pub open spec fn generated_v4(host: u32) -> [u8; 4] {
    [192, 168, ((host / 256) % 256) as u8, (host % 256) as u8]
}

/// Byte `k` from the back of `host`.
pub open spec fn byte_from_back(host: u128, k: nat) -> u8 {
    ((host as nat / vstd::arithmetic::power2::pow2(8 * k)) % 256) as u8
}

/// The address the IPv6 generator gives for `host`: fe80::/64 and the low
/// eight bytes of `host`.
pub open spec fn generated_v6(host: u128) -> [u8; 16] {
    [
        0xfe,
        0x80,
        0,
        0,
        0,
        0,
        0,
        0,
        byte_from_back(host, 7),
        byte_from_back(host, 6),
        byte_from_back(host, 5),
        byte_from_back(host, 4),
        byte_from_back(host, 3),
        byte_from_back(host, 2),
        byte_from_back(host, 1),
        byte_from_back(host, 0),
    ]
}

/// The low eight bytes of `host`, most significant first.
fn low_bytes(host: u128) -> (b: [u8; 8])
    ensures
        forall|k: int| 0 <= k < 8 ==> #[trigger] b@[k] == byte_from_back(host, (7 - k) as nat),
{
    let mut b: [u8; 8] = [0u8; 8];
    let mut rest: u128 = host;
    let mut k: usize = 8;
    proof {
        vstd::arithmetic::power2::lemma2_to64();
        vstd::arithmetic::div_mod::lemma_div_basics(host as int);
    }
    while k > 0
        invariant
            k <= 8,
            b@.len() == 8,
            rest == host as nat / vstd::arithmetic::power2::pow2(8 * (8 - k) as nat),
            forall|j: int| k <= j < 8 ==> #[trigger] b@[j] == byte_from_back(host, (7 - j) as nat),
        decreases k,
    {
        k = k - 1;
        b[k] = (rest % 256) as u8;
        proof {
            let p = vstd::arithmetic::power2::pow2(8 * (7 - k) as nat);
            vstd::arithmetic::power2::lemma_pow2_adds(8 * (7 - k) as nat, 8);
            vstd::arithmetic::power2::lemma_pow2_pos(8 * (7 - k) as nat);
            vstd::arithmetic::power2::lemma2_to64();
            vstd::arithmetic::div_mod::lemma_div_denominator(host as int, p as int, 256);
        }
        rest = rest / 256;
    }
    b
}

/// The addresses handed out to hosts: the next host number of either IP
/// version.
#[derive(Debug)]
pub enum Generator {
    /// the next IPv4 host number
    V4(u32),
    /// the next IPv6 host number
    V6(u128),
}

/// The host number after `n`, wrapping around.
pub open spec fn next_host_v4(n: u32) -> u32 {
    if n == u32::MAX {
        0
    } else {
        (n + 1) as u32
    }
}

/// The host number after `n`, wrapping around.
pub open spec fn next_host_v6(n: u128) -> u128 {
    if n == u128::MAX {
        0
    } else {
        (n + 1) as u128
    }
}

impl Generator {
    /// An IPv4 generator starting at host 1.
    pub fn new() -> (g: Generator)
        ensures
            g == Generator::V4(1),
    {
        Generator::V4(1)
    }

    /// The address of the current host number, which then moves on by one.
    pub fn next(&mut self) -> (a: IpAddress)
        ensures
            match *old(self) {
                Generator::V4(n) => a == IpAddress::V4(generated_v4(n)) && *final(self)
                    == Generator::V4(next_host_v4(n)),
                Generator::V6(n) => a == IpAddress::V6(generated_v6(n)) && *final(self)
                    == Generator::V6(next_host_v6(n)),
            },
    {
        match self {
            Generator::V4(next) => {
                let host = *next;
                *next = next.wrapping_add(1);
                IpAddress::V4([192, 168, ((host / 256) % 256) as u8, (host % 256) as u8])
            },
            Generator::V6(next) => {
                let host = *next;
                *next = next.wrapping_add(1);
                let b = low_bytes(host);
                let a = [0xfe, 0x80, 0, 0, 0, 0, 0, 0, b[0], b[1], b[2], b[3], b[4], b[5], b[6], b[7]];
                assert(a =~= generated_v6(host));
                IpAddress::V6(a)
            },
        }
    }
}

/// IPv4 host addresses, from host 1 on.
pub struct Ipv4(pub u32);

/// IPv6 host addresses, from host 1 on.
pub struct Ipv6(pub u128);

impl Ipv4 {
    /// A generator starting at host 1.
    pub fn new() -> (g: Ipv4)
        ensures
            g.0 == 1,
    {
        Ipv4(1)
    }

    /// The address of the current host number, which then moves on by one.
    pub fn next(&mut self) -> (a: [u8; 4])
        ensures
            a == generated_v4(old(self).0),
            final(self).0 == next_host_v4(old(self).0),
    {
        let host = self.0;
        self.0 = self.0.wrapping_add(1);
        [192, 168, ((host / 256) % 256) as u8, (host % 256) as u8]
    }
}

impl Ipv6 {
    /// A generator starting at host 1.
    pub fn new() -> (g: Ipv6)
        ensures
            g.0 == 1,
    {
        Ipv6(1)
    }

    /// The address of the current host number, which then moves on by one.
    pub fn next(&mut self) -> (a: [u8; 16])
        ensures
            a == generated_v6(old(self).0),
            final(self).0 == next_host_v6(old(self).0),
    {
        let host = self.0;
        self.0 = self.0.wrapping_add(1);
        let b = low_bytes(host);
        let a = [0xfe, 0x80, 0, 0, 0, 0, 0, 0, b[0], b[1], b[2], b[3], b[4], b[5], b[6], b[7]];
        assert(a =~= generated_v6(host));
        a
    }
}

} // verus!
