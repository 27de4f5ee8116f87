use vstd::prelude::*;

verus! {

/// An IPv4 or IPv6 address, held as its octets in network order.
#[derive(Clone, Copy, Debug, PartialEq, Eq, Hash)]
pub enum IpAddress {
    V4([u8; 4]),
    V6([u8; 16]),
}

/// An IP address together with a port.
#[derive(Clone, Copy, Debug, PartialEq, Eq, Hash)]
pub struct SocketAddress {
    pub ip: IpAddress,
    pub port: u16,
}

impl IpAddress {
    pub open spec fn spec_is_v4(self) -> bool {
        self is V4
    }

    /// Whether this is an IPv4 address.
    pub fn is_v4(&self) -> (b: bool)
        ensures
            b == self.spec_is_v4(),
    {
        match self {
            IpAddress::V4(_) => true,
            IpAddress::V6(_) => false,
        }
    }

    /// Whether this is an IPv6 address.
    pub fn is_v6(&self) -> (b: bool)
        ensures
            b == !self.spec_is_v4(),
    {
        match self {
            IpAddress::V4(_) => false,
            IpAddress::V6(_) => true,
        }
    }

    /// Whether the address is the unspecified address (all zero).
    pub open spec fn spec_is_unspecified(self) -> bool {
        match self {
            IpAddress::V4(o) => forall|i: int| 0 <= i < 4 ==> o@[i] == 0,
            IpAddress::V6(o) => forall|i: int| 0 <= i < 16 ==> o@[i] == 0,
        }
    }

    /// Whether the address is the unspecified address (all zero).
    #[verifier::loop_isolation(false)]
    pub fn is_unspecified(&self) -> (b: bool)
        ensures
            b == self.spec_is_unspecified(),
    {
        match self {
            IpAddress::V4(o) => {
                let mut i: usize = 0;
                while i < 4
                    invariant
                        i <= 4,
                        forall|j: int| 0 <= j < i ==> o@[j] == 0,
                    decreases 4 - i,
                {
                    if o[i] != 0 {
                        return false;
                    }
                    i = i + 1;
                }
                true
            },
            IpAddress::V6(o) => {
                let mut i: usize = 0;
                while i < 16
                    invariant
                        i <= 16,
                        forall|j: int| 0 <= j < i ==> o@[j] == 0,
                    decreases 16 - i,
                {
                    if o[i] != 0 {
                        return false;
                    }
                    i = i + 1;
                }
                true
            },
        }
    }

    /// Whether two addresses are equal.
    #[verifier::loop_isolation(false)]
    pub fn same_as(&self, other: &IpAddress) -> (b: bool)
        ensures
            b == (*self == *other),
    {
        match (self, other) {
            (IpAddress::V4(a), IpAddress::V4(b)) => {
                let mut i: usize = 0;
                while i < 4
                    invariant
                        i <= 4,
                        forall|j: int| 0 <= j < i ==> a@[j] == b@[j],
                    decreases 4 - i,
                {
                    if a[i] != b[i] {
                        return false;
                    }
                    i = i + 1;
                }
                assert(*a =~= *b);
                true
            },
            (IpAddress::V6(a), IpAddress::V6(b)) => {
                let mut i: usize = 0;
                while i < 16
                    invariant
                        i <= 16,
                        forall|j: int| 0 <= j < i ==> a@[j] == b@[j],
                    decreases 16 - i,
                {
                    if a[i] != b[i] {
                        return false;
                    }
                    i = i + 1;
                }
                assert(*a =~= *b);
                true
            },
            _ => false,
        }
    }
}

impl SocketAddress {
    /// Builds a socket address from an IP address and a port.
    pub fn new(ip: IpAddress, port: u16) -> (s: SocketAddress)
        ensures
            s.ip == ip,
            s.port == port,
    {
        SocketAddress { ip, port }
    }

    /// Whether two socket addresses are equal.
    pub fn same_as(&self, other: &SocketAddress) -> (b: bool)
        ensures
            b == (*self == *other),
    {
        self.port == other.port && self.ip.same_as(&other.ip)
    }
}

} // verus!
