//! The state of a simulated UDP socket: its address, the peer it is
//! connected to, and the datagram it has received but not yet consumed;
//! and the datagrams it sends.
use vstd::prelude::*;

use crate::net::addr::SocketAddress;
use crate::net::ecn::Ecn;
use crate::net::udp::{PROTOCOL, Packet, spec_calculate_checksum};

verus! {

/// The most body bytes a datagram carries: a send cuts the buffer to this
/// (an Ethernet frame's worth).
pub const MAX_DATAGRAM_BODY: usize = 1472;

/// The body a datagram sent from `buf` carries: at most its first
/// `MAX_DATAGRAM_BODY` bytes.
pub open spec fn sent_body(buf: Seq<u8>) -> Seq<u8> {
    if buf.len() <= MAX_DATAGRAM_BODY {
        buf
    } else {
        buf.take(MAX_DATAGRAM_BODY as int)
    }
}

/// The first `max` bytes of `s`, or all of it when it is shorter.
pub open spec fn first_bytes(s: Seq<u8>, max: int) -> Seq<u8> {
    if s.len() <= max {
        s
    } else {
        s.take(max)
    }
}

/// `p` is the datagram from `src` to `dst` carrying `body` with ECN
/// codepoint `ecn`, as `Packet::new` makes it.
pub open spec fn is_datagram(
    p: Packet,
    src: SocketAddress,
    dst: SocketAddress,
    body: Seq<u8>,
    ecn: Option<Ecn>,
) -> bool {
    &&& p.wf()
    &&& p.data@ == body
    &&& p.header.spec_socket_addrs() == (src, dst)
    &&& p.header.ip_header.spec_ecn() == ecn
    &&& p.header.ip_header.spec_protocol() == PROTOCOL
    &&& src.ip.spec_is_v4() ==> p.header.checksum == 0
    &&& !src.ip.spec_is_v4() ==> p.header.checksum == (0xffff - spec_calculate_checksum(
        p.header,
        body,
    )) as u16
}

/// Why a socket operation failed.
#[derive(Clone, Copy, Debug, PartialEq, Eq)]
pub enum SocketError {
    /// The socket is not connected to a peer.
    NotConnected,
}

/// A UDP socket's state.
pub struct SocketState {
    /// The address the socket is bound to.
    pub local_addr: SocketAddress,
    /// The peer it is connected to, if any.
    pub peer_addr: Option<SocketAddress>,
    /// The datagram received and not yet consumed, if any.
    pub peeked: Option<Packet>,
}

impl SocketState {
    /// A socket bound to `local_addr`, not connected, with nothing received.
    pub fn new(local_addr: SocketAddress) -> (s: Self)
        ensures
            s.local_addr == local_addr,
            s.peer_addr is None,
            s.peeked is None,
    {
        SocketState { local_addr, peer_addr: None, peeked: None }
    }

    /// The address the socket is bound to.
    pub fn local_addr(&self) -> (a: SocketAddress)
        ensures
            a == self.local_addr,
    {
        self.local_addr
    }

    /// The peer the socket is connected to.
    pub fn peer_addr(&self) -> (r: Result<SocketAddress, SocketError>)
        ensures
            r == match self.peer_addr {
                Some(p) => Ok::<SocketAddress, SocketError>(p),
                None => Err(SocketError::NotConnected),
            },
    {
        match self.peer_addr {
            Some(p) => Ok(p),
            None => Err(SocketError::NotConnected),
        }
    }

    /// Connects the socket to `peer` (the first address the peer's name
    /// resolved to; none disconnects it). A held datagram that the
    /// connected socket would not take in is dropped.
    pub fn connect(&mut self, peer: Option<SocketAddress>)
        ensures
            final(self).peer_addr == peer,
            final(self).local_addr == old(self).local_addr,
            final(self).peeked == match old(self).peeked {
                Some(p) => if final(self).accepts(p.header.spec_socket_addrs().0) {
                    old(self).peeked
                } else {
                    None
                },
                None => None,
            },
    {
        self.peer_addr = peer;
        let keep = match (&self.peeked, &self.peer_addr) {
            (Some(p), Some(q)) => p.header.get_src_addr().same_as(q),
            _ => true,
        };
        if !keep {
            self.peeked = None;
        }
    }

    /// The datagram that sending `buf` to `target` makes, with the ECN
    /// codepoint `ecn`: from the socket's address, with the body cut to
    /// `MAX_DATAGRAM_BODY` bytes.
    pub fn datagram_to(&self, buf: &[u8], target: SocketAddress, ecn: Option<Ecn>) -> (p: Packet)
        requires
            self.local_addr.ip.spec_is_v4() == target.ip.spec_is_v4(),
        ensures
            is_datagram(p, self.local_addr, target, sent_body(buf@), ecn),
    {
        let n = if buf.len() <= MAX_DATAGRAM_BODY {
            buf.len()
        } else {
            MAX_DATAGRAM_BODY
        };
        let mut body: Vec<u8> = Vec::new();
        let mut i: usize = 0;
        while i < n
            invariant
                n <= buf@.len(),
                i <= n,
                body@ == buf@.take(i as int),
            decreases n - i,
        {
            body.push(buf[i]);
            assert(buf@.take(i + 1) =~= buf@.take(i as int).push(buf@[i as int]));
            i = i + 1;
        }
        assert(buf@.take(buf@.len() as int) =~= buf@);
        Packet::new(self.local_addr, target, body.as_slice(), ecn)
    }

    /// The datagram that sending `buf` to the connected peer makes; fails
    /// when the socket is not connected.
    pub fn datagram_to_peer(&self, buf: &[u8]) -> (r: Result<Packet, SocketError>)
        requires
            self.peer_addr matches Some(peer) ==> self.local_addr.ip.spec_is_v4()
                == peer.ip.spec_is_v4(),
        ensures
            match self.peer_addr {
                None => r == Err::<Packet, SocketError>(SocketError::NotConnected),
                Some(peer) => r matches Ok(p) && is_datagram(
                    p,
                    self.local_addr,
                    peer,
                    sent_body(buf@),
                    None,
                ),
            },
    {
        match self.peer_addr {
            Some(peer) => Ok(self.datagram_to(buf, peer, None)),
            None => Err(SocketError::NotConnected),
        }
    }

    /// Whether the socket takes in a datagram from `sender`: any sender
    /// while it is not connected, only its peer once it is.
    pub open spec fn accepts(self, sender: SocketAddress) -> bool {
        match self.peer_addr {
            Some(peer) => sender == peer,
            None => true,
        }
    }

    /// Holds the received datagram `packet` unless one is held already.
    /// A connected socket drops a datagram that does not come from its
    /// peer, so that what it reads comes from the peer only.
    pub fn fill_peeked(&mut self, packet: Packet)
        ensures
            final(self).peeked == if old(self).peeked is None && old(self).accepts(
                packet.header.spec_socket_addrs().0,
            ) {
                Some(packet)
            } else {
                old(self).peeked
            },
            final(self).local_addr == old(self).local_addr,
            final(self).peer_addr == old(self).peer_addr,
    {
        if self.peeked.is_none() {
            let sender = packet.header.get_src_addr();
            let accepted = match &self.peer_addr {
                Some(peer) => sender.same_as(peer),
                None => true,
            };
            if accepted {
                self.peeked = Some(packet);
            }
        }
    }

    /// Consumes the held datagram: its first `max` body bytes (the rest is
    /// dropped) and its sender.
    pub fn read_peeked(&mut self, max: usize) -> (r: (Vec<u8>, SocketAddress))
        requires
            old(self).peeked is Some,
        ensures
            ({
                let p = old(self).peeked->0;
                &&& r.0@ == first_bytes(p.data@, max as int)
                &&& r.1 == p.header.spec_socket_addrs().0
            }),
            final(self).peeked is None,
            final(self).local_addr == old(self).local_addr,
            final(self).peer_addr == old(self).peer_addr,
    {
        let r = self.peek_from(max);
        self.peeked = None;
        r
    }

    /// Consumes the held datagram as `read_peeked` does, and also gives its
    /// ECN codepoint; the socket's address becomes the datagram's
    /// destination.
    pub fn read_peeked_with_ecn(&mut self, max: usize) -> (r: (Vec<u8>, SocketAddress, Option<Ecn>))
        requires
            old(self).peeked is Some,
        ensures
            ({
                let p = old(self).peeked->0;
                &&& r.0@ == first_bytes(p.data@, max as int)
                &&& r.1 == p.header.spec_socket_addrs().0
                &&& r.2 == p.header.ip_header.spec_ecn()
                &&& final(self).local_addr == p.header.spec_socket_addrs().1
            }),
            final(self).peeked is None,
            final(self).peer_addr == old(self).peer_addr,
    {
        let (to, ecn) = match &self.peeked {
            Some(p) => (p.header.get_dst_addr(), p.header.ip_header.ecn()),
            None => unreached(),
        };
        let (chunk, from) = self.read_peeked(max);
        self.local_addr = to;
        (chunk, from, ecn)
    }

    /// The held datagram's first `max` body bytes and its sender, leaving
    /// it held.
    pub fn peek_from(&self, max: usize) -> (r: (Vec<u8>, SocketAddress))
        requires
            self.peeked is Some,
        ensures
            ({
                let p = self.peeked->0;
                &&& r.0@ == first_bytes(p.data@, max as int)
                &&& r.1 == p.header.spec_socket_addrs().0
            }),
    {
        let p = match &self.peeked {
            Some(p) => p,
            None => unreached(),
        };
        let n = if p.data.len() < max {
            p.data.len()
        } else {
            max
        };
        let mut chunk: Vec<u8> = Vec::new();
        let mut i: usize = 0;
        while i < n
            invariant
                n <= p.data@.len(),
                i <= n,
                chunk@ == p.data@.take(i as int),
            decreases n - i,
        {
            chunk.push(p.data[i]);
            assert(p.data@.take(i + 1) =~= p.data@.take(i as int).push(p.data@[i as int]));
            i = i + 1;
        }
        (chunk, p.header.get_src_addr())
    }

    /// The sender of the held datagram, leaving it held.
    pub fn peek_sender(&self) -> (a: SocketAddress)
        requires
            self.peeked is Some,
        ensures
            a == self.peeked->0.header.spec_socket_addrs().0,
    {
        match &self.peeked {
            Some(p) => p.header.get_src_addr(),
            None => unreached(),
        }
    }
}

} // verus!
