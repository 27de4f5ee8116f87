# dens

A library for simulating networks of machines deterministically, and a
Kademlia routing layer that runs on it, written in Verus. The logic is in
`src/` and verified; `app/` is the runtime around it (Tokio tasks, channels,
the simulated clock, floating-point latency and loss), which Verus does not
see.

## Layout

- `src/net/`: IPv4/IPv6 and UDP headers (`ip`, `udp`), ECN codepoints,
  socket addresses, parse errors, the routes of a simulated network
  (`routes`: longest-prefix lookup, partitions, address ranges) and address
  translation (`translator`: port mappings, firewalls, the NAT decision).
- `src/udp.rs`: UDP datagrams framed with their IP header in one pass.
- `src/checksum.rs`: the Internet checksum.
- `src/os_mock.rs`, `src/socket.rs`: the socket table of a simulated host
  and the state of one UDP socket.
- `src/host.rs`, `src/sim.rs`: the simulated DNS, host address generators,
  machine identities.
- `src/kademlia/`: identifiers and XOR distance, buckets, the bucket tree,
  the siblings list, the routing table, the node cache, node status, the
  lookup steps, and how identifiers are written out.
- `src/cose.rs`, `src/max_sized_string.rs`: CBOR items of COSE header maps,
  and length-bounded strings, encoded and decoded through `minicbor`.
- `src/assoc.rs`: maps held as vectors of pairs with distinct keys.
- `tests/`: tests of the library on concrete values.
- `app/`: the simulator runtime, with copies of library types that carry
  outside derives.

Calls into outside crates (`ip_network`, `ip_network_table`, `minicbor`,
`quinn-udp`, `rand`) stand behind small trusted wrappers whose contracts
say what those crates document; everything around them is proved.
