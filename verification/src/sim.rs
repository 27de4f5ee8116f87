//! Identities of simulated machines.
use vstd::prelude::*;

verus! {

/// An opaque identity that tells simulated hosts apart.
#[derive(Clone, Copy, Debug, PartialEq, Eq, Hash, Structural)]
pub struct MachineId {
    pub id: u64,
}

/// Where the identities of machines are counted from: each new identity
/// takes the next value, wrapping around after the largest.
pub struct MachineIdCounter {
    next: u64,
}

/// The value after `n`, wrapping around.
pub open spec fn next_id(n: u64) -> u64 {
    if n == u64::MAX {
        0
    } else {
        (n + 1) as u64
    }
}

/// The identity value handed out `i` calls after the counter stood at
/// `start`.
pub open spec fn issued_id(start: u64, i: nat) -> u64 {
    ((start + i) % 0x1_0000_0000_0000_0000) as u64
}

impl MachineIdCounter {
    /// The value the next identity gets.
    pub closed spec fn spec_next(&self) -> u64 {
        self.next
    }

    /// A counter that starts at 0.
    pub fn new() -> (c: Self)
        ensures
            c.spec_next() == 0,
    {
        MachineIdCounter { next: 0 }
    }
}

impl MachineId {
    /// A new identity: the counter's value, which then moves on by one.
    pub fn new(counter: &mut MachineIdCounter) -> (m: MachineId)
        ensures
            m.id == old(counter).spec_next(),
            final(counter).spec_next() == next_id(old(counter).spec_next()),
    {
        let id = counter.next;
        counter.next = counter.next.wrapping_add(1);
        MachineId { id }
    }
}

/// Identities handed out by one counter are pairwise distinct, as long as
/// fewer than 2^64 are handed out.
pub proof fn lemma_issued_ids_distinct(start: u64, i: nat, j: nat)
    requires
        i < j < 0x1_0000_0000_0000_0000,
    ensures
        issued_id(start, i) != issued_id(start, j),
{
    lemma_mod_below_twice(start + i);
    lemma_mod_below_twice(start + j);
}

/// Below twice 2^64, taking the remainder subtracts 2^64 once at most.
proof fn lemma_mod_below_twice(x: int)
    requires
        0 <= x < 2 * 0x1_0000_0000_0000_0000,
    ensures
        x % 0x1_0000_0000_0000_0000 == if x < 0x1_0000_0000_0000_0000 {
            x
        } else {
            x - 0x1_0000_0000_0000_0000
        },
{
    if x < 0x1_0000_0000_0000_0000 {
        vstd::arithmetic::div_mod::lemma_small_mod(x as nat, 0x1_0000_0000_0000_0000);
    } else {
        vstd::arithmetic::div_mod::lemma_mod_sub_multiples_vanish(x, 0x1_0000_0000_0000_0000);
        vstd::arithmetic::div_mod::lemma_small_mod(
            (x - 0x1_0000_0000_0000_0000) as nat,
            0x1_0000_0000_0000_0000,
        );
    }
}

/// Moving a counter on by one call is what `issued_id` counts.
pub proof fn lemma_next_id_issued(start: u64, i: nat)
    ensures
        next_id(issued_id(start, i)) == issued_id(start, i + 1),
{
    let m: int = 0x1_0000_0000_0000_0000;
    vstd::arithmetic::div_mod::lemma_add_mod_noop(start + i, 1, m);
    vstd::arithmetic::div_mod::lemma_small_mod(1, m as nat);
    vstd::arithmetic::div_mod::lemma_mod_bound(start + i, m);
    lemma_mod_below_twice((start + i) % m + 1);
}

/// Something that has a machine identity.
pub trait HasMachineId {
    spec fn spec_machine_id(&self) -> MachineId;

    fn id(&self) -> (r: MachineId)
        ensures
            r == self.spec_machine_id(),
    ;
}

impl HasMachineId for MachineId {
    open spec fn spec_machine_id(&self) -> MachineId {
        *self
    }

    fn id(&self) -> (r: MachineId) {
        *self
    }
}

} // verus!
