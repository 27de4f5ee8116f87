//! The Kademlia node cache: a routing table around the local node.
use vstd::prelude::*;
use vstd::multiset::Multiset;

use crate::kademlia::bucket::has_node;
use crate::kademlia::id::{Distance, HasId, Id, spec_leading_zeros, spec_shr, xor_seq};
use crate::kademlia::pair::{Pair, node_eq_is_equality};
use crate::kademlia::routing_table::RoutingTable;
use crate::kademlia::siblings::without_ids;
use crate::kademlia::siblings::{SIBLINGS_CAPACITY, lemma_merged_from_inputs, merged_siblings, reverse_vec};
use crate::kademlia::tree::{Tree, nonzero_distance, prefix_zero};

verus! {

broadcast use vstd::seq_lib::group_to_multiset_ensures, vstd::multiset::group_multiset_axioms;

/// The nodes of `nodes` that adding them to a cache with local identifier
/// `local` and tree `tree` goes on with: not the local node, and not in
/// the leaf its distance routes to already.
pub open spec fn kept_nodes<Node: HasId<ID_LEN>, const ID_LEN: usize, const BUCKET_SIZE: usize>(
    local: Id<ID_LEN>,
    tree: Tree<Node, ID_LEN, BUCKET_SIZE>,
    nodes: Seq<Node>,
) -> Seq<Node>
    decreases nodes.len(),
{
    if nodes.len() == 0 {
        nodes
    } else {
        let r = kept_nodes(local, tree, nodes.drop_last());
        let n = nodes.last();
        if n.spec_id() != local && !has_node(
            tree.route_leaf(xor_seq(local.0@, n.spec_id().0@))@,
            n,
        ) {
            r.push(n)
        } else {
            r
        }
    }
}

/// Whether `pairs` are the nodes of `nodes` each with its distance to
/// `local`.
pub open spec fn paired_with_distance<Node: HasId<ID_LEN>, const ID_LEN: usize>(
    local: Id<ID_LEN>,
    nodes: Seq<Node>,
    pairs: Seq<Pair<Node, ID_LEN>>,
) -> bool {
    &&& pairs.len() == nodes.len()
    &&& forall|i: int|
        0 <= i < pairs.len() ==> (#[trigger] pairs[i]).1 == nodes[i] && pairs[i].0.0@ == xor_seq(
            local.0@,
            nodes[i].spec_id().0@,
        )
}

/// Whether every pair's distance has a bit set.
pub open spec fn all_nonzero<Node, const ID_LEN: usize>(s: Seq<Pair<Node, ID_LEN>>) -> bool {
    forall|i: int| 0 <= i < s.len() ==> nonzero_distance(#[trigger] s[i].0.0@, ID_LEN as int)
}

/// The pairs of `s` whose distance has `lz` leading zeros, in order.
pub open spec fn with_leading_zeros<Node, const ID_LEN: usize>(
    s: Seq<Pair<Node, ID_LEN>>,
    lz: nat,
) -> Seq<Pair<Node, ID_LEN>>
    decreases s.len(),
{
    if s.len() == 0 {
        s
    } else {
        let r = with_leading_zeros(s.drop_last(), lz);
        if spec_leading_zeros(s.last().0.0@) == lz {
            r.push(s.last())
        } else {
            r
        }
    }
}

/// `nodes` grouped by the leading zeros of their distance to `local`, in
/// the order the groups first appear: each count of leading zeros with
/// the identifier of the group's first node.
pub open spec fn probe_groups<Node: HasId<ID_LEN>, const ID_LEN: usize>(
    local: Id<ID_LEN>,
    nodes: Seq<Node>,
) -> Seq<(nat, Id<ID_LEN>)>
    decreases nodes.len(),
{
    if nodes.len() == 0 {
        Seq::empty()
    } else {
        let r = probe_groups(local, nodes.drop_last());
        let id = nodes.last().spec_id();
        let lz = spec_leading_zeros(xor_seq(id.0@, local.0@));
        if exists|i: int| 0 <= i < r.len() && r[i].0 == lz {
            r
        } else {
            r.push((lz, id))
        }
    }
}

/// A node's distance to another identifier has a bit set.
proof fn lemma_distinct_ids_nonzero<const ID_LEN: usize>(a: Id<ID_LEN>, b: Id<ID_LEN>)
    requires
        a != b,
    ensures
        nonzero_distance(xor_seq(a.0@, b.0@), ID_LEN as int),
{
    let d = xor_seq(a.0@, b.0@);
    crate::kademlia::id::lemma_xor_distance_zero(a, b);
    crate::kademlia::id::lemma_leading_zeros_first_set_bit(d);
    crate::kademlia::id::lemma_leading_zeros_full(d);
    let i = choose|i: int| 0 <= i < ID_LEN && !(#[trigger] xor_seq(a.0@, b.0@)[i] == 0);
    assert(spec_leading_zeros(d) < 8 * ID_LEN);
}

/// The random distances `bootstrap_addrs` draws: their bytes.
#[verifier::external_body]
fn random_distance_bytes<const ID_LEN: usize>() -> [u8; ID_LEN] {
    rand::random::<[u8; ID_LEN]>()
}

/// The identifier at distance `random` shifted toward the back by
/// `8 * ID_LEN - shift_by` bits from `local`: an identifier in the bucket
/// of `local` whose leading zeros leave `shift_by` bits free.
pub fn shifted_target_id<const ID_LEN: usize>(
    local: &Id<ID_LEN>,
    shift_by: usize,
    random: [u8; ID_LEN],
) -> (id: Id<ID_LEN>)
    requires
        shift_by <= 8 * ID_LEN,
        8 * ID_LEN <= usize::MAX,
    ensures
        id.0@ == xor_seq(spec_shr(random@, 8 * ID_LEN - shift_by), local.0@),
{
    let shifted = Distance::new(random).shr(ID_LEN * 8 - shift_by);
    shifted.xor_with_id(local)
}

/// The node cache of the local node `local`.
pub struct NodeCache<Node, const ID_LEN: usize, const BUCKET_SIZE: usize> {
    pub table: RoutingTable<Node, ID_LEN, BUCKET_SIZE>,
    pub local: Node,
}

impl<Node: HasId<ID_LEN>, const ID_LEN: usize, const BUCKET_SIZE: usize> NodeCache<
    Node,
    ID_LEN,
    BUCKET_SIZE,
> {
    /// A cache with an empty table around `local`.
    pub fn new(local: Node) -> (c: Self)
        ensures
            c.table.wf(),
            c.table.tree.contents() == Seq::<Pair<Node, ID_LEN>>::empty(),
            c.table.nearest_siblings_list@ == Seq::<Pair<Node, ID_LEN>>::empty(),
            c.table.bucket_times() == Map::<usize, Option<u64>>::empty(),
            c.local == local,
    {
        NodeCache { table: RoutingTable::new(), local }
    }

    /// Marks the bucket of `id` as looked up at `now`.
    pub fn on_node_lookup(&mut self, id: &Id<ID_LEN>, now: u64)
        requires
            old(self).table.wf(),
            ID_LEN * 8 <= usize::MAX,
        ensures
            final(self).local == old(self).local,
            final(self).table.wf(),
            final(self).table.tree == old(self).table.tree,
            final(self).table.nearest_siblings_list == old(self).table.nearest_siblings_list,
            final(self).table.bucket_times() == old(self).table.bucket_times().insert(
                spec_leading_zeros(xor_seq(old(self).local.spec_id().0@, id.0@)) as usize,
                Some(now),
            ),
    {
        let dist = self.local.id().xor_distance(id);
        self.table.mark_bucket_as_looked_up(&dist, now);
    }

    /// The known nodes near `address` (see `RoutingTable::find_node`).
    pub fn nearby_nodes(&self, address: &Id<ID_LEN>) -> (v: Vec<&Node>)
        requires
            self.table.wf(),
            (8 * ID_LEN + 1) * BUCKET_SIZE <= usize::MAX,
            8 * ID_LEN <= usize::MAX,
            BUCKET_SIZE / 2 + SIBLINGS_CAPACITY <= usize::MAX,
        ensures
            v@.len() == self.table.spec_find_node(xor_seq(address.0@, self.local.spec_id().0@)).len(),
            forall|i: int|
                0 <= i < v@.len() ==> *v@[i] == self.table.spec_find_node(
                    xor_seq(address.0@, self.local.spec_id().0@),
                )[i].1,
    {
        let dist = address.xor_distance(self.local.id());
        let pairs = self.table.find_node(dist);
        let mut v: Vec<&Node> = Vec::new();
        let mut i: usize = 0;
        while i < pairs.len()
            invariant
                i <= pairs@.len(),
                v@.len() == i,
                forall|k: int| 0 <= k < i ==> *v@[k] == (*pairs@[k]).1,
            decreases pairs@.len() - i,
        {
            v.push(&pairs[i].1);
            i = i + 1;
        }
        v
    }
}

impl<Node: HasId<ID_LEN> + PartialEq, const ID_LEN: usize, const BUCKET_SIZE: usize> NodeCache<
    Node,
    ID_LEN,
    BUCKET_SIZE,
> {
    /// Adds nodes: the ones that are not the local node and not in their
    /// leaf already are offered to the siblings list; what it evicts is
    /// inserted into the tree, a leaf (by leading zeros, fewest first) at a
    /// time. An insertion into a full leaf is dropped.
    pub fn add_nodes(&mut self, nodes: Vec<Node>)
        requires
            old(self).table.wf(),
            all_nonzero(old(self).table.nearest_siblings_list@),
            BUCKET_SIZE > 0,
            node_eq_is_equality::<Node>(),
            (8 * ID_LEN + 1) * BUCKET_SIZE <= usize::MAX,
            nodes@.len() + SIBLINGS_CAPACITY <= usize::MAX,
        ensures
            final(self).local == old(self).local,
            final(self).table.wf(),
            all_nonzero(final(self).table.nearest_siblings_list@),
            exists|fresh: Seq<Pair<Node, ID_LEN>>|
                {
                    let m = merged_siblings(old(self).table.nearest_siblings_list@, fresh);
                    let cut = if m.len() < SIBLINGS_CAPACITY {
                        m.len() as int
                    } else {
                        SIBLINGS_CAPACITY as int
                    };
                    &&& #[trigger] paired_with_distance(
                        old(self).local.spec_id(),
                        kept_nodes(old(self).local.spec_id(), old(self).table.tree, nodes@),
                        fresh,
                    )
                    &&& final(self).table.nearest_siblings_list@ == m.take(cut)
                    &&& old(self).table.tree.contents().to_multiset().subset_of(
                        final(self).table.tree.contents().to_multiset(),
                    )
                    &&& final(self).table.tree.contents().to_multiset().subset_of(
                        old(self).table.tree.contents().to_multiset().add(m.skip(cut).to_multiset()),
                    )
                    &&& forall|p: Pair<Node, ID_LEN>|
                        #[trigger] m.skip(cut).contains(p) ==> has_node(
                            final(self).table.tree.contents(),
                            p.1,
                        ) || final(self).table.tree.route_leaf(p.0.0@)@.len() == BUCKET_SIZE
                },
    {
        proof {
            assert(8 * ID_LEN <= (8 * ID_LEN + 1) * BUCKET_SIZE) by (nonlinear_arith)
                requires
                    BUCKET_SIZE > 0,
            ;
        }
        let local_id: Id<ID_LEN> = *self.local.id();
        let ghost old_tree = self.table.tree;
        let ghost ns = nodes@;
        let mut rev = reverse_vec(nodes);
        let mut fresh: Vec<Pair<Node, ID_LEN>> = Vec::new();
        assert(ns.take(0) =~= Seq::<Node>::empty());
        while rev.len() > 0
            invariant
                rev@.len() <= ns.len(),
                forall|i: int| 0 <= i < rev@.len() ==> rev@[i] == ns[ns.len() - 1 - i],
                self.table == old(self).table,
                self.table.wf(),
                self.local == old(self).local,
                local_id == old(self).local.spec_id(),
                old_tree == old(self).table.tree,
                old_tree.wf(),
                old_tree.spec_depth() == 0,
                8 * ID_LEN <= usize::MAX,
                node_eq_is_equality::<Node>(),
                paired_with_distance(
                    local_id,
                    kept_nodes(local_id, old_tree, ns.take(ns.len() - rev@.len())),
                    fresh@,
                ),
                all_nonzero(fresh@),
                fresh@.len() <= ns.len() - rev@.len(),
            decreases rev@.len(),
        {
            let ghost k = ns.len() - rev@.len();
            let n = rev.pop().unwrap();
            assert(n == ns[k]);
            assert(ns.take(k + 1).drop_last() =~= ns.take(k));
            if !local_id.same_as(n.id()) {
                let pair = Pair::from_node(n, &local_id);
                let contained = self.table.get_leaf(&pair.0).contains(&pair);
                if !contained {
                    proof {
                        lemma_distinct_ids_nonzero(local_id, pair.1.spec_id());
                    }
                    fresh.push(pair);
                }
            }
        }
        assert(ns.take(ns.len() as int) =~= ns);
        let ghost fresh_pairs = fresh@;
        let listed = self.table.nearest_siblings_list.len();
        let ghost old_list = self.table.nearest_siblings_list@;
        let mut pending = self.table.maybe_add_nodes_to_siblings_list(fresh);
        let ghost m = merged_siblings(old_list, fresh_pairs);
        let ghost cut: int = if m.len() < SIBLINGS_CAPACITY {
            m.len() as int
        } else {
            SIBLINGS_CAPACITY as int
        };
        proof {
            lemma_merged_from_inputs(old_list, fresh_pairs);
            assert forall|i: int| 0 <= i < m.len() implies nonzero_distance(
                #[trigger] m[i].0.0@,
                ID_LEN as int,
            ) by {
                if old_list.contains(m[i]) {
                    let k = choose|k: int| 0 <= k < old_list.len() && old_list[k] == m[i];
                    assert(nonzero_distance(old_list[k].0.0@, ID_LEN as int));
                } else {
                    assert(fresh_pairs.contains(m[i]));
                    let k = choose|k: int| 0 <= k < fresh_pairs.len() && fresh_pairs[k] == m[i];
                    assert(nonzero_distance(fresh_pairs[k].0.0@, ID_LEN as int));
                }
            }
            assert(all_nonzero(self.table.nearest_siblings_list@));
        }
        let ghost leftover = pending@;
        let ghost siblings_after = self.table.nearest_siblings_list;
        let ghost base = old_tree.contents().to_multiset();
        let ghost mut inserted: Multiset<Pair<Node, ID_LEN>> = Multiset::empty();
        let mut lz: usize = 0;
        while lz <= 8 * ID_LEN
            invariant
                self.table.wf(),
                self.local == old(self).local,
                self.table.nearest_siblings_list == siblings_after,
                all_nonzero(self.table.nearest_siblings_list@),
                BUCKET_SIZE > 0,
                node_eq_is_equality::<Node>(),
                (8 * ID_LEN + 1) * BUCKET_SIZE <= usize::MAX,
                8 * ID_LEN <= usize::MAX,
                all_nonzero(pending@),
                forall|i: int|
                    0 <= i < pending@.len() ==> spec_leading_zeros(#[trigger] pending@[i].0.0@)
                        >= lz,
                pending@.to_multiset().add(inserted) == leftover.to_multiset(),
                base.subset_of(self.table.tree.contents().to_multiset()),
                self.table.tree.contents().to_multiset().subset_of(base.add(inserted)),
                forall|q: Pair<Node, ID_LEN>|
                    #[trigger] inserted.count(q) > 0 ==> has_node(self.table.tree.contents(), q.1)
                        || self.table.tree.settled(q.0.0@),
            decreases 8 * ID_LEN + 1 - lz,
        {
            let mut rest: Vec<Pair<Node, ID_LEN>> = Vec::new();
            while pending.len() > 0
                invariant
                    self.table.wf(),
                    self.local == old(self).local,
                    self.table.nearest_siblings_list == siblings_after,
                    all_nonzero(self.table.nearest_siblings_list@),
                    BUCKET_SIZE > 0,
                    node_eq_is_equality::<Node>(),
                    (8 * ID_LEN + 1) * BUCKET_SIZE <= usize::MAX,
                    8 * ID_LEN <= usize::MAX,
                    lz <= 8 * ID_LEN,
                    all_nonzero(rest@),
                    all_nonzero(pending@),
                    forall|i: int|
                        0 <= i < rest@.len() ==> spec_leading_zeros(#[trigger] rest@[i].0.0@) > lz,
                    forall|i: int|
                        0 <= i < pending@.len() ==> spec_leading_zeros(#[trigger] pending@[i].0.0@)
                            >= lz,
                    rest@.to_multiset().add(pending@.to_multiset()).add(inserted)
                        == leftover.to_multiset(),
                    base.subset_of(self.table.tree.contents().to_multiset()),
                    self.table.tree.contents().to_multiset().subset_of(base.add(inserted)),
                    forall|q: Pair<Node, ID_LEN>|
                        #[trigger] inserted.count(q) > 0 ==> has_node(self.table.tree.contents(), q.1)
                            || self.table.tree.settled(q.0.0@),
                decreases pending@.len(),
            {
                let ghost before = pending@;
                let pair = pending.remove(0);
                proof {
                    assert(before =~= pending@.insert(0, pair));
                    assert(before.to_multiset() == pending@.to_multiset().insert(pair));
                }
                let pair_lz = pair.0.leading_zeros();
                if pair_lz == lz {
                    let ghost tree_before = self.table.tree.contents().to_multiset();
                    let ghost before_contents = self.table.tree.contents();
                    let ghost inserted_before = inserted;
                    let res = self.table.insert_into_leaf(pair);
                    proof {
                        broadcast use vstd::multiset::group_multiset_axioms;
                        assert forall|q: Pair<Node, ID_LEN>|
                            #[trigger] inserted_before.count(q) > 0 implies has_node(
                                self.table.tree.contents(),
                                q.1,
                            ) || self.table.tree.settled(q.0.0@) by {
                            crate::kademlia::tree::lemma_has_node_sub(
                                before_contents,
                                self.table.tree.contents(),
                                self.table.tree.contents(),
                                q.1,
                            );
                        }
                        inserted = inserted.insert(pair);
                        assert forall|q: Pair<Node, ID_LEN>|
                            #[trigger] inserted.count(q) > 0 implies has_node(self.table.tree.contents(), q.1)
                                || self.table.tree.settled(q.0.0@) by {
                            if q != pair {
                                assert(inserted_before.count(q) > 0);
                            }
                        }
                        assert(rest@.to_multiset().add(pending@.to_multiset()).add(inserted)
                            =~= leftover.to_multiset());
                        assert(self.table.tree.contents().to_multiset().subset_of(base.add(inserted)));
                    }
                } else {
                    let ghost rest_before = rest@;
                    rest.push(pair);
                    proof {
                        assert(rest@.to_multiset() == rest_before.to_multiset().insert(pair));
                        assert(rest@.to_multiset().add(pending@.to_multiset()).add(inserted)
                            =~= leftover.to_multiset());
                    }
                }
            }
            pending = rest;
            lz = lz + 1;
        }
        proof {
            assert(pending@.len() == 0) by {
                if pending@.len() > 0 {
                    crate::kademlia::id::lemma_leading_zeros_first_set_bit(pending@[0].0.0@);
                }
            }
            assert(pending@ =~= Seq::<Pair<Node, ID_LEN>>::empty());
            assert(pending@.to_multiset() =~= Multiset::empty());
            assert(inserted =~= leftover.to_multiset());
            assert(paired_with_distance(
                old(self).local.spec_id(),
                kept_nodes(old(self).local.spec_id(), old(self).table.tree, nodes@),
                fresh_pairs,
            ));
            assert(leftover == m.skip(cut));
            assert(self.table.nearest_siblings_list@ == m.take(cut));
            assert forall|p: Pair<Node, ID_LEN>| #[trigger] m.skip(cut).contains(p) implies has_node(
                self.table.tree.contents(),
                p.1,
            ) || self.table.tree.route_leaf(p.0.0@)@.len() == BUCKET_SIZE by {
                broadcast use vstd::seq_lib::group_to_multiset_ensures;
                assert(leftover.contains(p));
                assert(leftover.to_multiset().count(p) > 0);
                assert(inserted.count(p) > 0);
            }
        }
    }
}

/// Whether `ids` are the `lz` bootstrap targets around `local` made of the
/// random distances `randoms`: the `i`-th is `local` at the `i`-th random
/// distance shifted toward the back by `lz - i` bits.
pub open spec fn bootstrap_targets<const ID_LEN: usize>(
    local: Id<ID_LEN>,
    lz: nat,
    randoms: Seq<[u8; ID_LEN]>,
    ids: Seq<Id<ID_LEN>>,
) -> bool {
    &&& randoms.len() == lz
    &&& ids.len() == lz
    &&& forall|i: int|
        0 <= i < lz ==> (#[trigger] ids[i]).0@ == xor_seq(spec_shr(randoms[i]@, lz - i), local.0@)
}

/// Whether `id` is one of `ids`.
pub fn contains_id<const ID_LEN: usize>(ids: &[Id<ID_LEN>], id: &Id<ID_LEN>) -> (b: bool)
    ensures
        b == ids@.contains(*id),
{
    let mut i: usize = 0;
    while i < ids.len()
        invariant
            i <= ids@.len(),
            forall|j: int| 0 <= j < i ==> ids@[j] != *id,
        decreases ids@.len() - i,
    {
        if ids[i].same_as(id) {
            return true;
        }
        i = i + 1;
    }
    false
}

impl<Node: HasId<ID_LEN>, const ID_LEN: usize, const BUCKET_SIZE: usize> NodeCache<
    Node,
    ID_LEN,
    BUCKET_SIZE,
> {
    /// The identifiers to look up to fill the buckets farther than the
    /// nearest known node: none when no node is known; else, for the `lz`
    /// leading zero bits of the distance to the nearest node, one random
    /// identifier in each of the `lz` buckets nearer than it.
    pub fn bootstrap_addrs(&self) -> (ids: Vec<Id<ID_LEN>>)
        requires
            self.table.wf(),
            (8 * ID_LEN + 1) * BUCKET_SIZE <= usize::MAX,
            8 * ID_LEN <= usize::MAX,
            BUCKET_SIZE / 2 + SIBLINGS_CAPACITY <= usize::MAX,
        ensures
            ({
                let local = self.local.spec_id();
                let near = self.table.spec_find_node(xor_seq(local.0@, local.0@));
                &&& near.len() == 0 ==> ids@.len() == 0
                &&& near.len() > 0 ==> exists|randoms: Seq<[u8; ID_LEN]>|
                    #[trigger] bootstrap_targets(
                        local,
                        spec_leading_zeros(xor_seq(local.0@, near[0].1.spec_id().0@)),
                        randoms,
                        ids@,
                    )
            }),
    {
        let local_id = self.local.id();
        let near = self.nearby_nodes(local_id);
        if near.len() == 0 {
            return Vec::new();
        }
        let dist_to_nearest = local_id.xor_distance(near[0].id());
        let lz_count = dist_to_nearest.leading_zeros();
        proof {
            crate::kademlia::id::lemma_leading_zeros_first_set_bit(dist_to_nearest.0@);
        }
        let shift_by = ID_LEN * 8 - lz_count;
        let mut ids: Vec<Id<ID_LEN>> = Vec::new();
        let mut k: usize = 0;
        let ghost mut randoms: Seq<[u8; ID_LEN]> = Seq::empty();
        while k < lz_count
            invariant
                lz_count <= 8 * ID_LEN,
                8 * ID_LEN <= usize::MAX,
                shift_by == 8 * ID_LEN - lz_count,
                k <= lz_count,
                ids@.len() == k,
                randoms.len() == k,
                forall|i: int|
                    0 <= i < k ==> (#[trigger] ids@[i]).0@ == xor_seq(
                        spec_shr(randoms[i]@, lz_count - i),
                        local_id.0@,
                    ),
            decreases lz_count - k,
        {
            let random = random_distance_bytes::<ID_LEN>();
            let id = shifted_target_id(local_id, shift_by + k, random);
            proof {
                assert(8 * ID_LEN - (shift_by + k) == lz_count - k);
                randoms = randoms.push(random);
            }
            ids.push(id);
            k = k + 1;
        }
        assert(bootstrap_targets(*local_id, lz_count as nat, randoms, ids@));
        ids
    }

    /// The nodes to ping before `nodes` are added, by bucket: for each group
    /// of `nodes` by the leading zeros of their distance to the local node
    /// (see `probe_groups`), the count and the nodes of the leaf that the
    /// distance of the group's first node routes to.
    pub fn removal_probes(&self, nodes: &[Node]) -> (probes: Vec<(usize, Vec<&Node>)>)
        requires
            self.table.wf(),
            8 * ID_LEN <= usize::MAX,
        ensures
            probes@.len() == probe_groups(self.local.spec_id(), nodes@).len(),
            forall|i: int|
                0 <= i < probes@.len() ==> {
                    let g = #[trigger] probe_groups(self.local.spec_id(), nodes@)[i];
                    let leaf = self.table.tree.route_leaf(xor_seq(g.1.0@, self.local.spec_id().0@))@;
                    &&& probes@[i].0 == g.0
                    &&& probes@[i].1@.len() == leaf.len()
                    &&& forall|j: int| 0 <= j < leaf.len() ==> *probes@[i].1@[j] == leaf[j].1
                },
    {
        let local_id = self.local.id();
        let mut probes: Vec<(usize, Vec<&Node>)> = Vec::new();
        let mut k: usize = 0;
        assert(nodes@.take(0) =~= Seq::<Node>::empty());
        while k < nodes.len()
            invariant
                k <= nodes@.len(),
                self.table.wf(),
                8 * ID_LEN <= usize::MAX,
                *local_id == self.local.spec_id(),
                probes@.len() == probe_groups(self.local.spec_id(), nodes@.take(k as int)).len(),
                forall|i: int|
                    0 <= i < probes@.len() ==> {
                        let g = #[trigger] probe_groups(self.local.spec_id(), nodes@.take(k as int))[i];
                        let leaf = self.table.tree.route_leaf(
                            xor_seq(g.1.0@, self.local.spec_id().0@),
                        )@;
                        &&& probes@[i].0 == g.0
                        &&& probes@[i].1@.len() == leaf.len()
                        &&& forall|j: int| 0 <= j < leaf.len() ==> *probes@[i].1@[j] == leaf[j].1
                    },
            decreases nodes@.len() - k,
        {
            let ghost before = probe_groups(self.local.spec_id(), nodes@.take(k as int));
            assert(nodes@.take(k + 1).drop_last() =~= nodes@.take(k as int));
            let id = nodes[k].id();
            let d = id.xor_distance(local_id);
            let lz = d.leading_zeros();
            let mut found = false;
            let mut g: usize = 0;
            while g < probes.len()
                invariant
                    g <= probes@.len(),
                    probes@.len() == before.len(),
                    forall|i: int| 0 <= i < probes@.len() ==> probes@[i].0 == before[i].0,
                    found == exists|i: int| 0 <= i < g && before[i].0 == lz,
                decreases probes@.len() - g,
            {
                assert(probes@[g as int].0 == before[g as int].0);
                if probes[g].0 == lz {
                    found = true;
                }
                g = g + 1;
                proof {
                    if !found {
                        assert forall|i: int| 0 <= i < g implies before[i].0 != lz by {
                            if i == g - 1 {
                                assert(probes@[i].0 == before[i].0);
                            }
                        }
                    }
                }
            }
            if !found {
                let leaf = self.table.get_leaf(&d);
                let pairs = leaf.iter();
                let mut refs: Vec<&Node> = Vec::new();
                let mut j: usize = 0;
                while j < pairs.len()
                    invariant
                        j <= pairs@.len(),
                        refs@.len() == j,
                        forall|x: int| 0 <= x < j ==> *refs@[x] == pairs@[x].1,
                    decreases pairs@.len() - j,
                {
                    refs.push(&pairs[j].1);
                    j = j + 1;
                }
                probes.push((lz, refs));
            }
            k = k + 1;
        }
        assert(nodes@.take(nodes@.len() as int) =~= nodes@);
        probes
    }

    /// Drops the siblings list's pairs whose node's identifier is in
    /// `siblings`, and, for each list of `leaves`, the pairs of the leaf
    /// its first identifier's distance routes to whose node's identifier is
    /// in that list.
    pub fn remove_candidates(&mut self, siblings: &[Id<ID_LEN>], leaves: &[Vec<Id<ID_LEN>>])
        where
            Node: PartialEq,
        requires
            old(self).table.wf(),
            BUCKET_SIZE > 0,
            node_eq_is_equality::<Node>(),
            (8 * ID_LEN + 1) * BUCKET_SIZE <= usize::MAX,
        ensures
            final(self).local == old(self).local,
            final(self).table.wf(),
            final(self).table.nearest_siblings_list@ == without_ids(
                old(self).table.nearest_siblings_list@,
                siblings@,
            ),
            final(self).table.tree.contents().to_multiset().subset_of(
                old(self).table.tree.contents().to_multiset(),
            ),
    {
        proof {
            assert(8 * ID_LEN <= (8 * ID_LEN + 1) * BUCKET_SIZE) by (nonlinear_arith)
                requires
                    BUCKET_SIZE > 0,
            ;
        }
        self.table.remove_unreachable_siblings_list_nodes(siblings);
        let ghost siblings_after = self.table.nearest_siblings_list;
        let mut g: usize = 0;
        while g < leaves.len()
            invariant
                g <= leaves@.len(),
                self.local == old(self).local,
                self.table.wf(),
                self.table.nearest_siblings_list == siblings_after,
                BUCKET_SIZE > 0,
                node_eq_is_equality::<Node>(),
                (8 * ID_LEN + 1) * BUCKET_SIZE <= usize::MAX,
                8 * ID_LEN <= usize::MAX,
                self.table.tree.contents().to_multiset().subset_of(
                    old(self).table.tree.contents().to_multiset(),
                ),
            decreases leaves@.len() - g,
        {
            let ids = &leaves[g];
            if ids.len() > 0 {
                let dist = ids[0].xor_distance(self.local.id());
                let ghost before = self.table.tree.contents().to_multiset();
                let mut leaf = self.table.get_leaf_mut(&dist);
                leaf.remove_where(|p: &Pair<Node, ID_LEN>| contains_id(ids.as_slice(), p.1.id()));
                proof {
                    let after = self.table.tree.contents().to_multiset();
                    let (l, keep) = choose|l: Seq<Pair<Node, ID_LEN>>, keep: Seq<bool>|
                        {
                            &&& l.to_multiset().subset_of(before)
                            &&& after.add(l.to_multiset()) == before.add(
                                crate::kademlia::bucket::keep_flagged(l, keep).to_multiset(),
                            )
                        };
                    crate::kademlia::bucket::lemma_keep_flagged_submultiset(l, keep);
                    assert forall|x| after.count(x) <= before.count(x) by {
                        assert(after.add(l.to_multiset()).count(x) == before.add(
                            crate::kademlia::bucket::keep_flagged(l, keep).to_multiset(),
                        ).count(x));
                    }
                }
            }
            g = g + 1;
        }
    }
}

/// The identifiers of `ids` whose ping in `answers` got no answer, in
/// order.
pub open spec fn ids_unanswered<const N: usize>(ids: Seq<Id<N>>, answers: Seq<bool>) -> Seq<Id<N>>
    decreases ids.len(),
{
    if ids.len() == 0 {
        Seq::empty()
    } else {
        let rest = ids_unanswered(ids.drop_last(), answers);
        if !answers[ids.len() - 1] {
            rest.push(ids.last())
        } else {
            rest
        }
    }
}

/// The removal candidates from one round of pings: the identifiers of
/// `ids` whose ping returned false (the node did not answer), in order.
/// Both the siblings-list nodes and the nodes of a leaf that new nodes fall
/// in are culled this way.
pub fn unanswered_ids<const N: usize>(ids: &[Id<N>], answers: &[bool]) -> (r: Vec<Id<N>>)
    requires
        ids@.len() == answers@.len(),
    ensures
        r@ == ids_unanswered(ids@, answers@),
{
    let mut r: Vec<Id<N>> = Vec::new();
    let mut i: usize = 0;
    while i < ids.len()
        invariant
            i <= ids@.len(),
            ids@.len() == answers@.len(),
            r@ == ids_unanswered(ids@.take(i as int), answers@),
        decreases ids@.len() - i,
    {
        proof {
            assert(ids@.take(i + 1).drop_last() =~= ids@.take(i as int));
            assert(ids@.take(i + 1).last() == ids@[i as int]);
        }
        if !answers[i] {
            r.push(ids[i]);
        }
        i = i + 1;
    }
    proof {
        assert(ids@.take(ids@.len() as int) =~= ids@);
    }
    r
}

} // verus!
