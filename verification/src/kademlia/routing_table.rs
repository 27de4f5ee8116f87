//! The routing table: the tree of buckets, the siblings list of the nearest
//! nodes, and when each bucket was last looked up.
use vstd::prelude::*;

use crate::assoc;
use crate::assoc::{keys_distinct, lemma_to_map, to_map};
use crate::kademlia::bucket::Leaf;
use crate::kademlia::id::{Distance, Id, spec_leading_zeros};
use crate::kademlia::pair::{Pair, node_eq_is_equality};
use crate::kademlia::siblings::{SIBLINGS_CAPACITY, SiblingsList, first_not_below, merged_siblings, without_ids};
use crate::kademlia::tree::{LeafMut, Tree};

verus! {

/// Why a pair was refused.
pub enum Error<Node, const ID_LEN: usize> {
    /// The pair is out of the table's range; it is handed back.
    OutOfRange(Pair<Node, ID_LEN>),
}

impl<Node, const ID_LEN: usize> Error<Node, ID_LEN> {
    /// The pair that was refused.
    pub fn into_pair(self) -> (p: Pair<Node, ID_LEN>)
        ensures
            self matches Error::OutOfRange(q) && p == q,
    {
        match self {
            Error::OutOfRange(pair) => pair,
        }
    }
}

/// The identifiers of the buckets in `s` that count as stale at `now` for
/// `duration`: those never looked up, and those looked up less than
/// `duration` before `now`.
pub open spec fn stale_bucket_ids(s: Seq<(usize, Option<u64>)>, duration: u64, now: u64) -> Seq<
    usize,
>
    decreases s.len(),
{
    if s.len() == 0 {
        Seq::empty()
    } else {
        let r = stale_bucket_ids(s.drop_last(), duration, now);
        let (id, at) = s.last();
        let keep = match at {
            None => true,
            Some(t) => (if now > t {
                now - t
            } else {
                0
            }) < duration,
        };
        if keep {
            r.push(id)
        } else {
            r
        }
    }
}

/// The routing table of a node.
pub struct RoutingTable<Node, const ID_LEN: usize, const BUCKET_SIZE: usize> {
    pub tree: Tree<Node, ID_LEN, BUCKET_SIZE>,
    pub nearest_siblings_list: SiblingsList<Node, ID_LEN>,
    /// For each bucket, by its number of leading zeros, when it was last
    /// looked up: `None` when it has not been since the table started.
    pub bucket_updated_at: Vec<(usize, Option<u64>)>,
}

impl<Node, const ID_LEN: usize, const BUCKET_SIZE: usize> RoutingTable<Node, ID_LEN, BUCKET_SIZE> {
    /// The table's tree is well formed from the root, and each bucket has
    /// one time.
    pub open spec fn wf(&self) -> bool {
        &&& self.tree.wf()
        &&& self.tree.spec_depth() == 0
        &&& keys_distinct(self.bucket_updated_at@)
    }

    /// When each bucket was last looked up.
    pub open spec fn bucket_times(&self) -> Map<usize, Option<u64>> {
        to_map(self.bucket_updated_at@)
    }

    /// The pairs `find_node` gives for a distance of bytes `d`: the slice
    /// of the siblings list around `d`, `BUCKET_SIZE / 2` on each side, then
    /// up to `BUCKET_SIZE` pairs of the tree near `d`.
    pub open spec fn spec_find_node(&self, d: Seq<u8>) -> Seq<Pair<Node, ID_LEN>> {
        let l = self.nearest_siblings_list@;
        let idx = first_not_below(l, crate::kademlia::id::be_value(d));
        let start = if idx >= BUCKET_SIZE / 2 {
            idx - BUCKET_SIZE / 2
        } else {
            0
        };
        let end = if idx + BUCKET_SIZE / 2 <= l.len() {
            idx + BUCKET_SIZE / 2
        } else {
            l.len() as int
        };
        l.subrange(start, end) + self.tree.spec_nodes_near(d, BUCKET_SIZE as nat)
    }

    /// An empty table.
    pub fn new() -> (t: Self)
        ensures
            t.wf(),
            t.tree.contents() == Seq::<Pair<Node, ID_LEN>>::empty(),
            t.nearest_siblings_list@ == Seq::<Pair<Node, ID_LEN>>::empty(),
            t.bucket_times() == Map::<usize, Option<u64>>::empty(),
    {
        RoutingTable {
            tree: Tree::new(),
            nearest_siblings_list: SiblingsList::new(),
            bucket_updated_at: Vec::new(),
        }
    }

    /// The bucket a distance belongs to: its number of leading zeros.
    fn bucket_id(distance: &Distance<ID_LEN>) -> (id: usize)
        requires
            ID_LEN * 8 <= usize::MAX,
        ensures
            id == spec_leading_zeros(distance.0@),
    {
        distance.leading_zeros()
    }

    /// The leaf a pair at `distance` belongs to.
    pub fn get_leaf(&self, distance: &Distance<ID_LEN>) -> (l: &Leaf<Node, ID_LEN, BUCKET_SIZE>)
        requires
            self.wf(),
            8 * ID_LEN <= usize::MAX,
        ensures
            *l == self.tree.route_leaf(distance.0@),
    {
        self.tree.get_leaf(distance)
    }

    /// The identifiers of the buckets never looked up, or looked up less
    /// than `duration` nanoseconds before `now`.
    pub fn get_stale_buckets(&self, duration: u64, now: u64) -> (ids: Vec<usize>)
        ensures
            ids@ == stale_bucket_ids(self.bucket_updated_at@, duration, now),
    {
        let mut ids: Vec<usize> = Vec::new();
        let mut i: usize = 0;
        while i < self.bucket_updated_at.len()
            invariant
                i <= self.bucket_updated_at@.len(),
                ids@ == stale_bucket_ids(self.bucket_updated_at@.take(i as int), duration, now),
            decreases self.bucket_updated_at@.len() - i,
        {
            assert(self.bucket_updated_at@.take(i + 1).drop_last() =~= self.bucket_updated_at@.take(
                i as int,
            ));
            let (id, at) = self.bucket_updated_at[i];
            let keep = match at {
                None => true,
                Some(t) => (if now > t {
                    now - t
                } else {
                    0
                }) < duration,
            };
            if keep {
                ids.push(id);
            }
            i = i + 1;
        }
        assert(self.bucket_updated_at@.take(self.bucket_updated_at@.len() as int)
            =~= self.bucket_updated_at@);
        ids
    }

    /// Marks the bucket of `distance` as looked up at `now`.
    pub fn mark_bucket_as_looked_up(&mut self, distance: &Distance<ID_LEN>, now: u64)
        requires
            old(self).wf(),
            ID_LEN * 8 <= usize::MAX,
        ensures
            final(self).wf(),
            final(self).tree == old(self).tree,
            final(self).nearest_siblings_list == old(self).nearest_siblings_list,
            final(self).bucket_times() == old(self).bucket_times().insert(
                spec_leading_zeros(distance.0@) as usize,
                Some(now),
            ),
    {
        let id = Self::bucket_id(distance);
        assoc::insert(&mut self.bucket_updated_at, id, Some(now));
    }

    /// The pairs of the siblings list, nearest first.
    pub fn sibling_list_pairs(&self) -> (s: &[Pair<Node, ID_LEN>])
        ensures
            s@ == self.nearest_siblings_list@,
    {
        self.nearest_siblings_list.iter()
    }

    /// Drops the pairs of the siblings list whose node's identifier is in
    /// `to_remove`.
    pub fn remove_unreachable_siblings_list_nodes(&mut self, to_remove: &[Id<ID_LEN>])
        where
            Node: crate::kademlia::id::HasId<ID_LEN>,
        ensures
            final(self).tree == old(self).tree,
            final(self).bucket_updated_at == old(self).bucket_updated_at,
            final(self).nearest_siblings_list@ == without_ids(
                old(self).nearest_siblings_list@,
                to_remove@,
            ),
    {
        self.nearest_siblings_list.remove_nodes(to_remove);
    }

    /// The slice of the siblings list around `dist` (see
    /// `SiblingsList::nearest`); `dist` is the target's distance to the
    /// local node.
    pub fn nearest_in_sibling_list(&self, dist: &Distance<ID_LEN>, count: usize) -> (s: &[Pair<
        Node,
        ID_LEN,
    >])
        requires
            count / 2 + SIBLINGS_CAPACITY <= usize::MAX,
        ensures
            ({
                let l = self.nearest_siblings_list@;
                let idx = first_not_below(l, dist.value());
                let start = if idx >= count / 2 {
                    idx - count / 2
                } else {
                    0
                };
                let end = if idx + count / 2 <= l.len() {
                    idx + count / 2
                } else {
                    l.len() as int
                };
                s@ == l.subrange(start, end)
            }),
    {
        let listed = self.nearest_siblings_list.len();
        assert(listed <= SIBLINGS_CAPACITY);
        self.nearest_siblings_list.nearest(dist, count)
    }

    /// The pairs known near `dist`: the slice of the siblings list around
    /// it, then the pairs the tree gives near it, `BUCKET_SIZE` from each.
    pub fn find_node(&self, dist: Distance<ID_LEN>) -> (v: Vec<&Pair<Node, ID_LEN>>)
        requires
            self.wf(),
            (8 * ID_LEN + 1) * BUCKET_SIZE <= usize::MAX,
            8 * ID_LEN <= usize::MAX,
            BUCKET_SIZE / 2 + SIBLINGS_CAPACITY <= usize::MAX,
        ensures
            v@.len() == self.spec_find_node(dist.0@).len(),
            forall|i: int| 0 <= i < v@.len() ==> *v@[i] == self.spec_find_node(dist.0@)[i],
    {
        let near = self.nearest_in_sibling_list(&dist, BUCKET_SIZE);
        let from_tree = self.tree.nodes_near(&dist, BUCKET_SIZE);
        let mut v: Vec<&Pair<Node, ID_LEN>> = Vec::new();
        let mut i: usize = 0;
        while i < near.len()
            invariant
                i <= near@.len(),
                v@.len() == i,
                forall|k: int| 0 <= k < i ==> *v@[k] == near@[k],
            decreases near@.len() - i,
        {
            v.push(&near[i]);
            i = i + 1;
        }
        let mut j: usize = 0;
        while j < from_tree.len()
            invariant
                j <= from_tree@.len(),
                v@.len() == near@.len() + j,
                forall|k: int| 0 <= k < near@.len() ==> *v@[k] == near@[k],
                forall|k: int| 0 <= k < j ==> *v@[near@.len() + k] == *from_tree@[k],
            decreases from_tree@.len() - j,
        {
            v.push(from_tree[j]);
            j = j + 1;
        }
        proof {
            let expected = self.spec_find_node(dist.0@);
            assert forall|i: int| 0 <= i < v@.len() implies *v@[i] == expected[i] by {
                if i >= near@.len() {
                    assert(*v@[near@.len() + (i - near@.len())] == *from_tree@[i - near@.len()]);
                }
            }
        }
        v
    }
}

impl<Node: PartialEq, const ID_LEN: usize, const BUCKET_SIZE: usize> RoutingTable<
    Node,
    ID_LEN,
    BUCKET_SIZE,
> {
    /// Notes the bucket of `distance` (as never looked up, unless it has a
    /// time already), splits every full last level of the tree, and gives
    /// access to the leaf `distance` routes to.
    pub fn get_leaf_mut<'a>(&'a mut self, distance: &Distance<ID_LEN>) -> (l: LeafMut<
        'a,
        Node,
        ID_LEN,
        BUCKET_SIZE,
    >)
        requires
            old(self).wf(),
            BUCKET_SIZE > 0,
            node_eq_is_equality::<Node>(),
            8 * ID_LEN <= usize::MAX,
        ensures
            l.0.wf(),
            l.0.saturated(),
            l.0.spec_depth() == 0,
            l.0.contents().to_multiset() == old(self).tree.contents().to_multiset(),
            l.1 == *distance,
            final(self).tree == *final(l.0),
            final(self).nearest_siblings_list == old(self).nearest_siblings_list,
            forall|d: Seq<u8>| old(self).tree.settled(d) ==> #[trigger] l.0.settled(d),
            keys_distinct(final(self).bucket_updated_at@),
            final(self).bucket_times() == if old(self).bucket_times().dom().contains(
                spec_leading_zeros(distance.0@) as usize,
            ) {
                old(self).bucket_times()
            } else {
                old(self).bucket_times().insert(spec_leading_zeros(distance.0@) as usize, None)
            },
    {
        let id = Self::bucket_id(distance);
        if assoc::find(&self.bucket_updated_at, &id).is_none() {
            assoc::insert(&mut self.bucket_updated_at, id, None);
        }
        self.tree.get_leaf_mut(distance)
    }

    /// Adds the pairs nearer than the siblings list's bound to it (see
    /// `SiblingsList::maybe_add_nodes`), and gives back what it evicted.
    pub fn maybe_add_nodes_to_siblings_list(&mut self, pairs: Vec<Pair<Node, ID_LEN>>) -> (evicted: Vec<
        Pair<Node, ID_LEN>,
    >)
        requires
            node_eq_is_equality::<Node>(),
            old(self).nearest_siblings_list@.len() + pairs@.len() <= usize::MAX,
        ensures
            final(self).tree == old(self).tree,
            final(self).bucket_updated_at == old(self).bucket_updated_at,
            ({
                let m = merged_siblings(old(self).nearest_siblings_list@, pairs@);
                let cut = if m.len() < SIBLINGS_CAPACITY {
                    m.len() as int
                } else {
                    SIBLINGS_CAPACITY as int
                };
                &&& final(self).nearest_siblings_list@ == m.take(cut)
                &&& evicted@ == m.skip(cut)
            }),
    {
        self.nearest_siblings_list.maybe_add_nodes(pairs)
    }

    /// Inserts the pair through the leaf its distance routes to (see
    /// `get_leaf_mut` and `LeafMut::try_insert`).
    pub fn insert_into_leaf(&mut self, pair: Pair<Node, ID_LEN>) -> (r: Result<(), crate::kademlia::bucket::Error>)
        requires
            old(self).wf(),
            BUCKET_SIZE > 0,
            node_eq_is_equality::<Node>(),
            (8 * ID_LEN + 1) * BUCKET_SIZE <= usize::MAX,
            crate::kademlia::tree::nonzero_distance(pair.0.0@, ID_LEN as int),
        ensures
            final(self).wf(),
            final(self).nearest_siblings_list == old(self).nearest_siblings_list,
            r is Ok ==> crate::kademlia::bucket::has_node(final(self).tree.route_leaf(pair.0.0@)@, pair.1),
            r is Ok ==> final(self).tree.contents().to_multiset() == old(self).tree.contents().to_multiset().insert(pair)
                || final(self).tree.contents().to_multiset() == old(self).tree.contents().to_multiset(),
            r is Err ==> final(self).tree.contents().to_multiset() == old(self).tree.contents().to_multiset()
                && final(self).tree.route_leaf(pair.0.0@)@.len() == BUCKET_SIZE
                && !crate::kademlia::bucket::has_node(final(self).tree.route_leaf(pair.0.0@)@, pair.1),
            r is Ok ==> crate::kademlia::bucket::has_node(final(self).tree.contents(), pair.1),
            r is Err ==> final(self).tree.settled(pair.0.0@),
            forall|d: Seq<u8>| old(self).tree.settled(d) ==> #[trigger] final(self).tree.settled(d),
    {
        proof {
            assert(8 * ID_LEN <= (8 * ID_LEN + 1) * BUCKET_SIZE) by (nonlinear_arith)
                requires
                    BUCKET_SIZE > 0,
            ;
        }
        let d = pair.0;
        let mut leaf = self.get_leaf_mut(&d);
        leaf.try_insert(pair)
    }
}

} // verus!
