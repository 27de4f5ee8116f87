//! The steps of a node lookup that decide which nodes are closest and
//! which to ask next.
use vstd::prelude::*;

use crate::kademlia::id::{HasId, Id};
use crate::kademlia::node_cache::paired_with_distance;
use crate::kademlia::pair::{Pair, node_eq_is_equality};
use crate::kademlia::siblings::{
    below_distance, dedup_consecutive, dedup_pairs, reverse_vec, sort_by_distance,
    stable_sort_by_distance, without_ids,
};
use crate::kademlia::tree::take_at_most;

verus! {

/// How many nodes a lookup asks at once.
pub const ALPHA: usize = 3;

/// The nodes of the pairs, in order.
pub open spec fn nodes_of<Node, const ID_LEN: usize>(s: Seq<Pair<Node, ID_LEN>>) -> Seq<Node> {
    s.map_values(|p: Pair<Node, ID_LEN>| p.1)
}

/// Each node paired with its distance to `id`, in order.
fn pair_with_distance<Node: HasId<ID_LEN>, const ID_LEN: usize>(nodes: Vec<Node>, id: &Id<ID_LEN>) -> (pairs: Vec<
    Pair<Node, ID_LEN>,
>)
    ensures
        paired_with_distance(*id, nodes@, pairs@),
{
    let ghost ns = nodes@;
    let mut rev = reverse_vec(nodes);
    let mut pairs: Vec<Pair<Node, ID_LEN>> = Vec::new();
    while rev.len() > 0
        invariant
            rev@.len() <= ns.len(),
            forall|i: int| 0 <= i < rev@.len() ==> rev@[i] == ns[ns.len() - 1 - i],
            paired_with_distance(*id, ns.take(ns.len() - rev@.len()), pairs@),
        decreases rev@.len(),
    {
        let ghost k = ns.len() - rev@.len();
        let n = rev.pop().unwrap();
        assert(n == ns[k]);
        pairs.push(Pair::from_node(n, id));
        assert(ns.take(k + 1) =~= ns.take(k).push(n));
    }
    assert(ns.take(ns.len() as int) =~= ns);
    pairs
}

/// The nodes closest to `id`: the nodes sorted by their distance to `id`
/// (nodes at equal distance in their order), the first `k` of them.
pub fn closest_nodes<Node: HasId<ID_LEN>, const ID_LEN: usize>(
    nodes: Vec<Node>,
    id: &Id<ID_LEN>,
    k: usize,
) -> (out: Vec<Node>)
    ensures
        exists|pairs: Seq<Pair<Node, ID_LEN>>|
            #[trigger] paired_with_distance(*id, nodes@, pairs) && out@ == nodes_of(
                take_at_most(stable_sort_by_distance(pairs), k as nat),
            ),
{
    let pairs = pair_with_distance(nodes, id);
    let ghost ps = pairs@;
    let mut sorted = sort_by_distance(pairs);
    if sorted.len() > k {
        sorted.truncate(k);
    }
    let ghost kept = sorted@;
    assert(kept == take_at_most(stable_sort_by_distance(ps), k as nat));
    let mut rev = reverse_vec(sorted);
    let mut out: Vec<Node> = Vec::new();
    while rev.len() > 0
        invariant
            rev@.len() <= kept.len(),
            forall|i: int| 0 <= i < rev@.len() ==> rev@[i] == kept[kept.len() - 1 - i],
            out@ == nodes_of(kept.take(kept.len() - rev@.len())),
        decreases rev@.len(),
    {
        let ghost j = kept.len() - rev@.len();
        let p = rev.pop().unwrap();
        assert(p == kept[j]);
        out.push(p.into_node());
        assert(nodes_of(kept.take(j + 1)) =~= nodes_of(kept.take(j)).push(p.1));
    }
    assert(kept.take(kept.len() as int) =~= kept);
    assert(paired_with_distance(*id, nodes@, ps));
    out
}

/// Adds to the `k` closest nodes known, `k_closest`, the nodes `found` by
/// asking another node: those nearer than the farthest of `k_closest` go
/// in after them; then the list is sorted by distance (stably), consecutive
/// duplicates are dropped, and the list is cut to `k`. Gives whether the
/// list grew before it was cut.
pub fn update_k_closest<Node: HasId<ID_LEN> + PartialEq, const ID_LEN: usize>(
    k_closest: &mut Vec<Pair<Node, ID_LEN>>,
    found: Vec<Node>,
    target: &Id<ID_LEN>,
    k: usize,
) -> (grew: bool)
    requires
        old(k_closest)@.len() > 0,
        node_eq_is_equality::<Node>(),
        old(k_closest)@.len() + found@.len() <= usize::MAX,
    ensures
        exists|pairs: Seq<Pair<Node, ID_LEN>>|
            {
                let farthest = old(k_closest)@.last().0.value();
                let merged = dedup_consecutive(
                    stable_sort_by_distance(old(k_closest)@ + below_distance(pairs, farthest)),
                );
                &&& #[trigger] paired_with_distance(*target, found@, pairs)
                &&& grew == (merged.len() > old(k_closest)@.len())
                &&& final(k_closest)@ == take_at_most(merged, k as nat)
            },
{
    let init_len = k_closest.len();
    let farthest = k_closest[init_len - 1].0;
    let pairs = pair_with_distance(found, target);
    let ghost ps = pairs@;
    let mut rev = reverse_vec(pairs);
    let mut nearer: Vec<Pair<Node, ID_LEN>> = Vec::new();
    assert(ps.take(0) =~= Seq::<Pair<Node, ID_LEN>>::empty());
    while rev.len() > 0
        invariant
            rev@.len() <= ps.len(),
            forall|i: int| 0 <= i < rev@.len() ==> rev@[i] == ps[ps.len() - 1 - i],
            nearer@ == below_distance(ps.take(ps.len() - rev@.len()), farthest.value()),
        decreases rev@.len(),
    {
        let ghost j = ps.len() - rev@.len();
        let p = rev.pop().unwrap();
        assert(p == ps[j]);
        assert(ps.take(j + 1).drop_last() =~= ps.take(j));
        if p.0.is_less_than(&farthest) {
            nearer.push(p);
        }
    }
    assert(ps.take(ps.len() as int) =~= ps);
    let mut all: Vec<Pair<Node, ID_LEN>> = Vec::new();
    std::mem::swap(&mut all, k_closest);
    let ghost before = all@;
    all.append(&mut nearer);
    let sorted = sort_by_distance(all);
    let mut merged = dedup_pairs(sorted);
    let grew = merged.len() > init_len;
    if merged.len() > k {
        merged.truncate(k);
    }
    *k_closest = merged;
    assert(paired_with_distance(*target, found@, ps));
    grew
}

/// The first `limit` nodes of `k_closest` whose identifiers are not in
/// `queried`.
pub fn unqueried<'a, Node: HasId<ID_LEN>, const ID_LEN: usize>(
    k_closest: &'a [Pair<Node, ID_LEN>],
    queried: &[Id<ID_LEN>],
    limit: usize,
) -> (out: Vec<&'a Node>)
    ensures
        out@.len() == take_at_most(without_ids(k_closest@, queried@), limit as nat).len(),
        forall|i: int|
            0 <= i < out@.len() ==> *out@[i] == take_at_most(
                without_ids(k_closest@, queried@),
                limit as nat,
            )[i].1,
{
    let mut out: Vec<&'a Node> = Vec::new();
    let ghost mut picked: Seq<Pair<Node, ID_LEN>> = Seq::empty();
    let mut i: usize = 0;
    assert(k_closest@.take(0) =~= Seq::<Pair<Node, ID_LEN>>::empty());
    while i < k_closest.len() && out.len() < limit
        invariant
            i <= k_closest@.len(),
            picked == take_at_most(without_ids(k_closest@.take(i as int), queried@), limit as nat),
            out@.len() == picked.len(),
            out@.len() <= limit,
            forall|j: int| 0 <= j < out@.len() ==> *out@[j] == picked[j].1,
        decreases k_closest@.len() - i,
    {
        let p = &k_closest[i];
        assert(k_closest@.take(i + 1).drop_last() =~= k_closest@.take(i as int));
        let mut seen = false;
        let mut q: usize = 0;
        while q < queried.len()
            invariant
                q <= queried@.len(),
                seen == exists|j: int| 0 <= j < q && queried@[j] == p.1.spec_id(),
            decreases queried@.len() - q,
        {
            if !seen && queried[q].same_as(p.1.id()) {
                seen = true;
            }
            q = q + 1;
        }
        if !seen {
            out.push(&p.1);
            proof {
                let w = without_ids(k_closest@.take(i as int), queried@);
                assert(w.len() < limit);
                picked = take_at_most(without_ids(k_closest@.take(i + 1), queried@), limit as nat);
            }
        } else {
            proof {
                picked = take_at_most(without_ids(k_closest@.take(i + 1), queried@), limit as nat);
            }
        }
        i = i + 1;
    }
    proof {
        if i < k_closest@.len() {
            // the limit was reached: the rest adds nothing to the first `limit`
            let wi = without_ids(k_closest@.take(i as int), queried@);
            let w = without_ids(k_closest@, queried@);
            lemma_without_ids_prefix(k_closest@, queried@, i as int);
            assert(out@.len() == limit);
            assert(wi.len() >= limit);
            assert(wi.len() <= w.len());
            assert(picked =~= take_at_most(w, limit as nat));
        } else {
            assert(k_closest@.take(i as int) =~= k_closest@);
        }
    }
    out
}

/// The identifiers of the nodes of `s`, in order.
pub open spec fn pair_ids<Node: HasId<ID_LEN>, const ID_LEN: usize>(s: Seq<Pair<Node, ID_LEN>>) -> Seq<Id<ID_LEN>> {
    s.map_values(|p: Pair<Node, ID_LEN>| p.1.spec_id())
}

/// One round of a lookup after the first: the nodes among the nearest
/// found so far that have not been asked yet, nearest first, which are
/// now counted as asked. No node left to ask means the lookup is over.
pub fn next_round<'a, Node: HasId<ID_LEN>, const ID_LEN: usize>(
    k_closest: &'a [Pair<Node, ID_LEN>],
    queried: &mut Vec<Id<ID_LEN>>,
) -> (ask: Vec<&'a Node>)
    ensures
        ask@.len() == without_ids(k_closest@, old(queried)@).len(),
        forall|i: int| 0 <= i < ask@.len() ==> *ask@[i] == without_ids(k_closest@, old(queried)@)[i].1,
        final(queried)@ == old(queried)@ + pair_ids(without_ids(k_closest@, old(queried)@)),
{
    let ghost w = without_ids(k_closest@, queried@);
    proof {
        lemma_without_ids_len(k_closest@, queried@);
    }
    let ask = unqueried(k_closest, queried.as_slice(), usize::MAX);
    proof {
        assert(k_closest@.len() == k_closest.len());
        assert(take_at_most(w, usize::MAX as nat) == w);
    }
    let ghost start = queried@;
    let mut i: usize = 0;
    while i < ask.len()
        invariant
            i <= ask@.len(),
            ask@.len() == w.len(),
            forall|j: int| 0 <= j < ask@.len() ==> *ask@[j] == w[j].1,
            queried@ == start + pair_ids(w.take(i as int)),
        decreases ask@.len() - i,
    {
        let id = *ask[i].id();
        queried.push(id);
        proof {
            assert(pair_ids(w.take(i + 1)) =~= pair_ids(w.take(i as int)).push(w[i as int].1.spec_id()));
        }
        i = i + 1;
    }
    proof {
        assert(w.take(w.len() as int) =~= w);
    }
    ask
}

/// Filtering keeps no more pairs than there were.
proof fn lemma_without_ids_len<Node: HasId<ID_LEN>, const ID_LEN: usize>(
    s: Seq<Pair<Node, ID_LEN>>,
    ids: Seq<Id<ID_LEN>>,
)
    ensures
        without_ids(s, ids).len() <= s.len(),
    decreases s.len(),
{
    if s.len() > 0 {
        lemma_without_ids_len(s.drop_last(), ids);
    }
}

/// Filtering a longer prefix keeps the filtered shorter prefix in front.
proof fn lemma_without_ids_prefix<Node: HasId<ID_LEN>, const ID_LEN: usize>(
    s: Seq<Pair<Node, ID_LEN>>,
    ids: Seq<Id<ID_LEN>>,
    i: int,
)
    requires
        0 <= i <= s.len(),
    ensures
        without_ids(s.take(i), ids).len() <= without_ids(s, ids).len(),
        without_ids(s.take(i), ids) == without_ids(s, ids).take(without_ids(s.take(i), ids).len() as int),
    decreases s.len() - i,
{
    if i < s.len() {
        lemma_without_ids_prefix(s, ids, i + 1);
        assert(s.take(i + 1).drop_last() =~= s.take(i));
        let a = without_ids(s.take(i), ids);
        let b = without_ids(s.take(i + 1), ids);
        let w = without_ids(s, ids);
        assert(b == a || b == a.push(s[i]));
        assert(a.len() <= b.len());
        assert(a =~= b.take(a.len() as int));
        assert(b == w.take(b.len() as int));
        assert(w.take(b.len() as int).take(a.len() as int) =~= w.take(a.len() as int));
    } else {
        assert(s.take(i) =~= s);
        assert(without_ids(s, ids).take(without_ids(s, ids).len() as int) =~= without_ids(s, ids));
    }
}

} // verus!
