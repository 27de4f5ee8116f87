use vstd::prelude::*;
use vstd::multiset::Multiset;

use crate::kademlia::id::{Distance, HasId, Id, be_value, lemma_be_value_bound, pow256};
use crate::kademlia::pair::{Pair, node_eq_is_equality};

verus! {

/// The number of nodes in a bucket of the routing table.
pub const BUCKET_SIZE: usize = 20;

/// How many buckets' worth of nearest nodes the siblings list keeps.
pub const NEARBY_NODES_MULTIP: usize = 5;

/// The number of pairs the siblings list keeps.
pub const SIBLINGS_CAPACITY: usize = 100;

/// Whether the pairs are in nondecreasing order of distance.
pub open spec fn sorted_by_distance<Node, const ID_LEN: usize>(
    s: Seq<Pair<Node, ID_LEN>>,
) -> bool {
    forall|i: int, j: int| 0 <= i < j < s.len() ==> s[i].0.value() <= s[j].0.value()
}

/// `x` inserted into `s` before the first pair whose distance is not
/// smaller than its own.
pub open spec fn insert_by_distance<Node, const ID_LEN: usize>(
    x: Pair<Node, ID_LEN>,
    s: Seq<Pair<Node, ID_LEN>>,
) -> Seq<Pair<Node, ID_LEN>>
    decreases s.len(),
{
    if s.len() == 0 {
        seq![x]
    } else if s[0].0.value() >= x.0.value() {
        seq![x] + s
    } else {
        seq![s[0]] + insert_by_distance(x, s.drop_first())
    }
}

/// The pairs sorted by distance, pairs of equal distance in their order in
/// `s` (a stable sort).
pub open spec fn stable_sort_by_distance<Node, const ID_LEN: usize>(
    s: Seq<Pair<Node, ID_LEN>>,
) -> Seq<Pair<Node, ID_LEN>>
    decreases s.len(),
{
    if s.len() == 0 {
        s
    } else {
        insert_by_distance(s[0], stable_sort_by_distance(s.drop_first()))
    }
}

/// The pairs with every run of equal consecutive pairs cut to one.
pub open spec fn dedup_consecutive<T>(s: Seq<T>) -> Seq<T>
    decreases s.len(),
{
    if s.len() <= 1 {
        s
    } else {
        let r = dedup_consecutive(s.drop_last());
        if s.last() == s[s.len() - 2] {
            r
        } else {
            r.push(s.last())
        }
    }
}

/// The pairs whose distance is below `bound`, in order.
pub open spec fn below_distance<Node, const ID_LEN: usize>(
    s: Seq<Pair<Node, ID_LEN>>,
    bound: nat,
) -> Seq<Pair<Node, ID_LEN>>
    decreases s.len(),
{
    if s.len() == 0 {
        s
    } else {
        let r = below_distance(s.drop_last(), bound);
        if s.last().0.value() < bound {
            r.push(s.last())
        } else {
            r
        }
    }
}

/// The pairs whose node's identifier is not in `ids`, in order.
pub open spec fn without_ids<Node: HasId<ID_LEN>, const ID_LEN: usize>(
    s: Seq<Pair<Node, ID_LEN>>,
    ids: Seq<Id<ID_LEN>>,
) -> Seq<Pair<Node, ID_LEN>>
    decreases s.len(),
{
    if s.len() == 0 {
        s
    } else {
        let r = without_ids(s.drop_last(), ids);
        if ids.contains(s.last().1.spec_id()) {
            r
        } else {
            r.push(s.last())
        }
    }
}

/// The list that adding `pairs` to the sorted list `list` gives before it is
/// cut to its capacity: the pairs below the bound, put in front of the list,
/// sorted stably by distance, with consecutive duplicates dropped.
pub open spec fn merged_siblings<Node, const ID_LEN: usize>(
    list: Seq<Pair<Node, ID_LEN>>,
    pairs: Seq<Pair<Node, ID_LEN>>,
) -> Seq<Pair<Node, ID_LEN>> {
    let bound = if list.len() > SIBLINGS_CAPACITY {
        list[SIBLINGS_CAPACITY as int].0.value()
    } else {
        (pow256(ID_LEN as nat) - 1) as nat
    };
    dedup_consecutive(stable_sort_by_distance(below_distance(pairs, bound) + list))
}

/// The nodes nearest to the local node, sorted by distance.
pub struct SiblingsList<Node, const ID_LEN: usize> {
    inner: Vec<Pair<Node, ID_LEN>>,
}

impl<Node, const ID_LEN: usize> View for SiblingsList<Node, ID_LEN> {
    type V = Seq<Pair<Node, ID_LEN>>;

    closed spec fn view(&self) -> Seq<Pair<Node, ID_LEN>> {
        self.inner@
    }
}

/// Inserting by distance keeps a sorted list sorted and adds the pair.
proof fn lemma_insert_by_distance<Node, const ID_LEN: usize>(
    x: Pair<Node, ID_LEN>,
    s: Seq<Pair<Node, ID_LEN>>,
)
    requires
        sorted_by_distance(s),
    ensures
        sorted_by_distance(insert_by_distance(x, s)),
        insert_by_distance(x, s).len() == s.len() + 1,
        insert_by_distance(x, s).to_multiset() == s.to_multiset().insert(x),
        forall|k: int|
            0 <= k <= s.len() && (forall|j: int| 0 <= j < k ==> s[j].0.value() < x.0.value()) && (k
                == s.len() || s[k].0.value() >= x.0.value()) ==> insert_by_distance(x, s)
                == s.insert(k, x),
    decreases s.len(),
{
    broadcast use vstd::seq_lib::group_to_multiset_ensures;
    broadcast use vstd::multiset::group_multiset_axioms;
    if s.len() == 0 {
        assert forall|k: int| 0 <= k <= s.len() implies insert_by_distance(x, s) == s.insert(k, x) by {
            assert(seq![x] =~= s.insert(0, x));
        }
    } else if s[0].0.value() >= x.0.value() {
        assert(seq![x] + s =~= s.insert(0, x));
        assert forall|k: int|
            0 <= k <= s.len() && (forall|j: int| 0 <= j < k ==> s[j].0.value() < x.0.value()) && (k
                == s.len() || s[k].0.value() >= x.0.value()) implies insert_by_distance(x, s)
            == s.insert(k, x) by {
            if k > 0 {
                assert(s[0].0.value() < x.0.value());
            }
        }
        vstd::seq_lib::lemma_multiset_commutative(seq![x], s);
        assert(seq![x].to_multiset() =~= Multiset::empty().insert(x)) by {
            assert(seq![x] =~= Seq::<Pair<Node, ID_LEN>>::empty().push(x));
        }
        assert((seq![x] + s).to_multiset() =~= s.to_multiset().insert(x));
    } else {
        let t = s.drop_first();
        lemma_insert_by_distance(x, t);
        let r = insert_by_distance(x, t);
        let out = seq![s[0]] + r;
        assert forall|i: int, j: int| 0 <= i < j < out.len() implies out[i].0.value()
            <= out[j].0.value() by {
            if i == 0 {
                assert(r.to_multiset().count(out[j]) > 0);
                assert(t.to_multiset().insert(x).count(out[j]) > 0);
                if out[j] != x {
                    assert(t.to_multiset().count(out[j]) > 0);
                    assert(t.contains(out[j]));
                    let k = choose|k: int| 0 <= k < t.len() && t[k] == out[j];
                    assert(s[k + 1] == out[j]);
                }
            }
        }
        assert forall|k: int|
            0 <= k <= s.len() && (forall|j: int| 0 <= j < k ==> s[j].0.value() < x.0.value()) && (k
                == s.len() || s[k].0.value() >= x.0.value()) implies insert_by_distance(x, s)
            == s.insert(k, x) by {
            assert(k >= 1);
            assert((forall|j: int| 0 <= j < k - 1 ==> t[j].0.value() < x.0.value()));
            assert(insert_by_distance(x, t) == t.insert(k - 1, x));
            assert(seq![s[0]] + t.insert(k - 1, x) =~= s.insert(k, x));
        }
        vstd::seq_lib::lemma_multiset_commutative(seq![s[0]], r);
        vstd::seq_lib::lemma_multiset_commutative(seq![s[0]], t);
        assert(s =~= seq![s[0]] + t);
        assert(out.to_multiset() =~= s.to_multiset().insert(x));
    }
}

/// A stable sort gives a sorted list of the same pairs.
pub proof fn lemma_stable_sort<Node, const ID_LEN: usize>(s: Seq<Pair<Node, ID_LEN>>)
    ensures
        sorted_by_distance(stable_sort_by_distance(s)),
        stable_sort_by_distance(s).len() == s.len(),
        stable_sort_by_distance(s).to_multiset() == s.to_multiset(),
    decreases s.len(),
{
    broadcast use vstd::seq_lib::group_to_multiset_ensures;
    if s.len() > 0 {
        lemma_stable_sort(s.drop_first());
        lemma_insert_by_distance(s[0], stable_sort_by_distance(s.drop_first()));
        assert(s =~= seq![s[0]] + s.drop_first());
        vstd::seq_lib::lemma_multiset_commutative(seq![s[0]], s.drop_first());
        assert(seq![s[0]].to_multiset() =~= Multiset::empty().insert(s[0])) by {
            assert(seq![s[0]] =~= Seq::<Pair<Node, ID_LEN>>::empty().push(s[0]));
        }
    }
}

/// Dropping consecutive duplicates keeps a sorted list sorted, keeps only
/// pairs of the list, and never lengthens it.
pub proof fn lemma_dedup<Node, const ID_LEN: usize>(s: Seq<Pair<Node, ID_LEN>>)
    requires
        sorted_by_distance(s),
    ensures
        sorted_by_distance(dedup_consecutive(s)),
        dedup_consecutive(s).len() <= s.len(),
        forall|i: int|
            0 <= i < dedup_consecutive(s).len() ==> s.contains(#[trigger] dedup_consecutive(s)[i]),
        s.len() > 0 ==> dedup_consecutive(s).len() > 0 && dedup_consecutive(s).last() == s.last(),
    decreases s.len(),
{
    if s.len() > 1 {
        let t = s.drop_last();
        lemma_dedup(t);
        let r = dedup_consecutive(t);
        assert forall|i: int| 0 <= i < dedup_consecutive(s).len() implies s.contains(
            #[trigger] dedup_consecutive(s)[i],
        ) by {
            if i < r.len() {
                assert(t.contains(r[i]));
                let k = choose|k: int| 0 <= k < t.len() && t[k] == r[i];
                assert(s[k] == r[i]);
            } else {
                assert(dedup_consecutive(s)[i] == s[s.len() - 1]);
            }
        }
        if s.last() != s[s.len() - 2] {
            let out = r.push(s.last());
            assert forall|i: int, j: int| 0 <= i < j < out.len() implies out[i].0.value()
                <= out[j].0.value() by {
                if j == out.len() - 1 {
                    assert(t.contains(r[i]));
                    let k = choose|k: int| 0 <= k < t.len() && t[k] == r[i];
                    assert(s[k] == r[i]);
                }
            }
        }
    }
}

/// The pairs below a bound are pairs of the list.
proof fn lemma_below_distance<Node, const ID_LEN: usize>(
    s: Seq<Pair<Node, ID_LEN>>,
    bound: nat,
)
    ensures
        below_distance(s, bound).len() <= s.len(),
        forall|i: int|
            0 <= i < below_distance(s, bound).len() ==> (#[trigger] below_distance(s, bound)[i]).0.value()
                < bound,
        forall|i: int|
            0 <= i < below_distance(s, bound).len() ==> s.contains(
                #[trigger] below_distance(s, bound)[i],
            ),
    decreases s.len(),
{
    if s.len() > 0 {
        let t = s.drop_last();
        lemma_below_distance(t, bound);
        let r = below_distance(t, bound);
        assert forall|i: int| 0 <= i < below_distance(s, bound).len() implies s.contains(
            #[trigger] below_distance(s, bound)[i],
        ) by {
            if i < r.len() {
                assert(t.contains(r[i]));
                let k = choose|k: int| 0 <= k < t.len() && t[k] == r[i];
                assert(s[k] == r[i]);
            } else {
                assert(below_distance(s, bound)[i] == s[s.len() - 1]);
            }
        }
    }
}

/// Every pair of the merged list comes from the list or from the added
/// pairs.
pub proof fn lemma_merged_from_inputs<Node, const ID_LEN: usize>(
    list: Seq<Pair<Node, ID_LEN>>,
    pairs: Seq<Pair<Node, ID_LEN>>,
)
    ensures
        forall|i: int|
            0 <= i < merged_siblings(list, pairs).len() ==> list.contains(
                #[trigger] merged_siblings(list, pairs)[i],
            ) || pairs.contains(merged_siblings(list, pairs)[i]),
{
    broadcast use vstd::seq_lib::group_to_multiset_ensures;
    let bound = if list.len() > SIBLINGS_CAPACITY {
        list[SIBLINGS_CAPACITY as int].0.value()
    } else {
        (pow256(ID_LEN as nat) - 1) as nat
    };
    let b = below_distance(pairs, bound);
    let c = b + list;
    let st = stable_sort_by_distance(c);
    lemma_below_distance(pairs, bound);
    lemma_stable_sort(c);
    lemma_dedup(st);
    let m = merged_siblings(list, pairs);
    assert forall|i: int| 0 <= i < m.len() implies list.contains(#[trigger] m[i]) || pairs.contains(
        m[i],
    ) by {
        assert(st.contains(m[i]));
        assert(st.to_multiset().count(m[i]) > 0);
        assert(c.to_multiset().count(m[i]) > 0);
        assert(c.contains(m[i]));
        let k = choose|k: int| 0 <= k < c.len() && c[k] == m[i];
        if k < b.len() {
            assert(b[k] == m[i]);
            assert(pairs.contains(b[k]));
        } else {
            assert(list[k - b.len()] == m[i]);
        }
    }
}

impl<Node, const ID_LEN: usize> SiblingsList<Node, ID_LEN> {
    #[verifier::type_invariant]
    closed spec fn inv(self) -> bool {
        &&& sorted_by_distance(self.inner@)
        &&& self.inner@.len() <= SIBLINGS_CAPACITY
    }

    /// An empty list.
    pub fn new() -> (l: Self)
        ensures
            l@ == Seq::<Pair<Node, ID_LEN>>::empty(),
    {
        SiblingsList { inner: Vec::new() }
    }

    /// The number of pairs.
    pub fn len(&self) -> (n: usize)
        ensures
            n == self@.len(),
            n <= SIBLINGS_CAPACITY,
    {
        proof {
            use_type_invariant(self);
        }
        self.inner.len()
    }

    /// The pairs, nearest first.
    pub fn iter(&self) -> (s: &[Pair<Node, ID_LEN>])
        ensures
            s@ == self@,
            sorted_by_distance(s@),
            s@.len() <= SIBLINGS_CAPACITY,
    {
        proof {
            use_type_invariant(self);
        }
        self.inner.as_slice()
    }

    /// Adds the pairs nearer than the pair at the list's capacity (every
    /// pair, while the list is not over capacity), keeps the list sorted by
    /// distance with consecutive duplicates dropped, cuts it to its
    /// capacity, and gives back what was cut off.
    pub fn maybe_add_nodes(&mut self, pairs: Vec<Pair<Node, ID_LEN>>) -> (evicted: Vec<
        Pair<Node, ID_LEN>,
    >)
        where
            Node: PartialEq,
        requires
            node_eq_is_equality::<Node>(),
            old(self)@.len() + pairs@.len() <= usize::MAX,
        ensures
            ({
                let m = merged_siblings(old(self)@, pairs@);
                let cut = if m.len() < SIBLINGS_CAPACITY {
                    m.len() as int
                } else {
                    SIBLINGS_CAPACITY as int
                };
                &&& final(self)@ == m.take(cut)
                &&& evicted@ == m.skip(cut)
            }),
    {
        proof {
            use_type_invariant(&*self);
        }
        let mut inner: Vec<Pair<Node, ID_LEN>> = Vec::new();
        std::mem::swap(&mut inner, &mut self.inner);
        let ghost list = inner@;
        let last_in_list: Distance<ID_LEN> = if inner.len() > SIBLINGS_CAPACITY {
            inner[SIBLINGS_CAPACITY].0
        } else {
            Distance::max()
        };
        let ghost bound: nat = if list.len() > SIBLINGS_CAPACITY {
            list[SIBLINGS_CAPACITY as int].0.value()
        } else {
            (pow256(ID_LEN as nat) - 1) as nat
        };
        proof {
            if list.len() <= SIBLINGS_CAPACITY {
                lemma_max_distance_value(last_in_list);
            }
        }
        // keep the pairs below the bound, in order
        let mut rev = reverse_vec(pairs);
        let ghost ps = pairs@;
        let mut combined: Vec<Pair<Node, ID_LEN>> = Vec::new();
        assert(ps.take(0) =~= Seq::<Pair<Node, ID_LEN>>::empty());
        while rev.len() > 0
            invariant
                rev@.len() <= ps.len(),
                forall|i: int| 0 <= i < rev@.len() ==> rev@[i] == ps[ps.len() - 1 - i],
                combined@ == below_distance(ps.take(ps.len() - rev@.len()), bound),
                last_in_list.value() == bound,
            decreases rev@.len(),
        {
            let ghost k = ps.len() - rev@.len();
            let p = rev.pop().unwrap();
            assert(p == ps[k]);
            assert(ps.take(k + 1).drop_last() =~= ps.take(k));
            if p.0.is_less_than(&last_in_list) {
                combined.push(p);
            }
        }
        assert(ps.take(ps.len() as int) =~= ps);
        proof {
            lemma_below_distance(ps, bound);
        }
        combined.append(&mut inner);
        let ghost c = combined@;
        assert(c == below_distance(ps, bound) + list);
        let sorted = sort_by_distance(combined);
        let ghost st = sorted@;
        proof {
            lemma_stable_sort(c);
        }
        let mut deduped = dedup_pairs(sorted);
        proof {
            lemma_dedup(st);
        }
        let cut: usize = if deduped.len() < SIBLINGS_CAPACITY {
            deduped.len()
        } else {
            SIBLINGS_CAPACITY
        };
        let evicted = deduped.split_off(cut);
        assert(deduped@ =~= dedup_consecutive(st).take(cut as int));
        assert(evicted@ =~= dedup_consecutive(st).skip(cut as int));
        assert forall|i: int, j: int| 0 <= i < j < deduped@.len() implies deduped@[i].0.value()
            <= deduped@[j].0.value() by {
            assert(deduped@[i] == dedup_consecutive(st)[i]);
            assert(deduped@[j] == dedup_consecutive(st)[j]);
        }
        self.inner = deduped;
        evicted
    }

    /// Drops the pairs whose node's identifier is in `to_remove`.
    pub fn remove_nodes(&mut self, to_remove: &[Id<ID_LEN>])
        where
            Node: HasId<ID_LEN>,
        ensures
            final(self)@ == without_ids(old(self)@, to_remove@),
    {
        proof {
            use_type_invariant(&*self);
        }
        let mut inner: Vec<Pair<Node, ID_LEN>> = Vec::new();
        std::mem::swap(&mut inner, &mut self.inner);
        let ghost list = inner@;
        let mut rev = reverse_vec(inner);
        let mut kept: Vec<Pair<Node, ID_LEN>> = Vec::new();
        assert(list.take(0) =~= Seq::<Pair<Node, ID_LEN>>::empty());
        while rev.len() > 0
            invariant
                rev@.len() <= list.len(),
                forall|i: int| 0 <= i < rev@.len() ==> rev@[i] == list[list.len() - 1 - i],
                kept@ == without_ids(list.take(list.len() - rev@.len()), to_remove@),
            decreases rev@.len(),
        {
            let ghost k = list.len() - rev@.len();
            let p = rev.pop().unwrap();
            assert(p == list[k]);
            assert(list.take(k + 1).drop_last() =~= list.take(k));
            let id = p.1.id();
            let mut found = false;
            let mut i: usize = 0;
            while i < to_remove.len()
                invariant
                    i <= to_remove@.len(),
                    *id == p.1.spec_id(),
                    found == exists|j: int| 0 <= j < i && to_remove@[j] == p.1.spec_id(),
                decreases to_remove@.len() - i,
            {
                if !found && to_remove[i].same_as(id) {
                    found = true;
                }
                i = i + 1;
            }
            if !found {
                kept.push(p);
            }
        }
        assert(list.take(list.len() as int) =~= list);
        proof {
            lemma_without_ids_sorted(list, to_remove@);
        }
        self.inner = kept;
    }

    /// The slice of the list around where `dist` would sit: from `count / 2`
    /// pairs before that place to `count / 2` pairs after it, cut at the
    /// ends of the list. The place is the first pair not nearer than `dist`.
    pub fn nearest(&self, dist: &Distance<ID_LEN>, count: usize) -> (s: &[Pair<Node, ID_LEN>])
        requires
            self@.len() + count / 2 <= usize::MAX,
        ensures
            ({
                let idx = first_not_below(self@, dist.value());
                let start = if idx >= count / 2 { idx - count / 2 } else { 0 };
                let end = if idx + count / 2 <= self@.len() { idx + count / 2 } else { self@.len() as int };
                s@ == self@.subrange(start, end)
            }),
    {
        proof {
            use_type_invariant(self);
        }
        let nearest_index = self.lower_bound(dist);
        let start_of_range: usize = if nearest_index >= count / 2 {
            nearest_index - count / 2
        } else {
            0
        };
        let end_of_range: usize = if nearest_index + count / 2 <= self.inner.len() {
            nearest_index + count / 2
        } else {
            self.inner.len()
        };
        slice_range(self.inner.as_slice(), start_of_range, end_of_range)
    }

    /// The index of the first pair whose distance is not below `dist`, found
    /// by binary search.
    fn lower_bound(&self, dist: &Distance<ID_LEN>) -> (idx: usize)
        ensures
            idx == first_not_below(self@, dist.value()),
            idx <= self@.len(),
    {
        proof {
            use_type_invariant(self);
        }
        let mut lo: usize = 0;
        let mut hi: usize = self.inner.len();
        while lo < hi
            invariant
                lo <= hi <= self.inner@.len(),
                sorted_by_distance(self.inner@),
                forall|j: int| 0 <= j < lo ==> self.inner@[j].0.value() < dist.value(),
                forall|j: int| hi <= j < self.inner@.len() ==> self.inner@[j].0.value() >= dist.value(),
            decreases hi - lo,
        {
            let mid = lo + (hi - lo) / 2;
            if self.inner[mid].0.is_less_than(dist) {
                lo = mid + 1;
            } else {
                hi = mid;
            }
        }
        proof {
            lemma_first_not_below(self.inner@, dist.value(), lo as int);
        }
        lo
    }
}

/// The pairs sorted by distance, pairs of equal distance in their order
/// (an insertion sort).
pub fn sort_by_distance<Node, const ID_LEN: usize>(v: Vec<Pair<Node, ID_LEN>>) -> (sorted: Vec<
    Pair<Node, ID_LEN>,
>)
    ensures
        sorted@ == stable_sort_by_distance(v@),
        sorted_by_distance(sorted@),
        sorted@.to_multiset() == v@.to_multiset(),
{
    let ghost c = v@;
    let mut combined = v;
    let mut sorted: Vec<Pair<Node, ID_LEN>> = Vec::new();
    assert(c.skip(c.len() as int) =~= Seq::<Pair<Node, ID_LEN>>::empty());
    while combined.len() > 0
        invariant
            combined@ == c.take(combined@.len() as int),
            sorted@ == stable_sort_by_distance(c.skip(combined@.len() as int)),
            sorted_by_distance(sorted@),
            sorted@.len() == c.len() - combined@.len(),
        decreases combined@.len(),
    {
        let ghost n = combined@.len() as int;
        let x = combined.pop().unwrap();
        assert(combined@ =~= c.take(n - 1));
        assert(x == c[n - 1]);
        assert(c.skip(n - 1).drop_first() =~= c.skip(n));
        assert(c.skip(n - 1)[0] == x);
        let mut k: usize = 0;
        while k < sorted.len() && sorted[k].0.is_less_than(&x.0)
            invariant
                k <= sorted@.len(),
                forall|j: int| 0 <= j < k ==> sorted@[j].0.value() < x.0.value(),
            decreases sorted@.len() - k,
        {
            k = k + 1;
        }
        proof {
            lemma_insert_by_distance(x, sorted@);
        }
        sorted.insert(k, x);
    }
    assert(c.skip(0) =~= c);
    proof {
        lemma_stable_sort(c);
    }
    sorted
}

/// The pairs with every run of equal consecutive pairs cut to one.
pub fn dedup_pairs<Node: PartialEq, const ID_LEN: usize>(v: Vec<Pair<Node, ID_LEN>>) -> (deduped: Vec<
    Pair<Node, ID_LEN>,
>)
    requires
        node_eq_is_equality::<Node>(),
    ensures
        deduped@ == dedup_consecutive(v@),
{
    let ghost st = v@;
    let mut rev_sorted = reverse_vec(v);
    let mut deduped: Vec<Pair<Node, ID_LEN>> = Vec::new();
    assert(st.take(0) =~= Seq::<Pair<Node, ID_LEN>>::empty());
    while rev_sorted.len() > 0
        invariant
            node_eq_is_equality::<Node>(),
            rev_sorted@.len() <= st.len(),
            forall|i: int| 0 <= i < rev_sorted@.len() ==> rev_sorted@[i] == st[st.len() - 1 - i],
            deduped@ == dedup_consecutive(st.take(st.len() - rev_sorted@.len())),
            st.len() - rev_sorted@.len() > 0 ==> deduped@.len() > 0 && deduped@.last() == st[st.len()
                - rev_sorted@.len() - 1],
        decreases rev_sorted@.len(),
    {
        let ghost k = st.len() - rev_sorted@.len();
        let x = rev_sorted.pop().unwrap();
        assert(x == st[k]);
        let ghost pre = st.take(k + 1);
        assert(pre.drop_last() =~= st.take(k));
        proof {
            if k > 0 {
                assert(pre[pre.len() - 2] == st[k - 1]);
            }
        }
        let dup: bool = if deduped.len() > 0 {
            deduped[deduped.len() - 1].same_as(&x)
        } else {
            false
        };
        if !dup {
            deduped.push(x);
        }
        proof {
            if k == 0 {
                assert(pre =~= seq![x]);
            }
        }
    }
    assert(st.take(st.len() as int) =~= st);
    deduped
}

/// The index of the first pair whose distance is not below `v`, or the
/// length when there is none.
pub open spec fn first_not_below<Node, const ID_LEN: usize>(
    s: Seq<Pair<Node, ID_LEN>>,
    v: nat,
) -> int
    decreases s.len(),
{
    if s.len() == 0 {
        0
    } else if s[0].0.value() >= v {
        0
    } else {
        1 + first_not_below(s.drop_first(), v)
    }
}

proof fn lemma_first_not_below<Node, const ID_LEN: usize>(
    s: Seq<Pair<Node, ID_LEN>>,
    v: nat,
    k: int,
)
    requires
        0 <= k <= s.len(),
        forall|j: int| 0 <= j < k ==> s[j].0.value() < v,
        k == s.len() || s[k].0.value() >= v,
    ensures
        first_not_below(s, v) == k,
    decreases s.len(),
{
    if s.len() > 0 && k > 0 {
        lemma_first_not_below(s.drop_first(), v, k - 1);
    }
}

/// Dropping pairs keeps a sorted list sorted and no longer.
pub proof fn lemma_without_ids_sorted<Node: HasId<ID_LEN>, const ID_LEN: usize>(
    s: Seq<Pair<Node, ID_LEN>>,
    ids: Seq<Id<ID_LEN>>,
)
    requires
        sorted_by_distance(s),
    ensures
        sorted_by_distance(without_ids(s, ids)),
        without_ids(s, ids).len() <= s.len(),
        forall|i: int|
            0 <= i < without_ids(s, ids).len() ==> s.contains(#[trigger] without_ids(s, ids)[i]),
    decreases s.len(),
{
    if s.len() > 0 {
        let t = s.drop_last();
        lemma_without_ids_sorted(t, ids);
        let r = without_ids(t, ids);
        assert forall|i: int| 0 <= i < without_ids(s, ids).len() implies s.contains(
            #[trigger] without_ids(s, ids)[i],
        ) by {
            if i < r.len() {
                assert(t.contains(r[i]));
                let k = choose|k: int| 0 <= k < t.len() && t[k] == r[i];
                assert(s[k] == r[i]);
            } else {
                assert(without_ids(s, ids)[i] == s[s.len() - 1]);
            }
        }
        if !ids.contains(s.last().1.spec_id()) {
            let out = r.push(s.last());
            assert forall|i: int, j: int| 0 <= i < j < out.len() implies out[i].0.value()
                <= out[j].0.value() by {
                if j == out.len() - 1 {
                    assert(t.contains(r[i]));
                    let k = choose|k: int| 0 <= k < t.len() && t[k] == r[i];
                    assert(s[k] == r[i]);
                }
            }
        }
    }
}

/// The largest distance has the largest value of its width.
proof fn lemma_max_distance_value<const ID_LEN: usize>(d: Distance<ID_LEN>)
    requires
        forall|i: int| 0 <= i < ID_LEN ==> d.0@[i] == 0xff,
    ensures
        d.value() == pow256(ID_LEN as nat) - 1,
{
    lemma_all_ff_value(d.0@);
}

proof fn lemma_all_ff_value(s: Seq<u8>)
    requires
        forall|i: int| 0 <= i < s.len() ==> s[i] == 0xff,
    ensures
        be_value(s) == pow256(s.len()) - 1,
    decreases s.len(),
{
    if s.len() > 0 {
        lemma_all_ff_value(s.drop_first());
        let p = pow256((s.len() - 1) as nat);
        assert(255 * p + (p - 1) == 256 * p - 1) by (nonlinear_arith);
    }
}

/// The items of `s` from `start` to `end`.
fn slice_range<T>(s: &[T], start: usize, end: usize) -> (r: &[T])
    requires
        start <= end <= s@.len(),
    ensures
        r@ == s@.subrange(start as int, end as int),
{
    vstd::slice::slice_subrange(s, start, end)
}

/// The items of `v`, in reverse order.
pub fn reverse_vec<T>(v: Vec<T>) -> (r: Vec<T>)
    ensures
        r@.len() == v@.len(),
        forall|i: int| 0 <= i < v@.len() ==> r@[i] == v@[v@.len() - 1 - i],
{
    let ghost orig = v@;
    let mut v = v;
    let mut r: Vec<T> = Vec::new();
    while v.len() > 0
        invariant
            v@.len() + r@.len() == orig.len(),
            v@ == orig.take(v@.len() as int),
            forall|i: int| 0 <= i < r@.len() ==> r@[i] == orig[orig.len() - 1 - i],
        decreases v@.len(),
    {
        let x = v.pop().unwrap();
        r.push(x);
        assert(v@ =~= orig.take(v@.len() as int));
    }
    r
}

} // verus!
