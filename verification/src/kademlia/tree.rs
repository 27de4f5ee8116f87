use vstd::prelude::*;

use crate::kademlia::bucket::{Error, Leaf, answers, distinct_nodes, has_node, keep_flagged};
use crate::kademlia::id::{Distance, bit_at, bit_of_array};
use crate::kademlia::pair::{Pair, node_eq_is_equality};

verus! {

/// Whether the first `k` bits of `d` are clear.
pub open spec fn prefix_zero(d: Seq<u8>, k: int) -> bool {
    forall|j: int| 0 <= j < k ==> !#[trigger] bit_at(d, j)
}

/// Whether some bit of a distance of `n` bytes is set.
pub open spec fn nonzero_distance(d: Seq<u8>, n: int) -> bool {
    !prefix_zero(d, 8 * n)
}

/// The routing tree: a spine of levels. The level at depth `depth` holds,
/// in `left`, the pairs whose distance has its first `depth` bits clear and
/// bit `depth` set; the pairs whose first `depth + 1` bits are clear go on
/// to the level below, `right`. The last level's leaf holds every pair that
/// reaches it.
pub struct Tree<Node, const ID_LEN: usize, const BUCKET_SIZE: usize> {
    left: Leaf<Node, ID_LEN, BUCKET_SIZE>,
    right: Option<Box<Tree<Node, ID_LEN, BUCKET_SIZE>>>,
    depth: usize,
}

impl<Node, const ID_LEN: usize, const BUCKET_SIZE: usize> Tree<Node, ID_LEN, BUCKET_SIZE> {
    /// The depth of this level.
    pub closed spec fn spec_depth(&self) -> nat {
        self.depth as nat
    }

    /// The pairs of the tree, in iteration order: the levels below first,
    /// then this level's leaf.
    pub closed spec fn contents(&self) -> Seq<Pair<Node, ID_LEN>>
        decreases self,
    {
        match self.right {
            Some(r) => r.contents() + self.left@,
            None => self.left@,
        }
    }

    /// Whether this level has a level below it.
    pub closed spec fn is_split(&self) -> bool {
        self.right is Some
    }

    /// Whether the level whose leaf a pair at distance `d` belongs to has a
    /// level below it (so that its leaf is not split again).
    pub closed spec fn route_has_below(&self, d: Seq<u8>) -> bool
        decreases self,
    {
        match self.right {
            Some(r) => if !bit_at(d, self.depth as int) {
                r.route_has_below(d)
            } else {
                true
            },
            None => false,
        }
    }

    /// Whether the leaf a pair at distance `d` belongs to is full and has a
    /// level below it: no pair can be added to it any more.
    pub open spec fn settled(&self, d: Seq<u8>) -> bool {
        self.route_leaf(d)@.len() == BUCKET_SIZE && self.route_has_below(d)
    }

    /// The level a distance routes to is this one or one below it.
    proof fn lemma_route_depth_at_least(&self, d: Seq<u8>)
        requires
            self.wf(),
        ensures
            self.route_depth(d) >= self.depth,
        decreases self,
    {
        if let Some(r) = self.right {
            r.lemma_route_depth_at_least(d);
        }
    }

    /// Two distances that route to the same level route to the same leaf.
    proof fn lemma_same_depth_same_leaf(&self, d: Seq<u8>, e: Seq<u8>)
        requires
            self.wf(),
            self.route_depth(d) == self.route_depth(e),
        ensures
            self.route_leaf(d) == self.route_leaf(e),
            self.route_has_below(d) == self.route_has_below(e),
        decreases self,
    {
        if let Some(r) = self.right {
            r.lemma_route_depth_at_least(d);
            r.lemma_route_depth_at_least(e);
            if !bit_at(d, self.depth as int) && !bit_at(e, self.depth as int) {
                r.lemma_same_depth_same_leaf(d, e);
            }
        }
    }

    /// A full leaf of a saturated tree has a level below it.
    proof fn lemma_saturated_full_settled(&self, d: Seq<u8>)
        requires
            self.saturated(),
            self.route_leaf(d)@.len() == BUCKET_SIZE,
        ensures
            self.settled(d),
        decreases self,
    {
        if let Some(r) = self.right {
            if !bit_at(d, self.depth as int) {
                r.lemma_saturated_full_settled(d);
            }
        }
    }

    /// Dropping the first empty tail keeps the level below of every
    /// nonempty leaf.
    proof fn lemma_merged_keeps_below(&self, d: Seq<u8>)
        requires
            self.route_leaf(d)@.len() > 0,
            self.route_has_below(d),
        ensures
            self.merged().route_has_below(d),
        decreases self,
    {
        if let Some(r) = self.right {
            if r.contents().len() + self.left@.len() == 0 {
                if !bit_at(d, self.depth as int) {
                    r.lemma_route_leaf_within(d);
                }
            } else if !bit_at(d, self.depth as int) {
                r.lemma_merged_keeps_below(d);
            }
        }
    }

    /// The number of levels from this one down.
    pub closed spec fn height(&self) -> nat
        decreases self,
    {
        match self.right {
            Some(r) => 1 + r.height(),
            None => 1,
        }
    }

    /// The well-formedness of a level and the levels below it.
    pub closed spec fn wf(&self) -> bool
        decreases self,
    {
        &&& self.depth <= 8 * ID_LEN
        &&& self.left@.len() <= BUCKET_SIZE
        &&& distinct_nodes(self.left@)
        &&& forall|i: int|
            0 <= i < self.left@.len() ==> {
                &&& prefix_zero(#[trigger] self.left@[i].0.0@, self.depth as int)
                &&& nonzero_distance(self.left@[i].0.0@, ID_LEN as int)
            }
        &&& (self.depth == 8 * ID_LEN ==> self.left@.len() == 0 && self.right is None)
        &&& match self.right {
            Some(r) => {
                &&& r.depth == self.depth + 1
                &&& r.wf()
                &&& forall|i: int|
                    0 <= i < self.left@.len() ==> bit_at(
                        #[trigger] self.left@[i].0.0@,
                        self.depth as int,
                    )
            },
            None => true,
        }
    }

    /// No level has a full leaf and no level below it.
    pub closed spec fn saturated(&self) -> bool
        decreases self,
    {
        &&& (self.left@.len() == BUCKET_SIZE ==> self.right is Some)
        &&& match self.right {
            Some(r) => r.saturated(),
            None => true,
        }
    }

    /// The leaf that a pair at distance `d` belongs to.
    pub closed spec fn route_leaf(&self, d: Seq<u8>) -> Leaf<Node, ID_LEN, BUCKET_SIZE>
        decreases self,
    {
        match self.right {
            Some(r) => if !bit_at(d, self.depth as int) {
                r.route_leaf(d)
            } else {
                self.left
            },
            None => self.left,
        }
    }

    /// The depth of the level whose leaf a pair at distance `d` belongs to.
    pub closed spec fn route_depth(&self, d: Seq<u8>) -> nat
        decreases self,
    {
        match self.right {
            Some(r) => if !bit_at(d, self.depth as int) {
                r.route_depth(d)
            } else {
                self.depth as nat
            },
            None => self.depth as nat,
        }
    }

    /// Every level that has a level below holds some pair in its leaf or
    /// below it.
    pub closed spec fn trimmed(&self) -> bool
        decreases self,
    {
        match self.right {
            Some(r) => r.contents().len() + self.left@.len() > 0 && r.trimmed(),
            None => true,
        }
    }

    /// Dropping the first empty tail leaves no empty tail.
    proof fn lemma_merged_trimmed(&self)
        ensures
            self.merged().trimmed(),
        decreases self,
    {
        match self.right {
            Some(r) => {
                if r.contents().len() + self.left@.len() != 0 {
                    r.lemma_merged_trimmed();
                    r.lemma_merged_contents();
                }
            },
            None => {},
        }
    }

    /// Dropping the first empty tail keeps the pairs.
    proof fn lemma_merged_contents(&self)
        ensures
            self.merged().contents() == self.contents(),
        decreases self,
    {
        match self.right {
            Some(r) => {
                r.lemma_merged_contents();
                if r.contents().len() + self.left@.len() == 0 {
                    assert(self.contents() =~= self.left@);
                }
            },
            None => {},
        }
    }

    /// A tree with no empty tail and no pair is one empty leaf.
    pub proof fn lemma_trimmed_empty_is_one_leaf(&self)
        requires
            self.trimmed(),
            self.contents().len() == 0,
        ensures
            self.leaves().len() == 1,
            self.leaves()[0]@.len() == 0,
    {
        match self.right {
            Some(r) => {
                assert(r.contents().len() + self.left@.len() == 0 || self.contents().len() > 0);
            },
            None => {},
        }
    }

    /// The number of pairs in the leaves `ls`, all together.
    pub open spec fn leaves_total(ls: Seq<Leaf<Node, ID_LEN, BUCKET_SIZE>>) -> nat
        decreases ls.len(),
    {
        if ls.len() == 0 {
            0
        } else {
            Self::leaves_total(ls.drop_last()) + ls.last()@.len()
        }
    }

    /// The pairs of a tree are the pairs of its leaves: their number is the
    /// leaves' sizes added up, whatever operations built the tree.
    pub proof fn lemma_len_is_leaves_total(&self)
        ensures
            self.contents().len() == Self::leaves_total(self.leaves()),
        decreases self,
    {
        match self.right {
            Some(r) => {
                r.lemma_len_is_leaves_total();
                let ls = r.leaves().push(self.left);
                assert(ls.drop_last() =~= r.leaves());
                assert(ls.last() == self.left);
                assert(self.leaves() == ls);
                assert(Self::leaves_total(ls) == Self::leaves_total(r.leaves()) + self.left@.len());
            },
            None => {
                let ls = seq![self.left];
                assert(ls.drop_last() =~= Seq::<Leaf<Node, ID_LEN, BUCKET_SIZE>>::empty());
                assert(Self::leaves_total(ls.drop_last()) == 0);
                assert(self.leaves() == ls);
                assert(Self::leaves_total(ls) == self.left@.len());
            },
        }
    }

    /// The tree with its first empty tail dropped: going down from this
    /// level, the first level whose leaf and levels below hold no pair at
    /// all loses the levels below it.
    pub closed spec fn merged(self) -> Self
        decreases self,
    {
        match self.right {
            Some(r) => if r.contents().len() + self.left@.len() == 0 {
                Tree { left: self.left, right: None, depth: self.depth }
            } else {
                Tree { left: self.left, right: Some(Box::new(r.merged())), depth: self.depth }
            },
            None => self,
        }
    }

    /// The leaves, in iteration order.
    pub closed spec fn leaves(&self) -> Seq<Leaf<Node, ID_LEN, BUCKET_SIZE>>
        decreases self,
    {
        match self.right {
            Some(r) => r.leaves().push(self.left),
            None => seq![self.left],
        }
    }

    /// An empty tree at depth 0.
    pub fn new() -> (t: Self)
        ensures
            t.wf(),
            t.spec_depth() == 0,
            t.contents() == Seq::<Pair<Node, ID_LEN>>::empty(),
            t.leaves().len() == 1,
            t.leaves()[0]@ == Seq::<Pair<Node, ID_LEN>>::empty(),
            t.trimmed(),
            t.saturated() <==> BUCKET_SIZE > 0,
    {
        Self::new_with_depth(0)
    }

    fn new_with_depth(depth: usize) -> (t: Self)
        requires
            depth < 8 * ID_LEN || depth == 8 * ID_LEN,
        ensures
            t.wf(),
            t.depth == depth,
            t.right is None,
            t.left@ == Seq::<Pair<Node, ID_LEN>>::empty(),
            t.contents() == Seq::<Pair<Node, ID_LEN>>::empty(),
            t.saturated() <==> BUCKET_SIZE > 0,
    {
        Tree { left: Leaf::new(), right: None, depth }
    }

    /// The total number of pairs in this level and the levels below.
    pub fn len(&self) -> (n: usize)
        requires
            self.wf(),
            (8 * ID_LEN + 1) * BUCKET_SIZE <= usize::MAX,
        ensures
            n == self.contents().len(),
            n == Self::leaves_total(self.leaves()),
        decreases self,
    {
        proof {
            self.lemma_len_is_leaves_total();
            self.lemma_len_bound();
            assert((8 * ID_LEN + 1 - self.depth) * BUCKET_SIZE <= (8 * ID_LEN + 1) * BUCKET_SIZE)
                by (nonlinear_arith)
                requires
                    self.depth <= 8 * ID_LEN,
            ;
        }
        match &self.right {
            Some(right) => self.left.len() + right.len(),
            None => self.left.len(),
        }
    }

    proof fn lemma_len_bound(&self)
        requires
            self.wf(),
        ensures
            self.contents().len() <= (8 * ID_LEN + 1 - self.depth) * BUCKET_SIZE,
        decreases self,
    {
        match self.right {
            Some(r) => {
                r.lemma_len_bound();
                assert((8 * ID_LEN + 1 - r.depth) * BUCKET_SIZE + BUCKET_SIZE == (8 * ID_LEN + 1
                    - self.depth) * BUCKET_SIZE) by (nonlinear_arith)
                    requires
                        r.depth == self.depth + 1,
                        self.depth < 8 * ID_LEN,
                ;
            },
            None => {
                assert(BUCKET_SIZE <= (8 * ID_LEN + 1 - self.depth) * BUCKET_SIZE) by (nonlinear_arith)
                    requires
                        self.depth <= 8 * ID_LEN,
                ;
            },
        }
    }

    /// The leaf that a pair at distance `distance` belongs to.
    pub fn get_leaf(&self, distance: &Distance<ID_LEN>) -> (l: &Leaf<Node, ID_LEN, BUCKET_SIZE>)
        requires
            self.wf(),
            8 * ID_LEN <= usize::MAX,
        ensures
            *l == self.route_leaf(distance.0@),
        decreases self,
    {
        match &self.right {
            Some(right) => {
                let bit = bit_of_array::<ID_LEN>(distance.0.as_slice(), self.depth);
                if !bit {
                    right.get_leaf(distance)
                } else {
                    &self.left
                }
            },
            None => &self.left,
        }
    }

    /// The pairs, the levels below first, then this level's leaf.
    pub fn iter(&self) -> (v: Vec<&Pair<Node, ID_LEN>>)
        requires
            self.wf(),
        ensures
            v@.len() == self.contents().len(),
            forall|i: int| 0 <= i < v@.len() ==> *v@[i] == self.contents()[i],
        decreases self,
    {
        let mut v: Vec<&Pair<Node, ID_LEN>> = match &self.right {
            Some(right) => right.iter(),
            None => Vec::new(),
        };
        let ghost prefix = match &self.right {
            Some(r) => r.contents(),
            None => Seq::<Pair<Node, ID_LEN>>::empty(),
        };
        let s = self.left.iter();
        let mut i: usize = 0;
        while i < s.len()
            invariant
                i <= s@.len(),
                s@ == self.left@,
                v@.len() == prefix.len() + i,
                forall|k: int| 0 <= k < prefix.len() ==> *v@[k] == prefix[k],
                forall|k: int| 0 <= k < i ==> *v@[prefix.len() + k] == s@[k],
            decreases s@.len() - i,
        {
            v.push(&s[i]);
            i = i + 1;
        }
        v
    }

    /// The leaves, the levels below first, then this level's.
    pub fn leaves_iter(&self) -> (v: Vec<&Leaf<Node, ID_LEN, BUCKET_SIZE>>)
        ensures
            v@.len() == self.leaves().len(),
            forall|i: int| 0 <= i < v@.len() ==> *v@[i] == self.leaves()[i],
        decreases self,
    {
        let mut v: Vec<&Leaf<Node, ID_LEN, BUCKET_SIZE>> = match &self.right {
            Some(right) => right.leaves_iter(),
            None => Vec::new(),
        };
        v.push(&self.left);
        v
    }
}

/// The pairs of `s` whose bit `d` is `b`, in order.
pub open spec fn select_bit<Node, const ID_LEN: usize>(
    s: Seq<Pair<Node, ID_LEN>>,
    d: int,
    b: bool,
) -> Seq<Pair<Node, ID_LEN>>
    decreases s.len(),
{
    if s.len() == 0 {
        Seq::empty()
    } else {
        let r = select_bit(s.drop_last(), d, b);
        if bit_at(s.last().0.0@, d) == b {
            r.push(s.last())
        } else {
            r
        }
    }
}

/// Every selected pair is a pair of `s` with bit `d` equal to `b`; there are
/// no more of them than pairs in `s`; distinct nodes stay distinct.
pub proof fn lemma_select_bit<Node, const ID_LEN: usize>(
    s: Seq<Pair<Node, ID_LEN>>,
    d: int,
    b: bool,
)
    ensures
        select_bit(s, d, b).len() <= s.len(),
        forall|i: int|
            0 <= i < select_bit(s, d, b).len() ==> bit_at(#[trigger] select_bit(s, d, b)[i].0.0@, d)
                == b,
        forall|i: int|
            0 <= i < select_bit(s, d, b).len() ==> exists|j: int|
                0 <= j < s.len() && #[trigger] select_bit(s, d, b)[i] == s[j],
        distinct_nodes(s) ==> distinct_nodes(select_bit(s, d, b)),
        forall|node: Node| has_node(select_bit(s, d, b), node) ==> has_node(s, node),
    decreases s.len(),
{
    if s.len() > 0 {
        let t = s.drop_last();
        lemma_select_bit(t, d, b);
        let r = select_bit(t, d, b);
        let sel = select_bit(s, d, b);
        assert forall|i: int| 0 <= i < sel.len() implies exists|j: int|
            0 <= j < s.len() && #[trigger] sel[i] == s[j] by {
            if i < r.len() {
                let j = choose|j: int| 0 <= j < t.len() && r[i] == t[j];
                assert(sel[i] == s[j]);
            } else {
                assert(sel[i] == s[s.len() - 1]);
            }
        }
        assert forall|node: Node| has_node(sel, node) implies has_node(s, node) by {
            let k = choose|k: int| 0 <= k < sel.len() && sel[k].1 == node;
            let j = choose|j: int| 0 <= j < s.len() && #[trigger] sel[k] == s[j];
            assert(s[j].1 == node);
        }
        if distinct_nodes(s) {
            assert(distinct_nodes(t));
            if bit_at(s.last().0.0@, d) == b {
                assert forall|i: int, j: int| 0 <= i < j < sel.len() implies sel[i].1 != sel[j].1 by {
                    if j == sel.len() - 1 && sel[i].1 == sel[j].1 {
                        let k = choose|k: int| 0 <= k < t.len() && r[i] == t[k];
                        assert(s[k].1 == s[s.len() - 1].1);
                    }
                }
            }
        }
    }
}

/// Splitting by one bit neither loses nor adds pairs.
pub proof fn lemma_select_partition<Node, const ID_LEN: usize>(
    s: Seq<Pair<Node, ID_LEN>>,
    d: int,
)
    ensures
        (select_bit(s, d, false) + select_bit(s, d, true)).to_multiset() == s.to_multiset(),
    decreases s.len(),
{
    broadcast use vstd::seq_lib::group_to_multiset_ensures;
    let f = select_bit(s, d, false);
    let t = select_bit(s, d, true);
    vstd::seq_lib::lemma_multiset_commutative(f, t);
    if s.len() > 0 {
        let u = s.drop_last();
        lemma_select_partition(u, d);
        vstd::seq_lib::lemma_multiset_commutative(select_bit(u, d, false), select_bit(u, d, true));
        assert(s =~= u.push(s.last()));
    } else {
        assert(f =~= Seq::<Pair<Node, ID_LEN>>::empty());
        assert(t =~= Seq::<Pair<Node, ID_LEN>>::empty());
    }
}

/// The items of `v`, in reverse order.
fn reverse_vec<T>(v: Vec<T>) -> (r: Vec<T>)
    ensures
        r@.len() == v@.len(),
        forall|i: int| 0 <= i < v@.len() ==> r@[i] == v@[v@.len() - 1 - i],
{
    let ghost orig = v@;
    let mut v = v;
    let mut r: Vec<T> = Vec::new();
    while v.len() > 0
        invariant
            v@.len() + r@.len() == orig.len(),
            v@ == orig.take(v@.len() as int),
            forall|i: int| 0 <= i < r@.len() ==> r@[i] == orig[orig.len() - 1 - i],
        decreases v@.len(),
    {
        let x = v.pop().unwrap();
        r.push(x);
        assert(v@ =~= orig.take(v@.len() as int));
    }
    r
}

impl<Node: PartialEq, const ID_LEN: usize, const BUCKET_SIZE: usize> Tree<Node, ID_LEN, BUCKET_SIZE> {
    /// Splits this level when its leaf is full and it has no level below:
    /// the pairs whose bit at this depth is clear move to a new level below.
    fn maybe_split(&mut self)
        requires
            old(self).wf(),
            BUCKET_SIZE > 0,
            node_eq_is_equality::<Node>(),
            8 * ID_LEN <= usize::MAX,
        ensures
            final(self).wf(),
            final(self).depth == old(self).depth,
            final(self).contents().to_multiset() == old(self).contents().to_multiset(),
            old(self).right is Some ==> *final(self) == *old(self),
            old(self).left@.len() < BUCKET_SIZE ==> *final(self) == *old(self),
            old(self).right is None && old(self).left@.len() == BUCKET_SIZE ==> {
                &&& final(self).left@ == select_bit(old(self).left@, old(self).depth as int, true)
                &&& final(self).right matches Some(r) && r.depth == old(self).depth + 1 && r.right is None
                    && r.left@ == select_bit(old(self).left@, old(self).depth as int, false)
            },
            final(self).left@.len() == BUCKET_SIZE ==> final(self).right is Some,
    {
        if self.left.is_full() && self.right.is_none() {
            let d = self.depth;
            assert(d < 8 * ID_LEN);
            let mut lower = Self::new_with_depth(d + 1);
            let ghost orig = self.left@;
            let drained = self.left.drain();
            let mut rev = reverse_vec(drained);
            assert(self.left@ =~= select_bit(orig.take(0), d as int, true));
            assert(lower.left@ =~= select_bit(orig.take(0), d as int, false));
            while rev.len() > 0
                invariant
                    node_eq_is_equality::<Node>(),
                    8 * ID_LEN <= usize::MAX,
                    d < 8 * ID_LEN,
                    orig.len() == BUCKET_SIZE,
                    distinct_nodes(orig),
                    rev@.len() <= orig.len(),
                    forall|i: int| 0 <= i < rev@.len() ==> rev@[i] == orig[orig.len() - 1 - i],
                    self.left@ == select_bit(orig.take(orig.len() - rev@.len()), d as int, true),
                    lower.left@ == select_bit(orig.take(orig.len() - rev@.len()), d as int, false),
                    self.depth == d,
                    self.right is None,
                    lower.depth == d + 1,
                    lower.right is None,
                decreases rev@.len(),
            {
                let ghost k = orig.len() - rev@.len();
                let pair = rev.pop().unwrap();
                assert(pair == orig[k]);
                let ghost prefix = orig.take(k);
                proof {
                    assert(orig.take(k + 1).drop_last() =~= prefix);
                    assert(orig.take(k + 1).last() == pair);
                    lemma_select_bit(prefix, d as int, true);
                    lemma_select_bit(prefix, d as int, false);
                    assert(!has_node(prefix, pair.1)) by {
                        if has_node(prefix, pair.1) {
                            let j = choose|j: int| 0 <= j < prefix.len() && prefix[j].1 == pair.1;
                            assert(orig[j].1 == orig[k].1);
                        }
                    }
                }
                let b = bit_of_array::<ID_LEN>(pair.0.0.as_slice(), d);
                if b {
                    let _ = self.left.try_insert(pair);
                } else {
                    let _ = lower.left.try_insert(pair);
                }
            }
            proof {
                assert(orig.take(orig.len() as int) =~= orig);
                lemma_select_bit(orig, d as int, true);
                lemma_select_bit(orig, d as int, false);
                lemma_select_partition(orig, d as int);
                let lo = select_bit(orig, d as int, false);
                let hi = select_bit(orig, d as int, true);
                assert forall|i: int| 0 <= i < lo.len() implies {
                    &&& prefix_zero(#[trigger] lo[i].0.0@, d + 1)
                    &&& nonzero_distance(lo[i].0.0@, ID_LEN as int)
                } by {
                    let j = choose|j: int| 0 <= j < orig.len() && #[trigger] lo[i] == orig[j];
                    assert(prefix_zero(orig[j].0.0@, d as int));
                    assert(!bit_at(lo[i].0.0@, d as int));
                }
                assert forall|i: int| 0 <= i < hi.len() implies {
                    &&& prefix_zero(#[trigger] hi[i].0.0@, d as int)
                    &&& nonzero_distance(hi[i].0.0@, ID_LEN as int)
                } by {
                    let j = choose|j: int| 0 <= j < orig.len() && #[trigger] hi[i] == orig[j];
                    assert(prefix_zero(orig[j].0.0@, d as int));
                }
                if d + 1 == 8 * ID_LEN && lo.len() > 0 {
                    assert(prefix_zero(lo[0].0.0@, d + 1));
                    assert(nonzero_distance(lo[0].0.0@, ID_LEN as int));
                }
                assert(lower.contents() == lower.left@);
                assert(lower.wf());
                assert(forall|i: int|
                    0 <= i < self.left@.len() ==> bit_at(#[trigger] self.left@[i].0.0@, d as int));
                assert(forall|i: int|
                    0 <= i < self.left@.len() ==> {
                        &&& prefix_zero(#[trigger] self.left@[i].0.0@, d as int)
                        &&& nonzero_distance(self.left@[i].0.0@, ID_LEN as int)
                    });
            }
            self.right = Some(Box::new(lower));
        }
    }

    /// Splits every level whose leaf is full and has no level below, from
    /// this level down.
    fn maybe_split_recursively(&mut self)
        requires
            old(self).wf(),
            BUCKET_SIZE > 0,
            node_eq_is_equality::<Node>(),
            8 * ID_LEN <= usize::MAX,
        ensures
            final(self).wf(),
            final(self).saturated(),
            final(self).depth == old(self).depth,
            final(self).contents().to_multiset() == old(self).contents().to_multiset(),
            forall|d: Seq<u8>|
                old(self).settled(d) ==> #[trigger] final(self).route_leaf(d) == old(self).route_leaf(d)
                    && final(self).route_has_below(d),
        decreases 8 * ID_LEN - old(self).depth,
    {
        self.maybe_split();
        proof {
            assert forall|d: Seq<u8>| old(self).settled(d) implies *self == *old(self) by {
                assert(old(self).right is Some);
            }
        }
        let ghost mid = *self;
        let r = self.right.take();
        match r {
            Some(mut right) => {
                assert(right.depth == self.depth + 1);
                right.maybe_split_recursively();
                self.right = Some(right);
                proof {
                    broadcast use vstd::seq_lib::group_to_multiset_ensures;
                    vstd::seq_lib::lemma_multiset_commutative(mid.right.unwrap().contents(), mid.left@);
                    vstd::seq_lib::lemma_multiset_commutative(right.contents(), self.left@);
                    assert forall|d: Seq<u8>| old(self).settled(d) implies #[trigger] self.route_leaf(d)
                        == old(self).route_leaf(d) && self.route_has_below(d) by {
                        assert(mid == *old(self));
                        let mr = mid.right.unwrap();
                        if !bit_at(d, self.depth as int) {
                            assert(mid.route_leaf(d) == mr.route_leaf(d));
                            assert(mid.route_has_below(d) == mr.route_has_below(d));
                            assert(mr.settled(d));
                            assert(right.route_leaf(d) == mr.route_leaf(d));
                            assert(self.route_leaf(d) == right.route_leaf(d));
                            assert(self.route_has_below(d) == right.route_has_below(d));
                        } else {
                            assert(self.left == mid.left);
                            assert(self.route_leaf(d) == self.left);
                            assert(mid.route_leaf(d) == mid.left);
                        }
                    }
                }
            },
            None => {},
        }
    }

    /// Drops every level below this one that holds no pair at all.
    fn maybe_merge_recursively(&mut self)
        requires
            old(self).wf(),
            (8 * ID_LEN + 1) * BUCKET_SIZE <= usize::MAX,
        ensures
            *final(self) == old(self).merged(),
            final(self).trimmed(),
            final(self).wf(),
            final(self).depth == old(self).depth,
            final(self).contents() == old(self).contents(),
            old(self).saturated() && BUCKET_SIZE > 0 ==> final(self).saturated(),
            forall|d: Seq<u8>|
                old(self).route_leaf(d)@.len() > 0 ==> #[trigger] final(self).route_leaf(d)
                    == old(self).route_leaf(d),
            forall|d: Seq<u8>|
                old(self).route_leaf(d)@.len() == 0 ==> (#[trigger] final(self).route_leaf(d))@.len()
                    == 0,
        decreases old(self).height(),
    {
        proof {
            self.lemma_merged_trimmed();
        }
        let r = self.right.take();
        match r {
            None => {},
            Some(mut right) => {
                proof {
                    right.lemma_len_bound();
                    assert((8 * ID_LEN + 1 - right.depth) * BUCKET_SIZE + BUCKET_SIZE <= (8 * ID_LEN
                        + 1) * BUCKET_SIZE) by (nonlinear_arith)
                        requires
                            right.depth >= 1,
                            right.depth <= 8 * ID_LEN,
                    ;
                }
                if right.len() + self.left.len() == 0 {
                    assert(self.left@.len() == 0);
                    assert(right.contents().len() == 0);
                    self.right = None;
                    assert(self.contents() =~= old(self).contents());
                    proof {
                        assert forall|d: Seq<u8>|
                            old(self).route_leaf(d)@.len() > 0 implies #[trigger] self.route_leaf(d)
                            == old(self).route_leaf(d) by {
                            right.lemma_route_leaf_within(d);
                            if !bit_at(d, self.depth as int) {
                                assert(old(self).route_leaf(d) == right.route_leaf(d));
                            }
                        }
                        assert forall|d: Seq<u8>|
                            old(self).route_leaf(d)@.len() == 0 implies (#[trigger] self.route_leaf(d))@.len()
                            == 0 by {
                        }
                    }
                } else {
                    let ghost old_right = *right;
                    right.maybe_merge_recursively();
                    let ghost new_right = *right;
                    self.right = Some(right);
                    proof {
                        assert forall|d: Seq<u8>|
                            old(self).route_leaf(d)@.len() > 0 implies #[trigger] self.route_leaf(d)
                            == old(self).route_leaf(d) by {
                            if !bit_at(d, self.depth as int) {
                                assert(old(self).route_leaf(d) == old_right.route_leaf(d));
                                assert(old_right.route_leaf(d)@.len() > 0);
                                assert(new_right.route_leaf(d) == old_right.route_leaf(d));
                                assert(self.route_leaf(d) == new_right.route_leaf(d));
                            }
                        }
                        assert forall|d: Seq<u8>|
                            old(self).route_leaf(d)@.len() == 0 implies (#[trigger] self.route_leaf(d))@.len()
                            == 0 by {
                            if !bit_at(d, self.depth as int) {
                                assert(old(self).route_leaf(d) == old_right.route_leaf(d));
                                assert(self.route_leaf(d) == new_right.route_leaf(d));
                            }
                        }
                    }
                }
            },
        }
    }
}

impl<Node: PartialEq, const ID_LEN: usize, const BUCKET_SIZE: usize> Tree<Node, ID_LEN, BUCKET_SIZE> {
    /// Inserts the pair into the leaf it routes to, as `Leaf::try_insert`
    /// does.
    fn insert_at_route(&mut self, pair: Pair<Node, ID_LEN>) -> (r: Result<(), Error>)
        requires
            old(self).wf(),
            node_eq_is_equality::<Node>(),
            8 * ID_LEN <= usize::MAX,
            nonzero_distance(pair.0.0@, ID_LEN as int),
            prefix_zero(pair.0.0@, old(self).depth as int),
        ensures
            final(self).wf(),
            final(self).depth == old(self).depth,
            ({
                let l = old(self).route_leaf(pair.0.0@)@;
                let f = final(self).route_leaf(pair.0.0@)@;
                &&& has_node(l, pair.1) ==> r is Ok && final(self).contents() == old(self).contents()
                    && f == l
                &&& !has_node(l, pair.1) && l.len() < BUCKET_SIZE ==> r is Ok
                    && final(self).contents().to_multiset() == old(self).contents().to_multiset().insert(pair)
                    && f == l.push(pair)
                &&& !has_node(l, pair.1) && l.len() >= BUCKET_SIZE ==> r == Err::<(), Error>(
                    Error::FullLeaf,
                ) && final(self).contents() == old(self).contents() && f == l
            }),
            old(self).saturated() && old(self).route_leaf(pair.0.0@)@.len() < BUCKET_SIZE
                - 1 ==> final(self).saturated(),
            forall|d: Seq<u8>|
                old(self).route_depth(d) != old(self).route_depth(pair.0.0@)
                    ==> #[trigger] final(self).route_leaf(d) == old(self).route_leaf(d),
            forall|d: Seq<u8>| #[trigger] final(self).route_depth(d) == old(self).route_depth(d),
            forall|d: Seq<u8>| #[trigger] final(self).route_has_below(d) == old(self).route_has_below(d),
        decreases old(self).height(),
    {
        let r = self.right.take();
        match r {
            Some(mut right) => {
                let b = bit_of_array::<ID_LEN>(pair.0.0.as_slice(), self.depth);
                if !b {
                    let res = right.insert_at_route(pair);
                    self.right = Some(right);
                    proof {
                        broadcast use vstd::seq_lib::group_to_multiset_ensures;
                        let old_right = old(self).right.unwrap();
                        vstd::seq_lib::lemma_multiset_commutative(old_right.contents(), self.left@);
                        vstd::seq_lib::lemma_multiset_commutative(right.contents(), self.left@);
                        assert forall|d: Seq<u8>| #[trigger] self.route_depth(d) == old(self).route_depth(d) by {
                            if !bit_at(d, self.depth as int) {
                                assert(right.route_depth(d) == old_right.route_depth(d));
                            }
                        }
                        assert forall|d: Seq<u8>| #[trigger] self.route_has_below(d) == old(self).route_has_below(d) by {
                            if !bit_at(d, self.depth as int) {
                                assert(right.route_has_below(d) == old_right.route_has_below(d));
                            }
                        }
                        assert forall|d: Seq<u8>|
                            old(self).route_depth(d) != old(self).route_depth(pair.0.0@)
                            implies #[trigger] self.route_leaf(d) == old(self).route_leaf(d) by {
                            if !bit_at(d, self.depth as int) {
                                assert(old_right.route_depth(d) != old_right.route_depth(pair.0.0@));
                                assert(right.route_leaf(d) == old_right.route_leaf(d));
                            }
                        }
                    }
                    res
                } else {
                    self.right = Some(right);
                    let res = self.left.try_insert(pair);
                    proof {
                        broadcast use vstd::seq_lib::group_to_multiset_ensures;
                        let rc = self.right.unwrap().contents();
                        vstd::seq_lib::lemma_multiset_commutative(rc, old(self).left@);
                        vstd::seq_lib::lemma_multiset_commutative(rc, self.left@);
                        assert(rc + old(self).left@.push(pair) =~= (rc + old(self).left@).push(pair));
                        assert forall|d: Seq<u8>| #[trigger] self.route_depth(d) == old(self).route_depth(d) by {
                        }
                        assert forall|d: Seq<u8>| #[trigger] self.route_has_below(d) == old(self).route_has_below(d) by {
                        }
                        assert forall|d: Seq<u8>|
                            old(self).route_depth(d) != old(self).route_depth(pair.0.0@)
                            implies #[trigger] self.route_leaf(d) == old(self).route_leaf(d) by {
                            if bit_at(d, self.depth as int) {
                                assert(old(self).route_depth(d) == self.depth);
                                assert(false);
                            }
                        }
                    }
                    res
                }
            },
            None => {
                let res = self.left.try_insert(pair);
                proof {
                    broadcast use vstd::seq_lib::group_to_multiset_ensures;
                }
                res
            },
        }
    }
}

impl<Node, const ID_LEN: usize, const BUCKET_SIZE: usize> Tree<Node, ID_LEN, BUCKET_SIZE> {
    /// Puts `node` in place of the node of the `i`-th pair of the leaf that
    /// `distance` routes to; the pair keeps its distance, and no other pair
    /// of that leaf may hold `node`. Every other leaf stays as it was.
    pub fn set_node(&mut self, distance: &Distance<ID_LEN>, i: usize, node: Node)
        requires
            old(self).wf(),
            8 * ID_LEN <= usize::MAX,
            i < old(self).route_leaf(distance.0@)@.len(),
            forall|j: int|
                0 <= j < old(self).route_leaf(distance.0@)@.len() && j != i
                    ==> old(self).route_leaf(distance.0@)@[j].1 != node,
        ensures
            final(self).wf(),
            final(self).spec_depth() == old(self).spec_depth(),
            final(self).route_leaf(distance.0@)@ == old(self).route_leaf(distance.0@)@.update(
                i as int,
                Pair(old(self).route_leaf(distance.0@)@[i as int].0, node),
            ),
            forall|d: Seq<u8>|
                old(self).route_depth(d) != old(self).route_depth(distance.0@)
                    ==> #[trigger] final(self).route_leaf(d) == old(self).route_leaf(d),
            forall|d: Seq<u8>| #[trigger] final(self).route_depth(d) == old(self).route_depth(d),
            final(self).contents().len() == old(self).contents().len(),
            old(self).saturated() ==> final(self).saturated(),
        decreases old(self).height(),
    {
        let r = self.right.take();
        match r {
            Some(mut right) => {
                let b = bit_of_array::<ID_LEN>(distance.0.as_slice(), self.depth);
                if !b {
                    right.set_node(distance, i, node);
                    self.right = Some(right);
                    proof {
                        let old_right = old(self).right.unwrap();
                        assert forall|d: Seq<u8>| #[trigger] self.route_depth(d) == old(self).route_depth(d) by {
                            if !bit_at(d, self.depth as int) {
                                assert(right.route_depth(d) == old_right.route_depth(d));
                            }
                        }
                        assert forall|d: Seq<u8>|
                            old(self).route_depth(d) != old(self).route_depth(distance.0@)
                            implies #[trigger] self.route_leaf(d) == old(self).route_leaf(d) by {
                            if !bit_at(d, self.depth as int) {
                                assert(old_right.route_depth(d) != old_right.route_depth(distance.0@));
                                assert(right.route_leaf(d) == old_right.route_leaf(d));
                            }
                        }
                    }
                } else {
                    self.right = Some(right);
                    let ghost before = self.left@;
                    self.left.set_node(i, node);
                    proof {
                        let l = self.left@;
                        assert forall|k: int| 0 <= k < l.len() implies {
                            &&& prefix_zero(#[trigger] l[k].0.0@, self.depth as int)
                            &&& nonzero_distance(l[k].0.0@, ID_LEN as int)
                            &&& bit_at(l[k].0.0@, self.depth as int)
                        } by {
                            assert(l[k].0 == before[k].0);
                        }
                        assert forall|a: int, c: int| 0 <= a < c < l.len() implies l[a].1 != l[c].1 by {
                            if a != i && c != i {
                                assert(before[a].1 != before[c].1);
                            }
                        }
                        assert forall|d: Seq<u8>| #[trigger] self.route_depth(d) == old(self).route_depth(d) by {
                        }
                        assert forall|d: Seq<u8>|
                            old(self).route_depth(d) != old(self).route_depth(distance.0@)
                            implies #[trigger] self.route_leaf(d) == old(self).route_leaf(d) by {
                            if bit_at(d, self.depth as int) {
                                assert(old(self).route_depth(d) == self.depth);
                                assert(false);
                            }
                        }
                    }
                }
            },
            None => {
                let ghost before = self.left@;
                self.left.set_node(i, node);
                proof {
                    let l = self.left@;
                    assert forall|k: int| 0 <= k < l.len() implies {
                        &&& prefix_zero(#[trigger] l[k].0.0@, self.depth as int)
                        &&& nonzero_distance(l[k].0.0@, ID_LEN as int)
                    } by {
                        assert(l[k].0 == before[k].0);
                    }
                    assert forall|a: int, c: int| 0 <= a < c < l.len() implies l[a].1 != l[c].1 by {
                        if a != i && c != i {
                            assert(before[a].1 != before[c].1);
                        }
                    }
                }
            },
        }
    }

    /// The leaf a distance routes to holds no more pairs than the tree.
    proof fn lemma_route_leaf_within(&self, d: Seq<u8>)
        ensures
            self.route_leaf(d)@.len() <= self.contents().len(),
        decreases self,
    {
        match self.right {
            Some(r) => {
                r.lemma_route_leaf_within(d);
            },
            None => {},
        }
    }
}

impl<Node: PartialEq, const ID_LEN: usize, const BUCKET_SIZE: usize> Tree<Node, ID_LEN, BUCKET_SIZE> {
    /// Removes, from the leaf that `distance` routes to, the pairs for which
    /// `predicate` answers true.
    fn remove_at_route<F: Fn(&Pair<Node, ID_LEN>) -> bool>(
        &mut self,
        distance: &Distance<ID_LEN>,
        predicate: F,
    )
        requires
            old(self).wf(),
            8 * ID_LEN <= usize::MAX,
            forall|x: Pair<Node, ID_LEN>| call_requires(predicate, (&x,)),
        ensures
            final(self).wf(),
            final(self).depth == old(self).depth,
            exists|keep: Seq<bool>|
                #![trigger answers(predicate, old(self).route_leaf(distance.0@)@, keep)]
                {
                    &&& answers(predicate, old(self).route_leaf(distance.0@)@, keep)
                    &&& final(self).route_leaf(distance.0@)@ == keep_flagged(
                        old(self).route_leaf(distance.0@)@,
                        keep,
                    )
                    &&& final(self).contents().to_multiset().add(
                        old(self).route_leaf(distance.0@)@.to_multiset(),
                    ) == old(self).contents().to_multiset().add(
                        keep_flagged(old(self).route_leaf(distance.0@)@, keep).to_multiset(),
                    )
                },
            old(self).saturated() ==> final(self).saturated(),
            forall|d: Seq<u8>|
                old(self).route_depth(d) != old(self).route_depth(distance.0@)
                    ==> #[trigger] final(self).route_leaf(d) == old(self).route_leaf(d),
            forall|d: Seq<u8>| #[trigger] final(self).route_depth(d) == old(self).route_depth(d),
        decreases old(self).height(),
    {
        let r = self.right.take();
        let descend: bool = match &r {
            Some(_) => !bit_of_array::<ID_LEN>(distance.0.as_slice(), self.depth),
            None => false,
        };
        if descend {
            let mut right = r.unwrap();
            let ghost old_right = *right;
            right.remove_at_route(distance, predicate);
            let ghost new_right = *right;
            self.right = Some(right);
            proof {
                let right = new_right;
                assert(self.contents() == right.contents() + self.left@);
                assert(old(self).contents() == old_right.contents() + self.left@);
                broadcast use vstd::seq_lib::group_to_multiset_ensures;
                let l = old_right.route_leaf(distance.0@)@;
                let keep = choose|keep: Seq<bool>|
                    #![trigger answers(predicate, old_right.route_leaf(distance.0@)@, keep)]
                    {
                        &&& answers(predicate, old_right.route_leaf(distance.0@)@, keep)
                        &&& right.route_leaf(distance.0@)@ == keep_flagged(
                            old_right.route_leaf(distance.0@)@,
                            keep,
                        )
                        &&& right.contents().to_multiset().add(
                            old_right.route_leaf(distance.0@)@.to_multiset(),
                        ) == old_right.contents().to_multiset().add(
                            keep_flagged(old_right.route_leaf(distance.0@)@, keep).to_multiset(),
                        )
                    };
                assert(right.contents().to_multiset().add(l.to_multiset())
                    == old_right.contents().to_multiset().add(keep_flagged(l, keep).to_multiset()));
                vstd::seq_lib::lemma_multiset_commutative(old_right.contents(), self.left@);
                vstd::seq_lib::lemma_multiset_commutative(right.contents(), self.left@);
                let ra = right.contents().to_multiset();
                let rb = old_right.contents().to_multiset();
                let lf = self.left@.to_multiset();
                let lm = l.to_multiset();
                let km = keep_flagged(l, keep).to_multiset();
                assert(self.contents().to_multiset() == ra.add(lf));
                assert(old(self).contents().to_multiset() == rb.add(lf));
                assert(ra.add(lm) == rb.add(km));
                assert(ra.add(lf).add(lm) =~= rb.add(lf).add(km)) by {
                    broadcast use vstd::multiset::group_multiset_axioms;
                    assert forall|x| #[trigger] ra.add(lf).add(lm).count(x) == rb.add(lf).add(km).count(x) by {
                        assert(ra.add(lm).count(x) == rb.add(km).count(x));
                    }
                }
                assert(answers(predicate, old(self).route_leaf(distance.0@)@, keep));
                assert forall|d: Seq<u8>| #[trigger] self.route_depth(d) == old(self).route_depth(d) by {
                    if !bit_at(d, self.depth as int) {
                        assert(right.route_depth(d) == old_right.route_depth(d));
                    }
                }
                assert forall|d: Seq<u8>|
                    old(self).route_depth(d) != old(self).route_depth(distance.0@)
                    implies #[trigger] self.route_leaf(d) == old(self).route_leaf(d) by {
                    if !bit_at(d, self.depth as int) {
                        assert(old_right.route_depth(d) != old_right.route_depth(distance.0@));
                        assert(right.route_leaf(d) == old_right.route_leaf(d));
                    }
                }
            }
        } else {
            self.right = r;
            let ghost l = self.left@;
            self.left.remove_where(predicate);
            proof {
                broadcast use vstd::seq_lib::group_to_multiset_ensures;
                let keep = choose|keep: Seq<bool>|
                    answers(predicate, l, keep) && self.left@ == keep_flagged(l, keep);
                match &self.right {
                    Some(rt) => {
                        vstd::seq_lib::lemma_multiset_commutative(rt.contents(), l);
                        vstd::seq_lib::lemma_multiset_commutative(rt.contents(), self.left@);
                    },
                    None => {},
                }
                assert(self.contents().to_multiset().add(l.to_multiset()) =~= old(
                    self,
                ).contents().to_multiset().add(keep_flagged(l, keep).to_multiset()));
                assert(answers(predicate, old(self).route_leaf(distance.0@)@, keep));
                lemma_keep_flagged_prefix_props(l, keep, self.depth as int, self.right is Some);
                assert forall|d: Seq<u8>|
                    old(self).route_depth(d) != old(self).route_depth(distance.0@)
                    implies #[trigger] self.route_leaf(d) == old(self).route_leaf(d) by {
                    if self.right is None || bit_at(d, self.depth as int) {
                        assert(false);
                    }
                }
            }
        }
    }
}

/// Keeping flagged pairs keeps what held of every pair: the clear prefix,
/// the set bit at `depth` (when `with_bit`), and a nonzero distance.
proof fn lemma_keep_flagged_prefix_props<Node, const ID_LEN: usize>(
    s: Seq<Pair<Node, ID_LEN>>,
    keep: Seq<bool>,
    depth: int,
    with_bit: bool,
)
    requires
        keep.len() == s.len(),
        forall|i: int|
            0 <= i < s.len() ==> {
                &&& prefix_zero(#[trigger] s[i].0.0@, depth)
                &&& nonzero_distance(s[i].0.0@, ID_LEN as int)
                &&& with_bit ==> bit_at(s[i].0.0@, depth)
            },
    ensures
        forall|i: int|
            0 <= i < keep_flagged(s, keep).len() ==> {
                &&& prefix_zero(#[trigger] keep_flagged(s, keep)[i].0.0@, depth)
                &&& nonzero_distance(keep_flagged(s, keep)[i].0.0@, ID_LEN as int)
                &&& with_bit ==> bit_at(keep_flagged(s, keep)[i].0.0@, depth)
            },
    decreases s.len(),
{
    if s.len() > 0 {
        lemma_keep_flagged_prefix_props(s.drop_last(), keep.drop_last(), depth, with_bit);
        let rest = keep_flagged(s.drop_last(), keep.drop_last());
        let out = keep_flagged(s, keep);
        assert forall|i: int| 0 <= i < out.len() implies {
            &&& prefix_zero(#[trigger] out[i].0.0@, depth)
            &&& nonzero_distance(out[i].0.0@, ID_LEN as int)
            &&& with_bit ==> bit_at(out[i].0.0@, depth)
        } by {
            if i < rest.len() {
                assert(out[i] == rest[i]);
            } else {
                assert(out[i] == s[s.len() - 1]);
            }
        }
    }
}

/// Every pair kept by `keep` was answered false by the predicate.
proof fn lemma_kept_unmatched<T, F: Fn(&T) -> bool>(pred: F, s: Seq<T>, keep: Seq<bool>)
    requires
        answers(pred, s, keep),
    ensures
        forall|i: int|
            0 <= i < keep_flagged(s, keep).len() ==> call_ensures(
                pred,
                (&keep_flagged(s, keep)[i],),
                false,
            ),
    decreases s.len(),
{
    if s.len() > 0 {
        lemma_kept_unmatched(pred, s.drop_last(), keep.drop_last());
        let rest = keep_flagged(s.drop_last(), keep.drop_last());
        let out = keep_flagged(s, keep);
        assert forall|i: int| 0 <= i < out.len() implies call_ensures(pred, (&out[i],), false) by {
            if i < rest.len() {
                assert(out[i] == rest[i]);
            } else {
                assert(out[i] == s[s.len() - 1]);
                assert(keep[s.len() - 1]);
            }
        }
    }
}

impl<Node, const ID_LEN: usize, const BUCKET_SIZE: usize> Tree<Node, ID_LEN, BUCKET_SIZE> {
    /// The leaf a distance routes to is one of the tree's leaves: at most
    /// `BUCKET_SIZE` pairs, no node twice, and its pairs are pairs of the
    /// tree.
    proof fn lemma_route_leaf_wf(&self, d: Seq<u8>)
        requires
            self.wf(),
        ensures
            self.route_leaf(d)@.len() <= BUCKET_SIZE,
            distinct_nodes(self.route_leaf(d)@),
            self.route_leaf(d)@.to_multiset().subset_of(self.contents().to_multiset()),
        decreases self,
    {
        broadcast use vstd::seq_lib::group_to_multiset_ensures;
        broadcast use vstd::multiset::group_multiset_axioms;
        match self.right {
            Some(r) => {
                r.lemma_route_leaf_wf(d);
                vstd::seq_lib::lemma_multiset_commutative(r.contents(), self.left@);
            },
            None => {},
        }
    }
}

impl<Node: PartialEq, const ID_LEN: usize, const BUCKET_SIZE: usize> Tree<Node, ID_LEN, BUCKET_SIZE> {
    /// Inserts the pair into the leaf its distance routes to, after
    /// splitting every full last level, and then drops the levels left
    /// empty. Nothing changes when the pair's node is in that leaf already;
    /// the insertion fails when that leaf is full.
    pub fn try_insert(&mut self, pair: Pair<Node, ID_LEN>) -> (r: Result<(), Error>)
        requires
            old(self).wf(),
            BUCKET_SIZE > 0,
            node_eq_is_equality::<Node>(),
            (8 * ID_LEN + 1) * BUCKET_SIZE <= usize::MAX,
            nonzero_distance(pair.0.0@, ID_LEN as int),
            prefix_zero(pair.0.0@, old(self).spec_depth() as int),
        ensures
            final(self).wf(),
            final(self).spec_depth() == old(self).spec_depth(),
            r is Ok ==> has_node(final(self).route_leaf(pair.0.0@)@, pair.1),
            r is Ok ==> final(self).contents().to_multiset() == old(self).contents().to_multiset().insert(pair)
                || final(self).contents().to_multiset() == old(self).contents().to_multiset(),
            r is Ok && !has_node(old(self).contents(), pair.1) ==> final(self).contents().to_multiset()
                == old(self).contents().to_multiset().insert(pair),
            r is Err ==> r == Err::<(), Error>(Error::FullLeaf)
                && final(self).contents().to_multiset() == old(self).contents().to_multiset()
                && final(self).route_leaf(pair.0.0@)@.len() == BUCKET_SIZE
                && !has_node(final(self).route_leaf(pair.0.0@)@, pair.1),
            final(self).trimmed(),
            r is Ok ==> has_node(final(self).contents(), pair.1),
            r is Err ==> final(self).settled(pair.0.0@),
            forall|d: Seq<u8>| old(self).settled(d) ==> #[trigger] final(self).settled(d),
    {
        proof {
            assert(8 * ID_LEN <= (8 * ID_LEN + 1) * BUCKET_SIZE) by (nonlinear_arith)
                requires BUCKET_SIZE > 0;
        }
        self.maybe_split_recursively();
        let ghost s1 = *self;
        proof {
            self.lemma_route_leaf_wf(pair.0.0@);
            lemma_has_node_sub(self.route_leaf(pair.0.0@)@, self.contents(), old(self).contents(), pair.1);
        }
        let r = self.insert_at_route(pair);
        proof {
            if r is Ok {
                assert(has_node(self.route_leaf(pair.0.0@)@, pair.1)) by {
                    let l = self.route_leaf(pair.0.0@)@;
                    if !has_node(l, pair.1) {
                        assert(l[l.len() - 1] == pair);
                    }
                }
            }
        }
        let ghost s2 = *self;
        proof {
            if r is Err {
                s1.lemma_saturated_full_settled(pair.0.0@);
            }
            assert forall|d: Seq<u8>| old(self).settled(d) implies #[trigger] s2.settled(d) by {
                assert(s1.settled(d));
                if s1.route_depth(d) == s1.route_depth(pair.0.0@) {
                    s1.lemma_same_depth_same_leaf(d, pair.0.0@);
                    s2.lemma_same_depth_same_leaf(d, pair.0.0@);
                }
            }
        }
        self.maybe_merge_recursively();
        proof {
            assert forall|d: Seq<u8>| old(self).settled(d) implies #[trigger] self.settled(d) by {
                assert(s2.settled(d));
                s2.lemma_merged_keeps_below(d);
            }
            if r is Err {
                s2.lemma_merged_keeps_below(pair.0.0@);
            }
            if r is Ok {
                self.lemma_route_leaf_wf(pair.0.0@);
                lemma_has_node_sub(self.route_leaf(pair.0.0@)@, self.contents(), self.contents(), pair.1);
            }
        }
        r
    }

    /// Removes, from the leaf that `distance` routes to after splitting
    /// every full last level, the pairs for which `predicate` answers true;
    /// then drops the levels left empty.
    pub fn remove_where<F: Fn(&Pair<Node, ID_LEN>) -> bool>(
        &mut self,
        distance: &Distance<ID_LEN>,
        predicate: F,
    )
        requires
            old(self).wf(),
            BUCKET_SIZE > 0,
            node_eq_is_equality::<Node>(),
            (8 * ID_LEN + 1) * BUCKET_SIZE <= usize::MAX,
            forall|x: Pair<Node, ID_LEN>| call_requires(predicate, (&x,)),
        ensures
            final(self).wf(),
            final(self).saturated(),
            final(self).spec_depth() == old(self).spec_depth(),
            exists|l: Seq<Pair<Node, ID_LEN>>, keep: Seq<bool>|
                {
                    &&& #[trigger] answers(predicate, l, keep)
                    &&& l.to_multiset().subset_of(old(self).contents().to_multiset())
                    &&& final(self).contents().to_multiset().add(l.to_multiset())
                        == old(self).contents().to_multiset().add(
                        keep_flagged(l, keep).to_multiset(),
                    )
                },
            forall|i: int|
                0 <= i < final(self).route_leaf(distance.0@)@.len() ==> call_ensures(
                    predicate,
                    (&final(self).route_leaf(distance.0@)@[i],),
                    false,
                ),
            final(self).trimmed(),
            final(self).contents().len() == 0 ==> final(self).leaves().len() == 1,
    {
        proof {
            assert(8 * ID_LEN <= (8 * ID_LEN + 1) * BUCKET_SIZE) by (nonlinear_arith)
                requires BUCKET_SIZE > 0;
        }
        self.maybe_split_recursively();
        let ghost split = *self;
        proof {
            self.lemma_route_leaf_wf(distance.0@);
        }
        self.remove_at_route(distance, predicate);
        let ghost removed = *self;
        proof {
            let l = split.route_leaf(distance.0@)@;
            let keep = choose|keep: Seq<bool>|
                #![trigger answers(predicate, split.route_leaf(distance.0@)@, keep)]
                {
                    &&& answers(predicate, split.route_leaf(distance.0@)@, keep)
                    &&& removed.route_leaf(distance.0@)@ == keep_flagged(
                        split.route_leaf(distance.0@)@,
                        keep,
                    )
                    &&& removed.contents().to_multiset().add(
                        split.route_leaf(distance.0@)@.to_multiset(),
                    ) == split.contents().to_multiset().add(
                        keep_flagged(split.route_leaf(distance.0@)@, keep).to_multiset(),
                    )
                };
            lemma_kept_unmatched(predicate, l, keep);
            assert(answers(predicate, l, keep));
        }
        self.maybe_merge_recursively();
        proof {
            if self.contents().len() == 0 {
                self.lemma_trimmed_empty_is_one_leaf();
            }
        }
    }
}

/// Access to the leaf of a tree that a distance routes to. Each change made
/// through it splits full last levels first and drops empty levels after.
pub struct LeafMut<'a, Node, const ID_LEN: usize, const BUCKET_SIZE: usize>(
    pub &'a mut Tree<Node, ID_LEN, BUCKET_SIZE>,
    pub Distance<ID_LEN>,
);

impl<Node: PartialEq, const ID_LEN: usize, const BUCKET_SIZE: usize> Tree<Node, ID_LEN, BUCKET_SIZE> {
    /// Splits every full last level, then gives access to the leaf that
    /// `distance` routes to.
    pub fn get_leaf_mut<'a>(&'a mut self, distance: &Distance<ID_LEN>) -> (l: LeafMut<'a, Node, ID_LEN, BUCKET_SIZE>)
        requires
            old(self).wf(),
            BUCKET_SIZE > 0,
            node_eq_is_equality::<Node>(),
            8 * ID_LEN <= usize::MAX,
        ensures
            l.0.wf(),
            l.0.saturated(),
            l.0.spec_depth() == old(self).spec_depth(),
            l.0.contents().to_multiset() == old(self).contents().to_multiset(),
            l.1 == *distance,
            *final(self) == *final(l.0),
            forall|d: Seq<u8>| old(self).settled(d) ==> #[trigger] l.0.settled(d),
    {
        self.maybe_split_recursively();
        LeafMut(self, *distance)
    }
}

impl<'a, Node: PartialEq, const ID_LEN: usize, const BUCKET_SIZE: usize> LeafMut<'a, Node, ID_LEN, BUCKET_SIZE> {
    /// The number of pairs in the leaf.
    pub fn len(&self) -> (n: usize)
        requires
            self.0.wf(),
            8 * ID_LEN <= usize::MAX,
        ensures
            n == old(self.0).route_leaf(self.1.0@)@.len(),
    {
        self.0.get_leaf(&self.1).len()
    }

    /// Whether the leaf holds `BUCKET_SIZE` pairs.
    pub fn is_full(&self) -> (r: bool)
        requires
            self.0.wf(),
            8 * ID_LEN <= usize::MAX,
        ensures
            r == (old(self.0).route_leaf(self.1.0@)@.len() == BUCKET_SIZE),
    {
        self.0.get_leaf(&self.1).is_full()
    }

    /// The pairs of the leaf, in insertion order.
    pub fn iter(&self) -> (s: &[Pair<Node, ID_LEN>])
        requires
            self.0.wf(),
            8 * ID_LEN <= usize::MAX,
        ensures
            s@ == old(self.0).route_leaf(self.1.0@)@,
    {
        self.0.get_leaf(&self.1).iter()
    }

    /// Whether the leaf holds the node of `pair`.
    pub fn contains(&self, pair: &Pair<Node, ID_LEN>) -> (r: bool)
        requires
            self.0.wf(),
            8 * ID_LEN <= usize::MAX,
            node_eq_is_equality::<Node>(),
        ensures
            r == has_node(old(self.0).route_leaf(self.1.0@)@, pair.1),
    {
        self.0.get_leaf(&self.1).contains(pair)
    }

    /// Inserts a pair into the leaf its own distance routes to, which is
    /// the guard's leaf for a pair of the guard's distance (see
    /// `Tree::try_insert`).
    pub fn try_insert(&mut self, pair: Pair<Node, ID_LEN>) -> (r: Result<(), Error>)
        requires
            old(self).0.wf(),
            BUCKET_SIZE > 0,
            node_eq_is_equality::<Node>(),
            (8 * ID_LEN + 1) * BUCKET_SIZE <= usize::MAX,
            nonzero_distance(pair.0.0@, ID_LEN as int),
            prefix_zero(pair.0.0@, old(self).0.spec_depth() as int),
        ensures
            final(self).1 == old(self).1,
            *final(final(self).0) == *final(old(self).0),
            final(self).0.wf(),
            final(self).0.spec_depth() == old(self).0.spec_depth(),
            r is Ok ==> has_node(final(self).0.route_leaf(pair.0.0@)@, pair.1),
            r is Ok ==> final(self).0.contents().to_multiset() == old(self).0.contents().to_multiset().insert(pair)
                || final(self).0.contents().to_multiset() == old(self).0.contents().to_multiset(),
            r is Ok && !has_node(old(self).0.contents(), pair.1) ==> final(self).0.contents().to_multiset()
                == old(self).0.contents().to_multiset().insert(pair),
            final(self).0.trimmed(),
            r is Ok ==> has_node(final(self).0.contents(), pair.1),
            r is Err ==> final(self).0.settled(pair.0.0@),
            forall|d: Seq<u8>| old(self).0.settled(d) ==> #[trigger] final(self).0.settled(d),
            r is Err ==> r == Err::<(), Error>(Error::FullLeaf)
                && final(self).0.contents().to_multiset() == old(self).0.contents().to_multiset()
                && final(self).0.route_leaf(pair.0.0@)@.len() == BUCKET_SIZE
                && !has_node(final(self).0.route_leaf(pair.0.0@)@, pair.1),
    {
        self.0.try_insert(pair)
    }

    /// Removes the pairs of the leaf for which `predicate` answers true (see
    /// `Tree::remove_where`).
    pub fn remove_where<F: Fn(&Pair<Node, ID_LEN>) -> bool>(&mut self, predicate: F)
        requires
            old(self).0.wf(),
            BUCKET_SIZE > 0,
            node_eq_is_equality::<Node>(),
            (8 * ID_LEN + 1) * BUCKET_SIZE <= usize::MAX,
            forall|x: Pair<Node, ID_LEN>| call_requires(predicate, (&x,)),
        ensures
            final(self).1 == old(self).1,
            *final(final(self).0) == *final(old(self).0),
            final(self).0.wf(),
            final(self).0.spec_depth() == old(self).0.spec_depth(),
            exists|l: Seq<Pair<Node, ID_LEN>>, keep: Seq<bool>|
                {
                    &&& #[trigger] answers(predicate, l, keep)
                    &&& l.to_multiset().subset_of(old(self).0.contents().to_multiset())
                    &&& final(self).0.contents().to_multiset().add(l.to_multiset())
                        == old(self).0.contents().to_multiset().add(
                        keep_flagged(l, keep).to_multiset(),
                    )
                },
            forall|i: int|
                0 <= i < final(self).0.route_leaf(old(self).1.0@)@.len() ==> call_ensures(
                    predicate,
                    (&final(self).0.route_leaf(old(self).1.0@)@[i],),
                    false,
                ),
            final(self).0.trimmed(),
            final(self).0.contents().len() == 0 ==> final(self).0.leaves().len() == 1,
    {
        let d = self.1;
        self.0.remove_where(&d, predicate)
    }
}

/// A node held by a part of a collection is held by the collection, and
/// by any collection with the same pairs.
pub proof fn lemma_has_node_sub<Node, const ID_LEN: usize>(
    l: Seq<Pair<Node, ID_LEN>>,
    c: Seq<Pair<Node, ID_LEN>>,
    o: Seq<Pair<Node, ID_LEN>>,
    node: Node,
)
    requires
        l.to_multiset().subset_of(c.to_multiset()),
        c.to_multiset() == o.to_multiset(),
    ensures
        has_node(l, node) ==> has_node(o, node),
{
    broadcast use vstd::seq_lib::group_to_multiset_ensures;
    if has_node(l, node) {
        let i = choose|i: int| 0 <= i < l.len() && l[i].1 == node;
        assert(l.contains(l[i]));
        assert(l.to_multiset().count(l[i]) > 0);
        assert(o.to_multiset().count(l[i]) > 0);
        assert(o.contains(l[i]));
        let k = choose|k: int| 0 <= k < o.len() && o[k] == l[i];
        assert(o[k].1 == node);
    }
}

/// The first `n` items of `s`, or all of them when there are fewer.
pub open spec fn take_at_most<T>(s: Seq<T>, n: nat) -> Seq<T> {
    if n < s.len() {
        s.take(n as int)
    } else {
        s
    }
}

/// Appends references to the items of `s` to `v` until `v` holds `limit`
/// references or `s` runs out.
fn push_refs_up_to<'a, T>(v: &mut Vec<&'a T>, s: &'a [T], limit: usize)
    ensures
        final(v)@.len() == if old(v)@.len() >= limit {
            old(v)@.len() as int
        } else if old(v)@.len() + s@.len() <= limit {
            old(v)@.len() + s@.len() as int
        } else {
            limit as int
        },
        forall|k: int| 0 <= k < old(v)@.len() ==> final(v)@[k] == old(v)@[k],
        forall|k: int|
            old(v)@.len() <= k < final(v)@.len() ==> *final(v)@[k] == s@[k - old(v)@.len()],
{
    let mut i: usize = 0;
    while i < s.len() && v.len() < limit
        invariant
            i <= s@.len(),
            v@.len() == old(v)@.len() + i,
            old(v)@.len() + i <= limit || i == 0,
            forall|k: int| 0 <= k < old(v)@.len() ==> v@[k] == old(v)@[k],
            forall|k: int| old(v)@.len() <= k < v@.len() ==> *v@[k] == s@[k - old(v)@.len()],
        decreases s@.len() - i,
    {
        v.push(&s[i]);
        i = i + 1;
    }
}

impl<Node, const ID_LEN: usize, const BUCKET_SIZE: usize> Tree<Node, ID_LEN, BUCKET_SIZE> {
    /// The pairs `nodes_near` gives. At a level with a level below, the
    /// branch the distance falls into is the level below where its bit at
    /// this depth is clear, this level's leaf where it is set. When that
    /// branch holds fewer than `length` pairs, the walk stops there and gives
    /// the pairs of that branch, then of the other, at most `length` of
    /// them; otherwise it goes on to the level below, whichever branch the
    /// distance falls into. The last level's leaf is given whole.
    pub closed spec fn spec_nodes_near(&self, d: Seq<u8>, length: nat) -> Seq<Pair<Node, ID_LEN>>
        decreases self,
    {
        match self.right {
            Some(r) => {
                if !bit_at(d, self.depth as int) {
                    if r.contents().len() < length {
                        take_at_most(r.contents() + self.left@, length)
                    } else {
                        r.spec_nodes_near(d, length)
                    }
                } else {
                    if self.left@.len() < length {
                        take_at_most(self.left@ + r.contents(), length)
                    } else {
                        r.spec_nodes_near(d, length)
                    }
                }
            },
            None => self.left@,
        }
    }

    /// Every pair of a well-formed tree has its first `depth` distance bits
    /// clear.
    proof fn lemma_contents_prefix_zero(&self)
        requires
            self.wf(),
        ensures
            forall|i: int|
                0 <= i < self.contents().len() ==> prefix_zero(
                    #[trigger] self.contents()[i].0.0@,
                    self.depth as int,
                ),
        decreases self,
    {
        match self.right {
            Some(r) => {
                r.lemma_contents_prefix_zero();
                let rc = r.contents();
                assert forall|i: int| 0 <= i < self.contents().len() implies prefix_zero(
                    #[trigger] self.contents()[i].0.0@,
                    self.depth as int,
                ) by {
                    if i < rc.len() {
                        assert(self.contents()[i] == rc[i]);
                        assert(prefix_zero(rc[i].0.0@, r.depth as int));
                    } else {
                        assert(self.contents()[i] == self.left@[i - rc.len()]);
                    }
                }
            },
            None => {},
        }
    }

    /// No pair occurs twice in a well-formed tree.
    pub proof fn lemma_contents_distinct(&self)
        requires
            self.wf(),
        ensures
            self.contents().no_duplicates(),
        decreases self,
    {
        match self.right {
            Some(r) => {
                r.lemma_contents_distinct();
                r.lemma_contents_prefix_zero();
                self.lemma_split_distinct();
                assert(self.contents() == r.contents() + self.left@);
            },
            None => {
                assert forall|i: int, j: int|
                    0 <= i < self.left@.len() && 0 <= j < self.left@.len() && i != j implies self.left@[i]
                    != self.left@[j] by {
                    if i < j {
                        assert(self.left@[i].1 != self.left@[j].1);
                    } else {
                        assert(self.left@[j].1 != self.left@[i].1);
                    }
                }
            },
        }
    }

    /// A pair of the level below and a pair of this level's leaf differ, and
    /// the leaf holds no pair twice; so both orders of the two are free of
    /// repeats.
    proof fn lemma_split_distinct(&self)
        requires
            self.wf(),
            self.right is Some,
            self.right.unwrap().contents().no_duplicates(),
            forall|i: int|
                0 <= i < self.right.unwrap().contents().len() ==> prefix_zero(
                    #[trigger] self.right.unwrap().contents()[i].0.0@,
                    self.right.unwrap().depth as int,
                ),
        ensures
            (self.right.unwrap().contents() + self.left@).no_duplicates(),
            (self.left@ + self.right.unwrap().contents()).no_duplicates(),
    {
        let r = self.right.unwrap();
        let rc = r.contents();
        let l = self.left@;
        assert forall|i: int, j: int| 0 <= i < rc.len() && 0 <= j < l.len() implies rc[i] != l[j] by {
            assert(prefix_zero(rc[i].0.0@, r.depth as int));
            assert(!bit_at(rc[i].0.0@, self.depth as int));
            assert(bit_at(l[j].0.0@, self.depth as int));
        }
        assert forall|i: int, j: int| 0 <= i < l.len() && 0 <= j < l.len() && i != j implies l[i] != l[j] by {
            if i < j {
                assert(l[i].1 != l[j].1);
            } else {
                assert(l[j].1 != l[i].1);
            }
        }
        let a = rc + l;
        assert forall|i: int, j: int| 0 <= i < a.len() && 0 <= j < a.len() && i != j implies a[i] != a[j] by {
            if i < rc.len() && j < rc.len() {
                assert(rc[i] != rc[j]);
            } else if i < rc.len() {
                assert(a[j] == l[j - rc.len()]);
            } else if j < rc.len() {
                assert(a[i] == l[i - rc.len()]);
            } else {
                assert(a[i] == l[i - rc.len()]);
                assert(a[j] == l[j - rc.len()]);
            }
        }
        let b = l + rc;
        assert forall|i: int, j: int| 0 <= i < b.len() && 0 <= j < b.len() && i != j implies b[i] != b[j] by {
            if i < l.len() && j < l.len() {
            } else if i < l.len() {
                assert(b[j] == rc[j - l.len()]);
            } else if j < l.len() {
                assert(b[i] == rc[i - l.len()]);
            } else {
                assert(b[i] == rc[i - l.len()]);
                assert(b[j] == rc[j - l.len()]);
                assert(rc[i - l.len()] != rc[j - l.len()]);
            }
        }
    }

    /// What `nodes_near` gives are pairs of the tree, none twice.
    pub proof fn lemma_nodes_near_props(&self, d: Seq<u8>, length: nat)
        requires
            self.wf(),
        ensures
            self.spec_nodes_near(d, length).len() <= self.contents().len(),
            forall|i: int|
                0 <= i < self.spec_nodes_near(d, length).len() ==> self.contents().contains(
                    #[trigger] self.spec_nodes_near(d, length)[i],
                ),
            self.spec_nodes_near(d, length).no_duplicates(),
        decreases self,
    {
        self.lemma_contents_distinct();
        let res = self.spec_nodes_near(d, length);
        match self.right {
            Some(r) => {
                r.lemma_contents_distinct();
                r.lemma_contents_prefix_zero();
                self.lemma_split_distinct();
                let rc = r.contents();
                let l = self.left@;
                assert(self.contents() == rc + l);
                if !bit_at(d, self.depth as int) {
                    if rc.len() < length {
                        let a = rc + l;
                        assert forall|i: int| 0 <= i < res.len() implies self.contents().contains(
                            #[trigger] res[i],
                        ) by {
                            assert(res[i] == a[i]);
                        }
                        assert forall|i: int, j: int|
                            0 <= i < res.len() && 0 <= j < res.len() && i != j implies res[i] != res[j] by {
                            assert(res[i] == a[i]);
                            assert(res[j] == a[j]);
                        }
                    } else {
                        r.lemma_nodes_near_props(d, length);
                        assert forall|i: int| 0 <= i < res.len() implies self.contents().contains(
                            #[trigger] res[i],
                        ) by {
                            assert(rc.contains(res[i]));
                            let k = choose|k: int| 0 <= k < rc.len() && rc[k] == res[i];
                            assert(self.contents()[k] == rc[k]);
                        }
                    }
                } else {
                    if l.len() < length {
                        let b = l + rc;
                        assert forall|i: int| 0 <= i < res.len() implies self.contents().contains(
                            #[trigger] res[i],
                        ) by {
                            assert(res[i] == b[i]);
                            if i < l.len() {
                                assert(self.contents()[rc.len() + i] == l[i]);
                            } else {
                                assert(self.contents()[i - l.len()] == rc[i - l.len()]);
                            }
                        }
                        assert forall|i: int, j: int|
                            0 <= i < res.len() && 0 <= j < res.len() && i != j implies res[i] != res[j] by {
                            assert(res[i] == b[i]);
                            assert(res[j] == b[j]);
                        }
                    } else {
                        r.lemma_nodes_near_props(d, length);
                        assert forall|i: int| 0 <= i < res.len() implies self.contents().contains(
                            #[trigger] res[i],
                        ) by {
                            assert(rc.contains(res[i]));
                            let k = choose|k: int| 0 <= k < rc.len() && rc[k] == res[i];
                            assert(self.contents()[k] == rc[k]);
                        }
                    }
                }
            },
            None => {
                assert forall|i: int| 0 <= i < res.len() implies self.contents().contains(
                    #[trigger] res[i],
                ) by {
                    assert(self.contents()[i] == res[i]);
                }
            },
        }
    }

    /// At a level with a level below, no pair that is on the other side of
    /// this level's split from the distance comes before a pair on the
    /// distance's side: the branch the distance falls into is listed first.
    pub proof fn lemma_nodes_near_routed_first(&self, d: Seq<u8>, length: nat)
        requires
            self.wf(),
            self.is_split(),
        ensures
            ({
                let res = self.spec_nodes_near(d, length);
                let k = self.spec_depth() as int;
                forall|i: int, j: int|
                    0 <= i < j < res.len() && bit_at(#[trigger] res[i].0.0@, k) != bit_at(d, k)
                        ==> bit_at(#[trigger] res[j].0.0@, k) != bit_at(d, k)
            }),
    {
        let r = self.right.unwrap();
        let res = self.spec_nodes_near(d, length);
        let k = self.depth as int;
        let rc = r.contents();
        let l = self.left@;
        r.lemma_contents_prefix_zero();
        assert forall|x: int| 0 <= x < rc.len() implies !bit_at(#[trigger] rc[x].0.0@, k) by {
            assert(prefix_zero(rc[x].0.0@, r.depth as int));
        }
        assert forall|x: int| 0 <= x < l.len() implies bit_at(#[trigger] l[x].0.0@, k) by {
        }
        assert forall|i: int, j: int|
            0 <= i < j < res.len() && bit_at(#[trigger] res[i].0.0@, k) != bit_at(d, k)
            implies bit_at(#[trigger] res[j].0.0@, k) != bit_at(d, k) by {
            if !bit_at(d, k) {
                if rc.len() < length {
                    let a = rc + l;
                    assert(res[i] == a[i]);
                    assert(res[j] == a[j]);
                    if i < rc.len() {
                        assert(!bit_at(rc[i].0.0@, k));
                    } else {
                        assert(a[j] == l[j - rc.len()]);
                        assert(bit_at(l[j - rc.len()].0.0@, k));
                    }
                } else {
                    r.lemma_nodes_near_props(d, length);
                    assert(rc.contains(res[i]));
                    let x = choose|x: int| 0 <= x < rc.len() && rc[x] == res[i];
                    assert(!bit_at(rc[x].0.0@, k));
                }
            } else {
                if l.len() < length {
                    let b = l + rc;
                    assert(res[i] == b[i]);
                    assert(res[j] == b[j]);
                    if i < l.len() {
                        assert(bit_at(l[i].0.0@, k));
                    } else {
                        assert(b[j] == rc[j - l.len()]);
                        assert(!bit_at(rc[j - l.len()].0.0@, k));
                    }
                } else {
                    r.lemma_nodes_near_props(d, length);
                    assert(rc.contains(res[j]));
                    let x = choose|x: int| 0 <= x < rc.len() && rc[x] == res[j];
                    assert(!bit_at(rc[x].0.0@, k));
                }
            }
        }
    }

    /// Where the leaf a distance routes to holds fewer than `length` pairs,
    /// all of its pairs are among the pairs near the distance: the nodes
    /// nearest the distance are never cut off in favour of farther ones.
    pub proof fn lemma_nodes_near_keeps_routed_leaf(&self, d: Seq<u8>, length: nat)
        requires
            self.wf(),
            self.route_leaf(d)@.len() < length,
        ensures
            forall|x: int|
                0 <= x < self.route_leaf(d)@.len() ==> self.spec_nodes_near(d, length).contains(
                    #[trigger] self.route_leaf(d)@[x],
                ),
        decreases self,
    {
        let res = self.spec_nodes_near(d, length);
        let rl = self.route_leaf(d)@;
        match self.right {
            Some(r) => {
                let rc = r.contents();
                let l = self.left@;
                if !bit_at(d, self.depth as int) {
                    if rc.len() < length {
                        r.lemma_route_leaf_wf(d);
                        assert forall|x: int| 0 <= x < rl.len() implies res.contains(#[trigger] rl[x]) by {
                            broadcast use vstd::seq_lib::group_to_multiset_ensures;
                            assert(rl.contains(rl[x]));
                            assert(rl.to_multiset().count(rl[x]) > 0);
                            assert(rc.to_multiset().count(rl[x]) > 0);
                            assert(rc.contains(rl[x]));
                            let y = choose|y: int| 0 <= y < rc.len() && rc[y] == rl[x];
                            assert(res[y] == (rc + l)[y]);
                        }
                    } else {
                        r.lemma_nodes_near_keeps_routed_leaf(d, length);
                    }
                } else {
                    assert forall|x: int| 0 <= x < rl.len() implies res.contains(#[trigger] rl[x]) by {
                        assert(res[x] == (l + rc)[x]);
                    }
                }
            },
            None => {
                assert forall|x: int| 0 <= x < rl.len() implies res.contains(#[trigger] rl[x]) by {
                    assert(res[x] == rl[x]);
                }
            },
        }
    }

    /// The pairs near `dist` (see `spec_nodes_near`).
    pub fn nodes_near(&self, dist: &Distance<ID_LEN>, length: usize) -> (v: Vec<&Pair<Node, ID_LEN>>)
        requires
            self.wf(),
            (8 * ID_LEN + 1) * BUCKET_SIZE <= usize::MAX,
            8 * ID_LEN <= usize::MAX,
        ensures
            v@.len() == self.spec_nodes_near(dist.0@, length as nat).len(),
            forall|i: int| 0 <= i < v@.len() ==> *v@[i] == self.spec_nodes_near(dist.0@, length as nat)[i],
            forall|i: int| 0 <= i < v@.len() ==> self.contents().contains(*#[trigger] v@[i]),
            forall|i: int, j: int| 0 <= i < j < v@.len() ==> *v@[i] != *v@[j],
            self.is_split() ==> forall|i: int, j: int|
                0 <= i < j < v@.len() && bit_at((*#[trigger] v@[i]).0.0@, self.spec_depth() as int)
                    != bit_at(dist.0@, self.spec_depth() as int) ==> bit_at(
                    (*#[trigger] v@[j]).0.0@,
                    self.spec_depth() as int,
                ) != bit_at(dist.0@, self.spec_depth() as int),
            self.route_leaf(dist.0@)@.len() < length ==> forall|x: int|
                0 <= x < self.route_leaf(dist.0@)@.len() ==> self.spec_nodes_near(
                    dist.0@,
                    length as nat,
                ).contains(#[trigger] self.route_leaf(dist.0@)@[x]),
        decreases self,
    {
        proof {
            self.lemma_nodes_near_props(dist.0@, length as nat);
        }
        let ghost sn = self.spec_nodes_near(dist.0@, length as nat);
        let v = match &self.right {
            Some(right) => {
                let is_set = bit_of_array::<ID_LEN>(dist.0.as_slice(), self.depth);
                let next_branch_len = if !is_set {
                    right.len()
                } else {
                    self.left.len()
                };
                if next_branch_len < length {
                    let rv = right.iter();
                    let ls = self.left.iter();
                    let mut v: Vec<&Pair<Node, ID_LEN>> = Vec::new();
                    let ghost rc = right.contents();
                    if !is_set {
                        let mut i: usize = 0;
                        while i < rv.len() && v.len() < length
                            invariant
                                rv@.len() == rc.len(),
                                forall|k: int| 0 <= k < rv@.len() ==> *rv@[k] == rc[k],
                                i <= rv@.len(),
                                v@.len() == i,
                                i <= length,
                                forall|k: int| 0 <= k < i ==> *v@[k] == rc[k],
                            decreases rv@.len() - i,
                        {
                            v.push(rv[i]);
                            i = i + 1;
                        }
                        let ghost before = v@;
                        push_refs_up_to(&mut v, ls, length);
                        proof {
                            let all = rc + self.left@;
                            assert forall|k: int| 0 <= k < v@.len() implies *v@[k] == take_at_most(all, length as nat)[k] by {
                                if k < rc.len() {
                                    assert(before[k] == v@[k]);
                                }
                            }
                        }
                    } else {
                        push_refs_up_to(&mut v, ls, length);
                        let mut i: usize = 0;
                        let ghost base = v@.len();
                        while i < rv.len() && v.len() < length
                            invariant
                                rv@.len() == rc.len(),
                                forall|k: int| 0 <= k < rv@.len() ==> *rv@[k] == rc[k],
                                base == if self.left@.len() <= length { self.left@.len() as int } else { length as int },
                                self.left@.len() < length,
                                ls@ == self.left@,
                                i <= rv@.len(),
                                v@.len() == base + i,
                                v@.len() <= length,
                                forall|k: int| 0 <= k < base ==> *v@[k] == ls@[k],
                                forall|k: int| 0 <= k < i ==> *v@[base + k] == rc[k],
                            decreases rv@.len() - i,
                        {
                            v.push(rv[i]);
                            i = i + 1;
                        }
                    }
                    v
                } else {
                    right.nodes_near(dist, length)
                }
            },
            None => self.iter(),
        };
        proof {
            let k = self.spec_depth() as int;
            if self.is_split() {
                self.lemma_nodes_near_routed_first(dist.0@, length as nat);
                assert forall|i: int, j: int|
                    0 <= i < j < v@.len() && bit_at((*#[trigger] v@[i]).0.0@, k) != bit_at(dist.0@, k)
                    implies bit_at((*#[trigger] v@[j]).0.0@, k) != bit_at(dist.0@, k) by {
                    assert(*v@[i] == sn[i]);
                    assert(*v@[j] == sn[j]);
                }
            }
            if self.route_leaf(dist.0@)@.len() < length {
                self.lemma_nodes_near_keeps_routed_leaf(dist.0@, length as nat);
            }
            assert forall|i: int| 0 <= i < v@.len() implies self.contents().contains(*#[trigger] v@[i]) by {
                assert(*v@[i] == sn[i]);
            }
            assert forall|i: int, j: int| 0 <= i < j < v@.len() implies *v@[i] != *v@[j] by {
                assert(*v@[i] == sn[i]);
                assert(*v@[j] == sn[j]);
            }
        }
        v
    }
}

} // verus!
