use vstd::prelude::*;

use crate::kademlia::pair::{Pair, node_eq_is_equality, nodes_equal};

verus! {

/// The pairs of `s` whose flag in `keep` is set, in order.
pub open spec fn keep_flagged<T>(s: Seq<T>, keep: Seq<bool>) -> Seq<T>
    decreases s.len(),
{
    if s.len() == 0 {
        Seq::empty()
    } else {
        let rest = keep_flagged(s.drop_last(), keep.drop_last());
        if keep.last() {
            rest.push(s.last())
        } else {
            rest
        }
    }
}

/// Whether `pred` may answer `!keep[i]` for each `s[i]`.
pub open spec fn answers<T, F: Fn(&T) -> bool>(pred: F, s: Seq<T>, keep: Seq<bool>) -> bool {
    &&& keep.len() == s.len()
    &&& forall|i: int| 0 <= i < s.len() ==> call_ensures(pred, (&s[i],), !keep[i])
}

/// Keeps the items of `v` for which `pred` answers false, in order, and
/// gives the flags of the items kept.
pub fn retain_unmatched<T, F: Fn(&T) -> bool>(v: &mut Vec<T>, pred: F) -> (keep: Ghost<Seq<bool>>)
    requires
        forall|x: T| call_requires(pred, (&x,)),
    ensures
        answers(pred, old(v)@, keep@),
        final(v)@ == keep_flagged(old(v)@, keep@),
{
    let ghost orig = v@;
    let mut rev: Vec<T> = Vec::new();
    while v.len() > 0
        invariant
            v@.len() + rev@.len() == orig.len(),
            v@ == orig.take(v@.len() as int),
            forall|i: int| 0 <= i < rev@.len() ==> rev@[i] == orig[orig.len() - 1 - i],
        decreases v@.len(),
    {
        let x = v.pop().unwrap();
        rev.push(x);
        assert(v@ =~= orig.take(v@.len() as int));
    }
    let mut keep: Ghost<Seq<bool>> = Ghost(Seq::empty());
    let mut out: Vec<T> = Vec::new();
    assert(orig.take(0) =~= Seq::<T>::empty());
    while rev.len() > 0
        invariant
            forall|x: T| call_requires(pred, (&x,)),
            forall|i: int| 0 <= i < rev@.len() ==> rev@[i] == orig[orig.len() - 1 - i],
            rev@.len() <= orig.len(),
            keep@.len() == orig.len() - rev@.len(),
            forall|i: int| 0 <= i < keep@.len() ==> call_ensures(pred, (&orig[i],), !keep@[i]),
            out@ == keep_flagged(orig.take(keep@.len() as int), keep@),
        decreases rev@.len(),
    {
        let ghost n = keep@.len() as int;
        let ghost old_keep = keep@;
        let x = rev.pop().unwrap();
        assert(x == orig[n]);
        let matched = pred(&x);
        proof {
            keep@ = keep@.push(!matched);
            assert(orig.take(n + 1).drop_last() =~= orig.take(n));
            assert(keep@.drop_last() =~= old_keep);
            assert(orig.take(n + 1).last() == x);
        }
        if !matched {
            out.push(x);
        }
    }
    assert(orig.take(orig.len() as int) =~= orig);
    *v = out;
    keep
}

/// Whether no node occurs twice among the pairs.
pub open spec fn distinct_nodes<Node, const ID_LEN: usize>(s: Seq<Pair<Node, ID_LEN>>) -> bool {
    forall|i: int, j: int| 0 <= i < j < s.len() ==> s[i].1 != s[j].1
}

/// Whether some pair holds the node.
pub open spec fn has_node<Node, const ID_LEN: usize>(s: Seq<Pair<Node, ID_LEN>>, node: Node) -> bool {
    exists|i: int| 0 <= i < s.len() && s[i].1 == node
}

/// A bucket of at most `BUCKET_SIZE` distance pairs, in insertion order.
pub struct Bucket<Node, const ID_LEN: usize, const BUCKET_SIZE: usize> {
    pairs: Vec<Pair<Node, ID_LEN>>,
}

impl<Node, const ID_LEN: usize, const BUCKET_SIZE: usize> View for Bucket<Node, ID_LEN, BUCKET_SIZE> {
    type V = Seq<Pair<Node, ID_LEN>>;

    closed spec fn view(&self) -> Seq<Pair<Node, ID_LEN>> {
        self.pairs@
    }
}

impl<Node, const ID_LEN: usize, const BUCKET_SIZE: usize> Bucket<Node, ID_LEN, BUCKET_SIZE> {
    #[verifier::type_invariant]
    closed spec fn inv(self) -> bool {
        self.pairs@.len() <= BUCKET_SIZE
    }

    /// An empty bucket.
    pub fn new() -> (b: Self)
        ensures
            b@ == Seq::<Pair<Node, ID_LEN>>::empty(),
    {
        Bucket { pairs: Vec::new() }
    }

    /// Whether the bucket holds `BUCKET_SIZE` pairs.
    pub fn is_full(&self) -> (r: bool)
        ensures
            r == (self@.len() == BUCKET_SIZE),
    {
        proof {
            use_type_invariant(self);
        }
        self.pairs.len() == BUCKET_SIZE
    }

    /// The number of pairs.
    pub fn len(&self) -> (n: usize)
        ensures
            n == self@.len(),
            n <= BUCKET_SIZE,
    {
        proof {
            use_type_invariant(self);
        }
        self.pairs.len()
    }

    /// Whether the bucket holds no pair.
    pub fn is_empty(&self) -> (r: bool)
        ensures
            r == (self@.len() == 0),
    {
        self.len() == 0
    }

    /// Adds the pair at the end if there is room; otherwise does nothing.
    pub fn add(&mut self, value: Pair<Node, ID_LEN>)
        ensures
            old(self)@.len() < BUCKET_SIZE ==> final(self)@ == old(self)@.push(value),
            old(self)@.len() >= BUCKET_SIZE ==> final(self)@ == old(self)@,
    {
        proof {
            use_type_invariant(&*self);
        }
        if self.pairs.len() < BUCKET_SIZE {
            let mut pairs: Vec<Pair<Node, ID_LEN>> = Vec::new();
            std::mem::swap(&mut pairs, &mut self.pairs);
            pairs.push(value);
            self.pairs = pairs;
        }
    }

    /// Puts `node` in place of the node of the `i`-th pair, which keeps its
    /// distance.
    pub fn set_node(&mut self, i: usize, node: Node)
        requires
            i < old(self)@.len(),
        ensures
            final(self)@ == old(self)@.update(i as int, Pair(old(self)@[i as int].0, node)),
    {
        proof {
            use_type_invariant(&*self);
        }
        let mut pairs: Vec<Pair<Node, ID_LEN>> = Vec::new();
        std::mem::swap(&mut pairs, &mut self.pairs);
        let d = pairs[i].0;
        pairs[i] = Pair(d, node);
        self.pairs = pairs;
    }

    /// Takes every pair out, in order, leaving the bucket empty.
    pub fn drain(&mut self) -> (out: Vec<Pair<Node, ID_LEN>>)
        ensures
            out@ == old(self)@,
            final(self)@ == Seq::<Pair<Node, ID_LEN>>::empty(),
    {
        let mut out: Vec<Pair<Node, ID_LEN>> = Vec::new();
        std::mem::swap(&mut out, &mut self.pairs);
        out
    }

    /// The pairs, in order.
    pub fn iter(&self) -> (s: &[Pair<Node, ID_LEN>])
        ensures
            s@ == self@,
    {
        self.pairs.as_slice()
    }

    /// Removes every pair for which `predicate` answers true, keeping the
    /// order of the rest.
    pub fn remove_nodes_where<F: Fn(&Pair<Node, ID_LEN>) -> bool>(&mut self, predicate: F)
        requires
            forall|x: Pair<Node, ID_LEN>| call_requires(predicate, (&x,)),
        ensures
            exists|keep: Seq<bool>|
                answers(predicate, old(self)@, keep) && final(self)@ == keep_flagged(
                    old(self)@,
                    keep,
                ),
    {
        proof {
            use_type_invariant(&*self);
        }
        let mut pairs: Vec<Pair<Node, ID_LEN>> = Vec::new();
        std::mem::swap(&mut pairs, &mut self.pairs);
        let keep = retain_unmatched(&mut pairs, predicate);
        proof {
            lemma_keep_flagged_len(old(self)@, keep@);
        }
        self.pairs = pairs;
    }
}

/// Keeping flagged items never lengthens a sequence.
pub proof fn lemma_keep_flagged_len<T>(s: Seq<T>, keep: Seq<bool>)
    requires
        keep.len() == s.len(),
    ensures
        keep_flagged(s, keep).len() <= s.len(),
    decreases s.len(),
{
    if s.len() > 0 {
        lemma_keep_flagged_len(s.drop_last(), keep.drop_last());
    }
}

/// Keeping flagged items keeps a part of the items.
pub proof fn lemma_keep_flagged_submultiset<T>(s: Seq<T>, keep: Seq<bool>)
    ensures
        keep_flagged(s, keep).to_multiset().subset_of(s.to_multiset()),
    decreases s.len(),
{
    broadcast use vstd::seq_lib::group_to_multiset_ensures;
    broadcast use vstd::multiset::group_multiset_axioms;
    if s.len() > 0 {
        lemma_keep_flagged_submultiset(s.drop_last(), keep.drop_last());
        assert(s =~= s.drop_last().push(s.last()));
    }
}

/// Keeping flagged items keeps the nodes distinct.
pub proof fn lemma_keep_flagged_distinct<Node, const ID_LEN: usize>(
    s: Seq<Pair<Node, ID_LEN>>,
    keep: Seq<bool>,
)
    requires
        keep.len() == s.len(),
        distinct_nodes(s),
    ensures
        distinct_nodes(keep_flagged(s, keep)),
        forall|node: Node| has_node(keep_flagged(s, keep), node) ==> has_node(s, node),
    decreases s.len(),
{
    if s.len() > 0 {
        lemma_keep_flagged_distinct(s.drop_last(), keep.drop_last());
        let rest = keep_flagged(s.drop_last(), keep.drop_last());
        assert forall|node: Node| has_node(rest, node) implies has_node(s, node) by {
            assert(has_node(s.drop_last(), node));
            let i = choose|i: int| 0 <= i < s.drop_last().len() && s.drop_last()[i].1 == node;
            assert(s[i].1 == node);
        }
        if keep.last() {
            assert(!has_node(rest, s.last().1)) by {
                if has_node(rest, s.last().1) {
                    assert(has_node(s.drop_last(), s.last().1));
                    let i = choose|i: int| 0 <= i < s.drop_last().len() && s.drop_last()[i].1 == s.last().1;
                    assert(s[i].1 == s[s.len() - 1].1);
                }
            }
            let out = rest.push(s.last());
            assert forall|i: int, j: int| 0 <= i < j < out.len() implies out[i].1 != out[j].1 by {
                if j == out.len() - 1 {
                    if out[i].1 == out[j].1 {
                        assert(has_node(rest, s.last().1));
                    }
                }
            }
            assert forall|node: Node| has_node(out, node) implies has_node(s, node) by {
                let k = choose|k: int| 0 <= k < out.len() && out[k].1 == node;
                if k == out.len() - 1 {
                    assert(s[s.len() - 1].1 == node);
                } else {
                    assert(has_node(rest, node));
                }
            }
        }
    }
}

/// The pairs of one leaf of the routing tree: at most `BUCKET_SIZE` pairs,
/// no node twice.
pub struct Leaf<Node, const ID_LEN: usize, const BUCKET_SIZE: usize> {
    bucket: Bucket<Node, ID_LEN, BUCKET_SIZE>,
}

/// Why a pair could not be inserted.
#[derive(Clone, Copy, Debug, PartialEq, Eq, Structural)]
pub enum Error {
    /// The leaf already holds `BUCKET_SIZE` pairs.
    FullLeaf,
}

impl<Node, const ID_LEN: usize, const BUCKET_SIZE: usize> View for Leaf<Node, ID_LEN, BUCKET_SIZE> {
    type V = Seq<Pair<Node, ID_LEN>>;

    closed spec fn view(&self) -> Seq<Pair<Node, ID_LEN>> {
        self.bucket@
    }
}

impl<Node, const ID_LEN: usize, const BUCKET_SIZE: usize> Leaf<Node, ID_LEN, BUCKET_SIZE> {
    #[verifier::type_invariant]
    closed spec fn inv(self) -> bool {
        distinct_nodes(self.bucket@)
    }

    /// An empty leaf.
    pub fn new() -> (l: Self)
        ensures
            l@ == Seq::<Pair<Node, ID_LEN>>::empty(),
            distinct_nodes(l@),
    {
        Leaf { bucket: Bucket::new() }
    }

    /// Whether the leaf holds `BUCKET_SIZE` pairs (it would split on the
    /// next lookup, or refuse the next insertion).
    pub fn is_full(&self) -> (r: bool)
        ensures
            r == (self@.len() == BUCKET_SIZE),
    {
        self.bucket.is_full()
    }

    /// The number of pairs.
    pub fn len(&self) -> (n: usize)
        ensures
            n == self@.len(),
            n <= BUCKET_SIZE,
    {
        self.bucket.len()
    }

    /// The pairs, in insertion order.
    pub fn iter(&self) -> (s: &[Pair<Node, ID_LEN>])
        ensures
            s@ == self@,
            s@.len() <= BUCKET_SIZE,
            distinct_nodes(s@),
    {
        proof {
            use_type_invariant(self);
            use_type_invariant(&self.bucket);
        }
        self.bucket.iter()
    }

    /// Puts `node` in place of the node of the `i`-th pair, which keeps its
    /// distance; no other pair of the leaf may hold `node`.
    pub fn set_node(&mut self, i: usize, node: Node)
        requires
            i < old(self)@.len(),
            forall|j: int| 0 <= j < old(self)@.len() && j != i ==> old(self)@[j].1 != node,
        ensures
            final(self)@ == old(self)@.update(i as int, Pair(old(self)@[i as int].0, node)),
    {
        proof {
            use_type_invariant(&*self);
        }
        let ghost before = self@;
        let mut bucket = Bucket::new();
        std::mem::swap(&mut bucket, &mut self.bucket);
        bucket.set_node(i, node);
        proof {
            let after = bucket@;
            assert forall|a: int, b: int| 0 <= a < b < after.len() implies after[a].1 != after[b].1 by {
                if a != i && b != i {
                    assert(before[a].1 != before[b].1);
                }
            }
        }
        self.bucket = bucket;
    }

    /// Whether some pair of the leaf holds the node of `pair`.
    pub fn contains(&self, pair: &Pair<Node, ID_LEN>) -> (r: bool)
        where
            Node: PartialEq,
        requires
            node_eq_is_equality::<Node>(),
        ensures
            r == has_node(self@, pair.1),
    {
        let s = self.bucket.iter();
        let mut i: usize = 0;
        while i < s.len()
            invariant
                node_eq_is_equality::<Node>(),
                i <= s@.len(),
                s@ == self@,
                forall|j: int| 0 <= j < i ==> s@[j].1 != pair.1,
            decreases s@.len() - i,
        {
            if nodes_equal(&s[i].1, &pair.1) {
                return true;
            }
            i = i + 1;
        }
        false
    }

    /// Inserts the pair at the end, unless its node is there already (then
    /// nothing changes and the insertion succeeds). Fails when the leaf is
    /// full.
    pub fn try_insert(&mut self, pair: Pair<Node, ID_LEN>) -> (r: Result<(), Error>)
        where
            Node: PartialEq,
        requires
            node_eq_is_equality::<Node>(),
        ensures
            has_node(old(self)@, pair.1) ==> r is Ok && final(self)@ == old(self)@,
            !has_node(old(self)@, pair.1) && old(self)@.len() < BUCKET_SIZE ==> r is Ok
                && final(self)@ == old(self)@.push(pair),
            !has_node(old(self)@, pair.1) && old(self)@.len() >= BUCKET_SIZE ==> r == Err::<
                (),
                Error,
            >(Error::FullLeaf) && final(self)@ == old(self)@,
            distinct_nodes(final(self)@),
            final(self)@.len() <= BUCKET_SIZE,
    {
        proof {
            use_type_invariant(&*self);
            use_type_invariant(&self.bucket);
        }
        if self.contains(&pair) {
            return Ok(());
        }
        if !self.is_full() {
            let ghost before = self.bucket@;
            let mut bucket = Bucket::new();
            std::mem::swap(&mut bucket, &mut self.bucket);
            bucket.add(pair);
            proof {
                let after = before.push(pair);
                assert forall|i: int, j: int| 0 <= i < j < after.len() implies after[i].1 != after[j].1 by {
                    if j == after.len() - 1 && after[i].1 == after[j].1 {
                        assert(has_node(before, pair.1));
                    }
                }
            }
            self.bucket = bucket;
            Ok(())
        } else {
            Err(Error::FullLeaf)
        }
    }

    /// Takes every pair out, in order, leaving the leaf empty.
    pub fn drain(&mut self) -> (out: Vec<Pair<Node, ID_LEN>>)
        ensures
            out@ == old(self)@,
            final(self)@ == Seq::<Pair<Node, ID_LEN>>::empty(),
            distinct_nodes(out@),
            out@.len() <= BUCKET_SIZE,
    {
        proof {
            use_type_invariant(&*self);
            use_type_invariant(&self.bucket);
        }
        let mut bucket = Bucket::new();
        std::mem::swap(&mut bucket, &mut self.bucket);
        bucket.drain()
    }

    /// Removes every pair for which `predicate` answers true, keeping the
    /// order of the rest.
    pub fn remove_where<F: Fn(&Pair<Node, ID_LEN>) -> bool>(&mut self, predicate: F)
        requires
            forall|x: Pair<Node, ID_LEN>| call_requires(predicate, (&x,)),
        ensures
            exists|keep: Seq<bool>|
                answers(predicate, old(self)@, keep) && final(self)@ == keep_flagged(
                    old(self)@,
                    keep,
                ),
            distinct_nodes(final(self)@),
            final(self)@.len() <= old(self)@.len(),
    {
        proof {
            use_type_invariant(&*self);
        }
        let ghost before = self.bucket@;
        let mut bucket = Bucket::new();
        std::mem::swap(&mut bucket, &mut self.bucket);
        bucket.remove_nodes_where(predicate);
        let ghost keep = choose|keep: Seq<bool>|
            answers(predicate, before, keep) && bucket@ == keep_flagged(before, keep);
        proof {
            lemma_keep_flagged_distinct(before, keep);
            lemma_keep_flagged_len(before, keep);
        }
        self.bucket = bucket;
        assert(answers(predicate, old(self)@, keep) && self@ == keep_flagged(old(self)@, keep));
    }
}

} // verus!
