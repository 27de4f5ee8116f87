//! Maps held as vectors of key-value pairs with distinct keys.
use vstd::prelude::*;

verus! {

/// Keys that can be compared in executable code.
pub trait Mappable: Sized + Copy {
    /// Whether two keys are equal.
    fn same_as(&self, other: &Self) -> (b: bool)
        ensures
            b == (*self == *other),
    ;
}

impl Mappable for u16 {
    fn same_as(&self, other: &Self) -> (b: bool) {
        *self == *other
    }
}

impl Mappable for usize {
    fn same_as(&self, other: &Self) -> (b: bool) {
        *self == *other
    }
}

/// Whether no key occurs twice.
pub open spec fn keys_distinct<K, V>(s: Seq<(K, V)>) -> bool {
    forall|i: int, j: int| 0 <= i < j < s.len() ==> s[i].0 != s[j].0
}

/// The map that the pairs describe.
pub open spec fn to_map<K, V>(s: Seq<(K, V)>) -> Map<K, V>
    decreases s.len(),
{
    if s.len() == 0 {
        Map::empty()
    } else {
        to_map(s.drop_last()).insert(s.last().0, s.last().1)
    }
}

/// A key is in the map exactly when some pair has it, and with distinct
/// keys the map gives that pair's value.
pub proof fn lemma_to_map<K, V>(s: Seq<(K, V)>)
    requires
        keys_distinct(s),
    ensures
        forall|k: K| #[trigger]
            to_map(s).dom().contains(k) <==> exists|i: int| 0 <= i < s.len() && s[i].0 == k,
        forall|i: int| 0 <= i < s.len() ==> #[trigger] to_map(s)[s[i].0] == s[i].1,
        to_map(s).dom().finite(),
        to_map(s).dom().len() == s.len(),
    decreases s.len(),
{
    if s.len() > 0 {
        let t = s.drop_last();
        lemma_to_map(t);
        assert forall|k: K| #[trigger]
            to_map(s).dom().contains(k) <==> exists|i: int| 0 <= i < s.len() && s[i].0 == k by {
            if to_map(s).dom().contains(k) && k != s.last().0 {
                let i = choose|i: int| 0 <= i < t.len() && t[i].0 == k;
                assert(s[i].0 == k);
            }
            if exists|i: int| 0 <= i < s.len() && s[i].0 == k {
                let i = choose|i: int| 0 <= i < s.len() && s[i].0 == k;
                if i < t.len() {
                    assert(t[i].0 == k);
                }
            }
        }
        assert forall|i: int| 0 <= i < s.len() implies #[trigger] to_map(s)[s[i].0] == s[i].1 by {
            if i < t.len() {
                assert(t[i].0 == s[i].0);
                assert(s[i].0 != s.last().0);
            }
        }
        assert(!to_map(t).dom().contains(s.last().0)) by {
            if to_map(t).dom().contains(s.last().0) {
                let i = choose|i: int| 0 <= i < t.len() && t[i].0 == s.last().0;
                assert(s[i].0 == s[s.len() - 1].0);
            }
        }
    }
}

/// The index of the pair with key `k`, if any.
pub fn find<K: Mappable, V>(s: &Vec<(K, V)>, k: &K) -> (r: Option<usize>)
    requires
        keys_distinct(s@),
    ensures
        match r {
            Some(i) => i < s@.len() && s@[i as int].0 == *k && to_map(s@).dom().contains(*k)
                && to_map(s@)[*k] == s@[i as int].1,
            None => !to_map(s@).dom().contains(*k),
        },
{
    proof {
        lemma_to_map(s@);
    }
    let mut i: usize = 0;
    while i < s.len()
        invariant
            i <= s@.len(),
            keys_distinct(s@),
            forall|j: int| 0 <= j < i ==> s@[j].0 != *k,
        decreases s@.len() - i,
    {
        if s[i].0.same_as(k) {
            proof {
                lemma_to_map(s@);
                assert(to_map(s@)[s@[i as int].0] == s@[i as int].1);
                assert(to_map(s@).dom().contains(s@[i as int].0));
            }
            return Some(i);
        }
        i = i + 1;
    }
    None
}

/// Sets the value of `k` to `v`, adding the key if it is new.
pub fn insert<K: Mappable, V>(s: &mut Vec<(K, V)>, k: K, v: V)
    requires
        keys_distinct(old(s)@),
    ensures
        keys_distinct(final(s)@),
        to_map(final(s)@) == to_map(old(s)@).insert(k, v),
{
    proof {
        lemma_to_map(s@);
    }
    match find(s, &k) {
        Some(i) => {
            let ghost before = s@;
            s.set(i, (k, v));
            proof {
                lemma_to_map(s@);
                assert(to_map(s@) =~= to_map(before).insert(k, v)) by {
                    assert forall|x: K| #[trigger] to_map(before).insert(k, v).dom().contains(x)
                        implies to_map(s@).dom().contains(x) by {
                        if x != k {
                            assert(to_map(before).dom().contains(x));
                            let j = choose|j: int| 0 <= j < before.len() && before[j].0 == x;
                            assert(s@[j].0 == x);
                        } else {
                            assert(s@[i as int].0 == x);
                        }
                    }
                    assert forall|x: K| #[trigger] to_map(s@).dom().contains(x) implies to_map(
                        before,
                    ).insert(k, v).dom().contains(x) by {
                        let j = choose|j: int| 0 <= j < s@.len() && s@[j].0 == x;
                        if j != i {
                            assert(before[j].0 == x);
                        }
                    }
                    assert forall|x: K| #[trigger] to_map(s@).dom().contains(x) implies to_map(
                        s@,
                    )[x] == to_map(before).insert(k, v)[x] by {
                        let j = choose|j: int| 0 <= j < s@.len() && s@[j].0 == x;
                        assert(to_map(s@)[s@[j].0] == s@[j].1);
                        if j != i {
                            assert(before[j].0 == x);
                            assert(to_map(before)[before[j].0] == before[j].1);
                        }
                    }
                }
            }
        },
        None => {
            let ghost before = s@;
            s.push((k, v));
            assert(s@.drop_last() =~= before);
        },
    }
}

/// Drops the pair of key `k`, if there is one.
pub fn remove<K: Mappable, V>(s: &mut Vec<(K, V)>, k: &K)
    requires
        keys_distinct(old(s)@),
    ensures
        keys_distinct(final(s)@),
        to_map(final(s)@) == to_map(old(s)@).remove(*k),
{
    proof {
        lemma_to_map(s@);
    }
    match find(s, k) {
        Some(i) => {
            let ghost before = s@;
            s.remove(i);
            proof {
                assert(s@ =~= before.remove(i as int));
                assert(keys_distinct(s@)) by {
                    assert forall|a: int, b: int| 0 <= a < b < s@.len() implies s@[a].0
                        != s@[b].0 by {
                        let a2 = if a < i { a } else { a + 1 };
                        let b2 = if b < i { b } else { b + 1 };
                        assert(s@[a] == before[a2]);
                        assert(s@[b] == before[b2]);
                    }
                }
                lemma_to_map(s@);
                assert(to_map(s@) =~= to_map(before).remove(*k)) by {
                    assert forall|x: K| #[trigger] to_map(before).remove(*k).dom().contains(x)
                        implies to_map(s@).dom().contains(x) by {
                        {
                            assert(to_map(before).dom().contains(x));
                            let j = choose|j: int| 0 <= j < before.len() && before[j].0 == x;
                            assert(j != i);
                            if j < i {
                                assert(s@[j].0 == x);
                            } else {
                                assert(s@[j - 1].0 == x);
                            }
                        }
                    }
                    assert forall|x: K| #[trigger] to_map(s@).dom().contains(x) implies to_map(
                        before,
                    ).remove(*k).dom().contains(x) by {
                        let j = choose|j: int| 0 <= j < s@.len() && s@[j].0 == x;
                        let j2 = if j < i { j } else { j + 1 };
                        assert(before[j2].0 == x);
                    }
                    assert forall|x: K| #[trigger] to_map(s@).dom().contains(x) implies to_map(
                        s@,
                    )[x] == to_map(before).remove(*k)[x] by {
                        let j = choose|j: int| 0 <= j < s@.len() && s@[j].0 == x;
                        let j2 = if j < i { j } else { j + 1 };
                        assert(before[j2] == s@[j]);
                        assert(to_map(s@)[s@[j].0] == s@[j].1);
                        assert(to_map(before)[before[j2].0] == before[j2].1);
                    }
                }
            }
        },
        None => {
            assert(to_map(s@) =~= to_map(s@).remove(*k));
        },
    }
}

} // verus!
