use dens::kademlia::bucket::Leaf;
use dens::kademlia::id::{bit_of_array, Distance, Id};
use dens::kademlia::lookup::{closest_nodes, next_round, unqueried, update_k_closest, ALPHA};
use dens::kademlia::node_cache::{shifted_target_id, unanswered_ids, NodeCache};
use dens::kademlia::pair::Pair;
use dens::kademlia::routing_table::RoutingTable;
use dens::kademlia::siblings::SiblingsList;
use dens::kademlia::status::NodeStatus;
use dens::kademlia::tree::Tree;

#[test]
fn test_bit_from_id() {
    assert!(!bit_of_array::<1>(&[0], 0));
    assert!(bit_of_array::<1>(&[0b10000000], 0));
    assert!(!bit_of_array::<1>(&[0b01000000], 0));
    assert!(bit_of_array::<1>(&[0b01000000], 1));
    assert!(bit_of_array::<1>(&[0b00000001], 7));
    assert!(!bit_of_array::<1>(&[0b00000001], 6));
    assert!(bit_of_array::<1>(&[0b00000000, 0b10000000], 8));
}

#[test]
fn xor_distance_is_symmetric_and_zero_on_itself() {
    let a = Id([0x12, 0x34, 0x56, 0x78]);
    let b = Id([0xff, 0x00, 0x0f, 0xf0]);
    assert_eq!(a.xor_distance(&b), b.xor_distance(&a));
    assert_eq!(a.xor_distance(&b), Distance([0xed, 0x34, 0x59, 0x88]));
    assert_eq!(a.xor_distance(&a), Distance([0, 0, 0, 0]));
    // xor with the distance gives the other identifier back
    assert_eq!(a.xor_with_distance(&a.xor_distance(&b)), b);
}

#[test]
fn leading_zeros_counts_to_first_set_bit() {
    assert_eq!(Distance([0, 0, 0, 0]).leading_zeros(), 32);
    assert_eq!(Distance([0, 0x10, 0, 0]).leading_zeros(), 11);
    assert_eq!(Distance([0x80, 0, 0, 0]).leading_zeros(), 0);
    assert_eq!(Distance([0, 0, 0, 1]).leading_zeros(), 31);
}

#[test]
fn distance_order_and_sum() {
    let small = Distance([0, 0, 1, 0]);
    let big = Distance([0, 1, 0, 0]);
    assert!(small.is_less_than(&big));
    assert!(!big.is_less_than(&small));
    assert!(!small.is_less_than(&small));
    // 0x0000ffff + 0x00000001 carries
    assert_eq!(Distance([0, 0, 0xff, 0xff]).add(&Distance([0, 0, 0, 1])), Distance([0, 1, 0, 0]));
    // wraps around past the largest value
    assert_eq!(Distance([0xff, 0xff, 0xff, 0xff]).add(&Distance([0, 0, 0, 2])), Distance([0, 0, 0, 1]));
}

#[test]
fn distance_shifts_move_bytes_and_bits() {
    assert_eq!(Distance([0x01, 0x02, 0x03, 0x04]).shl(8), Distance([0x02, 0x03, 0x04, 0]));
    assert_eq!(Distance([0x01, 0x02, 0x03, 0x04]).shr(8), Distance([0, 0x01, 0x02, 0x03]));
    assert_eq!(Distance([0x01, 0x02, 0x03, 0x04]).shl(40), Distance([0, 0, 0, 0]));
    // within a shift, each byte takes its low bits from the top of the byte before it
    assert_eq!(Distance([0x80, 0, 0, 0]).shl(1), Distance([0, 0x01, 0, 0]));
    assert_eq!(Distance([0, 0, 0, 0x80]).shl(1), Distance([0, 0, 0, 0]));
}

fn pair(local: &Id<4>, node: Id<4>) -> Pair<Id<4>, 4> {
    Pair::from_node(node, local)
}

#[test]
fn leaf_refuses_duplicates_and_overflow() {
    let local = Id([0, 0, 0, 0]);
    let mut leaf: Leaf<Id<4>, 4, 2> = Leaf::new();
    assert!(leaf.try_insert(pair(&local, Id([1, 0, 0, 0]))).is_ok());
    // the same node again is accepted without a second copy
    assert!(leaf.try_insert(pair(&local, Id([1, 0, 0, 0]))).is_ok());
    assert_eq!(leaf.len(), 1);
    assert!(leaf.try_insert(pair(&local, Id([2, 0, 0, 0]))).is_ok());
    assert!(leaf.is_full());
    assert_eq!(
        leaf.try_insert(pair(&local, Id([3, 0, 0, 0]))),
        Err(dens::kademlia::bucket::Error::FullLeaf)
    );
    assert_eq!(leaf.len(), 2);
}

#[test]
fn tree_splits_to_keep_nodes_near_the_local_node() {
    let local = Id([0, 0, 0, 0]);
    let mut tree: Tree<Id<4>, 4, 2> = Tree::new();
    // two far nodes fill the root leaf
    assert!(tree.try_insert(pair(&local, Id([0x80, 0, 0, 1]))).is_ok());
    assert!(tree.try_insert(pair(&local, Id([0x80, 0, 0, 2]))).is_ok());
    // a nearer node splits the full leaf and gets in
    assert!(tree.try_insert(pair(&local, Id([0x01, 0, 0, 0]))).is_ok());
    assert_eq!(tree.len(), 3);
    // another far node finds the far leaf full
    assert!(tree.try_insert(pair(&local, Id([0x80, 0, 0, 3]))).is_err());
    assert_eq!(tree.len(), 3);
    let near = tree.nodes_near(&Distance([0x01, 0, 0, 0]), 1);
    assert_eq!(near.len(), 1);
    assert_eq!(near[0].1, Id([0x01, 0, 0, 0]));
    // a distance whose branch here holds enough pairs still walks on down
    let down = tree.nodes_near(&Distance([0x80, 0, 0, 0]), 1);
    assert_eq!(down.len(), 1);
    assert_eq!(down[0].1, Id([0x01, 0, 0, 0]));
    // where that branch holds too few, the walk stops: that branch first
    let stop = tree.nodes_near(&Distance([0x80, 0, 0, 0]), 3);
    let ids: Vec<Id<4>> = stop.iter().map(|p| p.1).collect();
    assert_eq!(ids, vec![Id([0x80, 0, 0, 1]), Id([0x80, 0, 0, 2]), Id([0x01, 0, 0, 0])]);
}

#[test]
fn siblings_list_keeps_nearest_sorted_without_duplicates() {
    let local = Id([0, 0, 0, 0]);
    let mut list: SiblingsList<Id<4>, 4> = SiblingsList::new();
    let evicted = list.maybe_add_nodes(vec![
        pair(&local, Id([0, 0, 0, 9])),
        pair(&local, Id([0, 0, 0, 3])),
        pair(&local, Id([0, 0, 0, 3])),
        pair(&local, Id([0, 0, 0, 5])),
    ]);
    assert!(evicted.is_empty());
    let ids: Vec<u8> = list.iter().iter().map(|p| p.1 .0[3]).collect();
    assert_eq!(ids, vec![3, 5, 9]);
    // the pairs around distance 5, one on each side
    let near: Vec<u8> = list.nearest(&Distance([0, 0, 0, 5]), 2).iter().map(|p| p.1 .0[3]).collect();
    assert_eq!(near, vec![3, 5]);
    list.remove_nodes(&[Id([0, 0, 0, 5])]);
    let ids: Vec<u8> = list.iter().iter().map(|p| p.1 .0[3]).collect();
    assert_eq!(ids, vec![3, 9]);
}

#[test]
fn siblings_list_evicts_past_its_capacity() {
    let local = Id([0, 0, 0, 0]);
    let mut list: SiblingsList<Id<4>, 4> = SiblingsList::new();
    let pairs: Vec<Pair<Id<4>, 4>> = (1..=105u8).map(|i| pair(&local, Id([0, 0, 0, i]))).collect();
    let evicted = list.maybe_add_nodes(pairs);
    assert_eq!(list.len(), 100);
    let evicted_ids: Vec<u8> = evicted.iter().map(|p| p.1 .0[3]).collect();
    assert_eq!(evicted_ids, vec![101, 102, 103, 104, 105]);
}

#[test]
fn routing_table_finds_nodes_from_siblings_then_tree() {
    let local = Id([0, 0, 0, 0]);
    let mut table: RoutingTable<Id<4>, 4, 2> = RoutingTable::new();
    let evicted = table.maybe_add_nodes_to_siblings_list(vec![pair(&local, Id([0, 0, 0, 7]))]);
    assert!(evicted.is_empty());
    assert!(table.insert_into_leaf(pair(&local, Id([0x40, 0, 0, 0]))).is_ok());
    let found: Vec<Id<4>> = table.find_node(Distance([0, 0, 0, 7])).iter().map(|p| p.1).collect();
    assert_eq!(found, vec![Id([0, 0, 0, 7]), Id([0x40, 0, 0, 0])]);
    table.mark_bucket_as_looked_up(&Distance([0x40, 0, 0, 0]), 100);
    assert_eq!(table.get_stale_buckets(50, 120), vec![1]);
    assert_eq!(table.get_stale_buckets(50, 200), Vec::<usize>::new());
}

#[test]
fn node_cache_adds_nodes_and_skips_itself() {
    let local = Id([0, 0, 0, 0]);
    let mut cache: NodeCache<Id<4>, 4, 2> = NodeCache::new(local);
    cache.add_nodes(vec![Id([0, 0, 0, 0]), Id([0, 0, 1, 0]), Id([0, 0, 1, 0])]);
    let known: Vec<Id<4>> = cache.table.sibling_list_pairs().iter().map(|p| p.1).collect();
    assert_eq!(known, vec![Id([0, 0, 1, 0])]);
    let near: Vec<Id<4>> = cache.nearby_nodes(&Id([0, 0, 1, 1])).into_iter().copied().collect();
    assert_eq!(near, vec![Id([0, 0, 1, 0])]);
    // the nearest node has 23 leading zero bits of distance
    assert_eq!(cache.bootstrap_addrs().len(), 23);
}

#[test]
fn bootstrap_target_is_shifted_random_xor_local() {
    let local = Id([0xf0, 0, 0, 0]);
    // a shift of 32 - 30 = 2 bits toward the back: each byte takes the
    // low bits of the byte after it, the last byte takes zeros
    let id = shifted_target_id(&local, 30, [0xff, 0xff, 0xff, 0xff]);
    assert_eq!(id, Id([0xff ^ 0xf0, 0xff, 0xff, 0x3f]));
}

#[test]
fn node_status_codes() {
    assert_eq!(NodeStatus::Good.code(), 0);
    assert_eq!(NodeStatus::Unknown.code(), 1);
    assert_eq!(NodeStatus::Bad.code(), 2);
}

#[test]
fn closest_nodes_sorts_by_distance_and_cuts() {
    let target = Id([0, 0, 0, 0]);
    let nodes = vec![Id([0, 0, 0, 9]), Id([0, 0, 0, 1]), Id([0, 0, 0, 4]), Id([0, 0, 0, 2])];
    let out = closest_nodes(nodes.clone(), &target, 3);
    assert_eq!(out, vec![Id([0, 0, 0, 1]), Id([0, 0, 0, 2]), Id([0, 0, 0, 4])]);
    let all = closest_nodes(nodes, &target, 10);
    assert_eq!(all.len(), 4);
    assert_eq!(all[3], Id([0, 0, 0, 9]));
}

#[test]
fn update_k_closest_adds_only_nearer_nodes() {
    let target = Id([0, 0, 0, 0]);
    let mut k_closest = vec![pair(&target, Id([0, 0, 0, 2])), pair(&target, Id([0, 0, 0, 8]))];
    // 0x10 is farther than the farthest known (8): left out; 2 is known already
    let found = vec![Id([0, 0, 0, 0x10]), Id([0, 0, 0, 3]), Id([0, 0, 0, 2])];
    let grew = update_k_closest(&mut k_closest, found, &target, 3);
    assert!(grew);
    let nodes: Vec<Id<4>> = k_closest.iter().map(|p| p.1).collect();
    assert_eq!(nodes, vec![Id([0, 0, 0, 2]), Id([0, 0, 0, 3]), Id([0, 0, 0, 8])]);
    // nothing nearer: no growth
    let grew = update_k_closest(&mut k_closest, vec![Id([0, 0, 0, 9])], &target, 3);
    assert!(!grew);
    assert_eq!(k_closest.len(), 3);
}

#[test]
fn update_k_closest_cuts_to_k() {
    let target = Id([0, 0, 0, 0]);
    let mut k_closest = vec![pair(&target, Id([0, 0, 0, 5])), pair(&target, Id([0, 0, 0, 7]))];
    let grew = update_k_closest(&mut k_closest, vec![Id([0, 0, 0, 1]), Id([0, 0, 0, 6])], &target, 2);
    assert!(grew);
    let nodes: Vec<Id<4>> = k_closest.iter().map(|p| p.1).collect();
    assert_eq!(nodes, vec![Id([0, 0, 0, 1]), Id([0, 0, 0, 5])]);
}

#[test]
fn unqueried_skips_queried_and_takes_alpha() {
    let target = Id([0, 0, 0, 0]);
    let k_closest: Vec<Pair<Id<4>, 4>> =
        (1u8..=6).map(|b| pair(&target, Id([0, 0, 0, b]))).collect();
    let queried = vec![Id([0, 0, 0, 1]), Id([0, 0, 0, 3])];
    let next = unqueried(&k_closest, &queried, ALPHA);
    let next: Vec<Id<4>> = next.into_iter().cloned().collect();
    assert_eq!(next, vec![Id([0, 0, 0, 2]), Id([0, 0, 0, 4]), Id([0, 0, 0, 5])]);
    let rest = unqueried(&k_closest, &queried, usize::MAX);
    assert_eq!(rest.len(), 4);
}

fn text(bytes: Vec<u8>) -> String {
    String::from_utf8(bytes).unwrap()
}

#[test]
fn id_logging() {
    let id: Id<512> = Id::from_array([255; 32]);
    assert_eq!(text(id.display_text()), "Id(FFFF...FFFF)");
    assert_eq!(
        text(id.debug_text(false)),
        "Id(FFFFFFFFFFFFFFFFFFFFFFFFFFFFFFFFFFFFFFFFFFFFFFFFFFFFFFFFFFFFFFFF)"
    );
    assert_eq!(
        text(id.debug_text(true)),
        "Id(\n    FFFFFFFFFFFFFFFF\n    FFFFFFFFFFFFFFFF\n    FFFFFFFFFFFFFFFF\n    FFFFFFFFFFFFFFFF,\n)"
    );
    let zero: Id<512> = Id::from_array([0u8; 0]);
    assert_eq!(text(zero.display_text()), "Id()");
    assert_eq!(text(zero.debug_text(false)), "Id()");
    assert_eq!(text(zero.debug_text(true)), "Id()");
}

#[test]
fn id_text_short_and_odd_lengths() {
    let one = Id([0xab, 0, 0, 0]);
    assert_eq!(one.get_first_zero_byte(), 1);
    assert_eq!(text(one.display_text()), "Id(AB)");
    // no whole chunk of eight bytes before the trailing zeros
    assert_eq!(text(one.debug_text(false)), "Id()");
    assert_eq!(text(one.debug_text(true)), "Id(\n    ,\n)");
    // three bytes: the first pair, and the last whole pair before the zeros
    let three = Id([1, 2, 3, 0]);
    assert_eq!(three.get_first_zero_byte(), 3);
    assert_eq!(text(three.display_id_bytes()), "0102...0102");
    let inner_zero = Id([0, 0, 0x10, 0]);
    assert_eq!(inner_zero.get_first_zero_byte(), 3);
    assert_eq!(text(inner_zero.debug_id_bytes(3, false)), "");
}

#[test]
fn distance_text() {
    let d = Distance([0x0a, 0xbc, 0, 0]);
    assert_eq!(text(d.display_text()), "0ABC...0ABC");
    assert_eq!(text(Distance([0u8; 4]).debug_text(false)), "Distance()");
    let long = Distance([0x12; 16]);
    assert_eq!(text(long.debug_text(false)), "Distance(12121212121212121212121212121212)");
    assert_eq!(
        text(long.debug_text(true)),
        "Distance(\n    1212121212121212\n    1212121212121212,\n)"
    );
}

#[test]
fn removal_probes_group_by_bucket() {
    let local = Id([0, 0, 0, 0]);
    let mut cache: NodeCache<Id<4>, 4, 2> = NodeCache::new(local);
    cache.table.insert_into_leaf(pair(&local, Id([0x80, 0, 0, 1]))).unwrap();
    let incoming = [Id([0x80, 0, 0, 2]), Id([0x40, 0, 0, 0]), Id([0x81, 0, 0, 0])];
    let probes = cache.removal_probes(&incoming);
    // two buckets: no leading zero bit, and one; the third node repeats the first
    assert_eq!(probes.len(), 2);
    assert_eq!(probes[0].0, 0);
    assert_eq!(probes[1].0, 1);
    let pinged: Vec<Id<4>> = probes[0].1.iter().map(|n| **n).collect();
    assert_eq!(pinged, vec![Id([0x80, 0, 0, 1])]);
    assert!(cache.removal_probes(&[]).is_empty());
}

#[test]
fn removal_candidates_are_the_nodes_that_did_not_answer() {
    let ids = [Id([1, 0, 0, 0]), Id([2, 0, 0, 0]), Id([3, 0, 0, 0])];
    let answers = [true, false, false];
    assert_eq!(unanswered_ids(&ids, &answers), vec![Id([2, 0, 0, 0]), Id([3, 0, 0, 0])]);
    assert!(unanswered_ids(&ids, &[true, true, true]).is_empty());
    assert!(unanswered_ids::<4>(&[], &[]).is_empty());
}

#[test]
fn a_lookup_round_asks_the_unasked_and_counts_them_asked() {
    let local = Id([0, 0, 0, 0]);
    let k: Vec<Pair<Id<4>, 4>> = vec![
        pair(&local, Id([0, 0, 0, 1])),
        pair(&local, Id([0, 0, 0, 2])),
        pair(&local, Id([0, 0, 0, 3])),
    ];
    let mut queried = vec![Id([0, 0, 0, 2])];
    let ask: Vec<Id<4>> = next_round(&k, &mut queried).into_iter().cloned().collect();
    assert_eq!(ask, vec![Id([0, 0, 0, 1]), Id([0, 0, 0, 3])]);
    assert_eq!(queried, vec![Id([0, 0, 0, 2]), Id([0, 0, 0, 1]), Id([0, 0, 0, 3])]);
    // nothing is left to ask: the lookup is over
    assert!(next_round(&k, &mut queried).is_empty());
}
