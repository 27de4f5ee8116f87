use dens::kademlia::id::{Distance, Id};
use dens::kademlia::pair::Pair;
use dens::kademlia::tree::Tree;
use sha2::{Digest, Sha256};

/// The identifier of the node at 127.0.0.1:`port`: the SHA-256 of the
/// address's text and the port's big-endian bytes.
fn node_id(port: u16) -> Id<32> {
    let mut hasher = Sha256::new();
    hasher.update("127.0.0.1".to_string());
    hasher.update(port.to_be_bytes());
    let hash = hasher.finalize();
    let mut id = [0u8; 32];
    id.copy_from_slice(hash.as_slice());
    Id(id)
}

/// A distance written as its first two and last two bytes.
fn short(d: &Distance<32>) -> String {
    format!("{:02X}{:02X}...{:02X}{:02X}", d.0[0], d.0[1], d.0[30], d.0[31])
}

/// Each leaf's pairs as (short distance, port), given the ports to look
/// nodes up by.
fn leaves_of<const B: usize>(tree: &Tree<Id<32>, 32, B>, ports: &[u16], sort: bool) -> Vec<Vec<(String, u16)>> {
    tree.leaves_iter()
        .iter()
        .map(|leaf| {
            let mut pairs: Vec<&Pair<Id<32>, 32>> = leaf.iter().iter().collect();
            if sort {
                pairs.sort_by(|a, b| a.0 .0.cmp(&b.0 .0));
            }
            pairs
                .iter()
                .map(|p| {
                    let port = *ports.iter().find(|&&q| node_id(q) == p.1).unwrap();
                    (short(&p.0), port)
                })
                .collect()
        })
        .collect()
}

fn expected(leaves: Vec<Vec<(&str, u16)>>) -> Vec<Vec<(String, u16)>> {
    leaves
        .into_iter()
        .map(|l| l.into_iter().map(|(d, p)| (d.to_string(), p)).collect())
        .collect()
}

#[test]
fn test_lookups() {
    let mut root: Tree<Id<32>, 32, 2> = Tree::new();
    let ports: Vec<u16> = (1..200).collect();
    let main_id = node_id(0);
    for &port in &ports {
        let pair = Pair::from_node(node_id(port), &main_id);
        let distance = pair.0;
        let mut leaf = root.get_leaf_mut(&distance);
        let _ = leaf.try_insert(pair);
    }
    assert_eq!(
        leaves_of(&root, &ports, false),
        expected(vec![
                vec![("0091...5DBA", 185)],
                vec![("0175...AB73", 22), ("01ED...3F62", 52)],
                vec![("028E...49AE", 54), ("02D9...A704", 75)],
                vec![("074B...BD9A", 12), ("076C...2614", 147)],
                vec![("0DB1...6838", 10), ("0CD6...5203", 31)],
                vec![("1FE5...B91A", 20), ("1772...EEEA", 36)],
                vec![("212C...B227", 1), ("2F65...A86B", 4)],
                vec![("515C...BF1D", 2), ("5170...3F2A", 5)],
                vec![("A96E...72C4", 3), ("A5EB...4E9B", 6)],
            ])
    );
}

#[test]
fn test_tree() {
    let mut tree: Tree<Id<32>, 32, 20> = Tree::new();
    let local = node_id(0);
    let ports: Vec<u16> = (1..100).collect();
    for &port in &ports {
        let pair = Pair::from_node(node_id(port), &local);
        let distance = pair.0;
        let mut leaf = tree.get_leaf_mut(&distance);
        let _ = leaf.try_insert(pair);
    }
    let leaves = leaves_of(&tree, &ports, true);
    assert_eq!(leaves.len(), 4);
    assert_eq!(leaves, expected(vec![
            vec![("0175...AB73", 22), ("01ED...3F62", 52), ("028E...49AE", 54), ("02D9...A704", 75), ("039B...CC84", 96), ("074B...BD9A", 12), ("08A5...88A2", 43), ("0B6F...C523", 95), ("0C09...B74C", 50), ("0CD6...5203", 31), ("0DB1...6838", 10), ("0F54...117F", 66), ("1470...5322", 87), ("1772...EEEA", 36), ("17E1...8EB8", 58), ("1CDF...FA1E", 69), ("1E8E...9966", 71), ("1FE4...4B95", 99), ("1FE5...B91A", 20)],
            vec![("204C...3362", 14), ("212C...B227", 1), ("2595...A747", 80), ("2863...FC61", 83), ("2A61...C3AE", 23), ("2C98...EE4D", 30), ("2CBB...8361", 44), ("2F65...A86B", 4), ("30CD...6177", 97), ("341E...2E4A", 63), ("3E0F...E61D", 46)],
            vec![("41C1...A843", 13), ("44FE...325F", 60), ("4665...346D", 77), ("491E...119E", 32), ("4970...31FB", 53), ("4BC1...4071", 76), ("4ED5...A987", 73), ("515C...BF1D", 2), ("5170...3F2A", 5), ("556A...B2A1", 51), ("5B57...23A8", 42), ("5CAD...1CC0", 70), ("6C29...68AF", 7), ("6D86...EFC6", 39), ("6FD8...CF76", 48), ("70BC...8544", 27), ("75E8...3D22", 33), ("799B...5BA6", 15), ("7AA4...9940", 25), ("7FDB...4A2B", 72)],
            vec![("8A3D...B826", 21), ("91A5...CA5F", 9), ("99A6...21FC", 41), ("A20D...2D14", 16), ("A361...AEAB", 40), ("A5EB...4E9B", 6), ("A8DB...E38E", 34), ("A96E...72C4", 3), ("B557...7E26", 18), ("BF83...E4D7", 35), ("C0D6...1D50", 28), ("C79F...05ED", 24), ("CE8C...6110", 17), ("D7D6...2A75", 26), ("D8BC...016A", 29), ("E6BF...C10B", 19), ("EC47...F08E", 37), ("F6CB...DEF6", 8), ("FD3D...AD2A", 11), ("FFF1...4136", 38)],
        ]));

    for port in 0..100u16 {
        let pair = Pair::from_node(node_id(port), &local);
        let distance = pair.0;
        let mut leaf = tree.get_leaf_mut(&distance);
        leaf.remove_where(|p| p.0 == pair.0 && p.1 == pair.1);
    }
    let leaves = tree.leaves_iter();
    assert_eq!(leaves.len(), 1);
    assert!(leaves[0].iter().is_empty());
    assert_eq!(tree.len(), 0);
}

#[test]
fn a_node_is_replaced_in_place_keeping_its_distance() {
    let local = Id([0u8; 32]);
    let mut tree: Tree<Id<32>, 32, 2> = Tree::new();
    let mut far = [0u8; 32];
    far[0] = 0x80;
    let mut near = [0u8; 32];
    near[0] = 0x01;
    let far_pair = Pair::from_node(Id(far), &local);
    let distance = far_pair.0;
    assert!(tree.try_insert(far_pair).is_ok());
    assert!(tree.try_insert(Pair::from_node(Id(near), &local)).is_ok());
    let mut other = far;
    other[31] = 7;
    tree.set_node(&distance, 0, Id(other));
    let leaf = tree.get_leaf(&distance).iter();
    assert_eq!(leaf.len(), 2);
    assert_eq!(leaf[0].0, distance);
    assert_eq!(leaf[1].1, Id(near));
    assert_eq!(leaf[0].1, Id(other));
    assert_eq!(tree.len(), 2);
}
