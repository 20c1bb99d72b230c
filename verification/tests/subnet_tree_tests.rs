use ipaggregator::subnet_tree::{
    calculate_partial_cidr, floor_log2, is_flag_set, neighbor, to_position, IPTree, LastNode,
    OctetNode, StandardNode,
};

fn make_prefix(ip: [u8; 4]) -> u32 {
    ((ip[0] as u32) << 24) | ((ip[1] as u32) << 16) | ((ip[2] as u32) << 8) | ip[3] as u32
}

#[test]
fn test_neighbor() {
    assert_eq!(neighbor(1), 0);
    assert_eq!(neighbor(255), 254);
    assert_eq!(neighbor(256 + 255), 256 + 254);
    assert_eq!(neighbor(256 + 0), 256 + 1);
}

#[test]
fn test_is_flag_set() {
    assert!(is_flag_set(1, 1));
    assert!(is_flag_set(5, 1));
    assert!(is_flag_set(5, 4));
    assert!(!is_flag_set(5, 2));
}

#[test]
fn test_to_position() {
    assert_eq!(to_position(0).unwrap(), (0, 1));
    assert!(to_position(512).is_err());
    assert_eq!(to_position(255).unwrap(), (3, 1 << 63));
}

#[test]
#[allow(non_snake_case)]
fn test_LastNode_add() {
    let mut node = LastNode::new(0);
    assert!(!node.contains(&1));
    node.add(&[1]);
    assert!(node.contains(&1));
}

#[test]
#[allow(non_snake_case)]
fn test_LastNode__subnetize() {
    let mut node = LastNode {
        octet: 0,
        heap: [0, 0, 0, 0, 3, 0, 0, 0],
    };
    node.subnetize(256 + 1);
    assert_eq!(node.heap, [0, 0, 1, 0, 0, 0, 0, 0]);
}

#[test]
#[allow(non_snake_case)]
fn test_LastNode__unset_heap_bit() {
    let mut node = LastNode {
        octet: 0,
        heap: [1, 0, 0, 0, 0, 0, 0, 0],
    };
    node.unset_heap_bit(0);
    assert_eq!(node.heap, [0; 8]);
}

#[test]
#[allow(non_snake_case)]
fn test_LastNode__set_heap_bit() {
    let mut node = LastNode {
        octet: 0,
        heap: [0, 0, 0, 0, 0, 0, 0, 0],
    };
    node.set_heap_bit(0);
    assert_eq!(node.heap, [1, 0, 0, 0, 0, 0, 0, 0]);
}

#[test]
#[allow(non_snake_case)]
fn test_LastNode___has_subnet() {
    let node = LastNode {
        octet: 0,
        heap: [0, 0, 0, 0, 1, 0, 0, 0],
    };
    assert!(node.contains_subnet_in_heap(256 + 0));
}

#[test]
#[allow(non_snake_case)]
fn test_LastNode_contains() {
    let node = LastNode {
        octet: 0,
        heap: [2, 0, 0, 0, 0, 0, 0, 0],
    };
    assert!(node.contains(&128));
    assert!(node.contains(&2));
}

#[test]
#[allow(non_snake_case)]
fn test_LastNode_expand() {
    let mut node = LastNode::new(0);
    assert!(!node.contains(&128));
    node.expand(128);
    assert!(node.contains(&128));
}

#[test]
#[allow(non_snake_case)]
fn test_LastNode_is_subnet() {
    let mut node = LastNode::new(0);
    for i in 0..255u8 {
        node.expand(i);
    }
    assert!(!node.is_subnet());
    node.expand(255);
    assert!(node.is_subnet());
}

#[test]
fn test_last_node_walk_empty() {
    let node = LastNode {
        octet: 0,
        heap: [0, 0, 0, 0, 0, 0, 0, 0],
    };
    let mut iter = node.walk(0, 16);
    assert_eq!(None, iter.next())
}

#[test]
fn test_last_node_walk_single_element() {
    let node = LastNode {
        octet: 0,
        heap: [0, 0, 0, 0, 2, 0, 0, 0],
    };
    let mut iter = node.walk(0, 16);
    assert_eq!(Some((1, 32)), iter.next());
    assert_eq!(None, iter.next())
}

#[test]
fn test_last_node_walk_multiple() {
    let node = LastNode {
        octet: 1,
        heap: [0, 0, 0, 0, 2 | 8 | 32, 0, 0, 0],
    };
    let mut iter = node.walk(make_prefix([192, 168, 0, 0]), 16);
    assert_eq!(Some((make_prefix([192, 168, 1, 1]), 32)), iter.next());
    assert_eq!(Some((make_prefix([192, 168, 1, 3]), 32)), iter.next());
    assert_eq!(Some((make_prefix([192, 168, 1, 5]), 32)), iter.next());
    assert_eq!(None, iter.next())
}

#[test]
#[allow(non_snake_case)]
fn test_StandardNode__has_subnet() {
    let node = StandardNode {
        level: 0,
        heap: [2, 0, 0, 0, 0, 0, 0, 0],
        subnodes: Vec::new(),
        octet: 0,
        seed_zeroed: false,
        seed_broadcast: false,
    };
    assert!(node.contains_subnet_in_heap(1));
    assert!(!node.contains_subnet_in_heap(2));
}

#[test]
#[allow(non_snake_case)]
fn test_StandardNode__unset_heap_bit() {
    let mut node = StandardNode {
        octet: 0,
        heap: [1, 0, 0, 0, 0, 0, 0, 0],
        subnodes: Vec::new(),
        level: 0,
        seed_zeroed: false,
        seed_broadcast: false,
    };
    node.unset_heap_bit(0);
    assert_eq!(node.heap, [0; 8]);
}

#[test]
#[allow(non_snake_case)]
fn test_StandardNode__set_heap_bit() {
    let mut node = StandardNode {
        octet: 0,
        heap: [0, 0, 0, 0, 0, 0, 0, 0],
        subnodes: Vec::new(),
        level: 0,
        seed_zeroed: false,
        seed_broadcast: false,
    };
    node.set_heap_bit(0);
    assert_eq!(node.heap, [1, 0, 0, 0, 0, 0, 0, 0]);
}

#[test]
#[allow(non_snake_case)]
fn test_StandardNode__subnetize() {
    let mut node = StandardNode {
        octet: 0,
        heap: [0, 0, 0, 0, 3, 0, 0, 0],
        subnodes: Vec::new(),
        level: 0,
        seed_zeroed: false,
        seed_broadcast: false,
    };
    node.merge_subnets(256 + 1);
    assert_eq!(node.heap, [0, 0, 1, 0, 0, 0, 0, 0]);
}

#[test]
#[allow(non_snake_case)]
fn test_StandardNode__is_subnet() {
    // Node has subnet bit set up
    let node = StandardNode {
        octet: 0,
        heap: [0, 0, 0, 0, 1, 0, 0, 0],
        subnodes: Vec::new(),
        level: 0,
        seed_zeroed: false,
        seed_broadcast: false,
    };
    assert!(node.is_part_of_aggregated_subnet(0));
    assert!(!node.is_part_of_aggregated_subnet(1));

    // Node does not have subnet bit setup, but child already is subnet
    let mut node = StandardNode {
        octet: 0,
        heap: [0, 0, 0, 0, 1, 0, 0, 0],
        subnodes: Vec::new(),
        level: 0,
        seed_zeroed: false,
        seed_broadcast: false,
    };
    node.subnodes.push((
        0,
        OctetNode::Last(LastNode {
            heap: [2, 0, 0, 0, 0, 0, 0, 0],
            octet: 0,
        }),
    ));
    assert!(node.is_part_of_aggregated_subnet(0));

    // Node has subnet bit setup, and child is still there with invalid data.
    let mut node = StandardNode {
        octet: 0,
        heap: [0, 0, 0, 0, 1, 0, 0, 0],
        subnodes: Vec::new(),
        level: 0,
        seed_zeroed: false,
        seed_broadcast: false,
    };
    node.subnodes.push((
        0,
        OctetNode::Last(LastNode {
            heap: [0, 0, 0, 0, 0, 0, 0, 0],
            octet: 0,
        }),
    ));
    assert!(node.is_part_of_aggregated_subnet(0));

    // Node does not have subnet bit set and child is not a subnet.
    let mut node = StandardNode {
        octet: 0,
        heap: [0, 0, 0, 0, 0, 0, 0, 0],
        subnodes: Vec::new(),
        level: 0,
        seed_zeroed: false,
        seed_broadcast: false,
    };
    node.subnodes.push((
        0,
        OctetNode::Last(LastNode {
            heap: [0, 0, 0, 0, 1, 0, 0, 0],
            octet: 0,
        }),
    ));
    assert!(!node.is_part_of_aggregated_subnet(0));

    // Entire node is subnet, so children have to be also
    let node = StandardNode {
        octet: 0,
        heap: [2, 0, 0, 0, 0, 0, 0, 0],
        subnodes: Vec::new(),
        level: 0,
        seed_zeroed: false,
        seed_broadcast: false,
    };
    assert!(node.is_part_of_aggregated_subnet(23));
}

#[test]
#[allow(non_snake_case)]
fn test_StandardNode_expand() {
    let mut node = StandardNode::new(0, 0);
    assert!(node.get_node(&1).is_none());
    node.expand(1);
    assert!(node.contains(&1));
    assert_eq!(node.heap, [0; 8]);
    assert!(node.get_node(&1).is_some());

    // test node that is in subnet
    let mut node = StandardNode {
        octet: 0,
        level: 0,
        heap: [2, 0, 0, 0, 0, 0, 0, 0],
        subnodes: Vec::new(),
        seed_zeroed: false,
        seed_broadcast: false,
    };
    assert!(node.get_node(&1).is_none());
    node.expand(1);
    assert_eq!(node.heap, [2, 0, 0, 0, 0, 0, 0, 0]);
    assert!(node.get_node(&1).is_none());
}

#[test]
#[allow(non_snake_case)]
fn test_StandardNode_contains() {
    // test empty
    let mut node = StandardNode::new(0, 0);
    assert!(!node.contains(&1));

    // test after insertion
    node.subnodes.push((2, OctetNode::Last(LastNode::new(2))));
    assert!(node.contains(&2));

    // test subnetized
    let node = StandardNode {
        octet: 0,
        level: 0,
        subnodes: Vec::new(),
        heap: [2, 0, 0, 0, 0, 0, 0, 0],
        seed_zeroed: false,
        seed_broadcast: false,
    };
    assert!(node.contains(&2));
}

#[test]
#[allow(non_snake_case)]
fn test_StandardNode_is_subnet() {
    // simple test wihtout heap
    let mut node = StandardNode::new(0, 0);
    assert!(!node.is_subnet());

    // not all octets are heap yet
    for j in 0..255u8 {
        for i in 0..255u8 {
            node.add(&[j, i]);
        }
        node.add(&[j, 255]);
    }
    assert!(!node.is_subnet());

    for i in 0..255u8 {
        node.add(&[255, i]);
    }
    node.add(&[255, 255]);
    // all octets are heap
    assert!(node.is_subnet());

    // node is subnet
    let node = StandardNode {
        octet: 0,
        level: 0,
        subnodes: Vec::new(),
        heap: [2, 0, 0, 0, 0, 0, 0, 0],
        seed_zeroed: false,
        seed_broadcast: false,
    };
    assert!(node.is_subnet());
}

#[test]
#[allow(non_snake_case)]
fn test_StandardNode_add() {
    // Most important test.
    // Test add 2 octets in tree.
    let mut node = StandardNode::new(0, 0);
    node.add(&[0, 0]);
    assert!(node.get_node(&0).is_some());
    assert!(node.get_node(&0).unwrap().contains(&0));
}

#[test]
#[allow(non_snake_case)]
fn test_StandardNode_add_subnet_carry_over() {
    let mut node = StandardNode::new(0, 0);
    node.add(&[0, 0]);
    node.add(&[0, 255]);

    for i in 1..255u8 {
        node.add(&[0, i]);
    }
    assert_eq!(node.heap, [0, 0, 0, 0, 1, 0, 0, 0]);
    assert!(node.get_node(&0).is_none());
}

#[test]
#[allow(non_snake_case)]
fn test_StandardNode_add_multipl_heap() {
    let mut node = StandardNode::new(0, 0);
    for j in 0..4u8 {
        node.add(&[j, 0]);
        node.add(&[j, 255]);

        for i in 1..255u8 {
            node.add(&[j, i]);
        }
    }
    assert_eq!(node.heap, [0, 1, 0, 0, 0, 0, 0, 0]);
    assert!(node.get_node(&0).is_none());
    assert!(node.get_node(&1).is_none());
    assert!(node.get_node(&2).is_none());
    assert!(node.get_node(&3).is_none());
}

#[test]
fn test_standard_node_walk_empty() {
    let node = StandardNode {
        octet: 0,
        level: 0,
        heap: [0; 8],
        subnodes: Vec::new(),
        seed_zeroed: false,
        seed_broadcast: false,
    };
    let mut iter = node.walk(0, 0);
    assert_eq!(None, iter.next());
}

#[test]
fn test_standard_node_walk_single_heap() {
    let node = StandardNode {
        octet: 168,
        level: 0,
        heap: [0, 0, 0, 0, 2, 0, 0, 0],
        subnodes: Vec::new(),
        seed_zeroed: false,
        seed_broadcast: false,
    };
    let mut iter = node.walk(make_prefix([192, 0, 0, 0]), 8);
    assert_eq!(Some((make_prefix([192, 168, 1, 0]), 24)), iter.next());
    assert_eq!(None, iter.next());
}

#[test]
fn test_standard_node_walk_multiple_heap() {
    let node = StandardNode {
        octet: 168,
        level: 0,
        heap: [0, 0, 0, 0, 2 | 8 | 32, 0, 0, 0],
        subnodes: Vec::new(),
        seed_zeroed: false,
        seed_broadcast: false,
    };
    let mut iter = node.walk(make_prefix([192, 0, 0, 0]), 8);
    assert_eq!(Some((make_prefix([192, 168, 1, 0]), 24)), iter.next());
    assert_eq!(Some((make_prefix([192, 168, 3, 0]), 24)), iter.next());
    assert_eq!(Some((make_prefix([192, 168, 5, 0]), 24)), iter.next());
    assert_eq!(None, iter.next());
}

#[test]
fn test_standard_node_walk_single_nested() {
    let subnodes = {
        let mut nodes: Vec<(u8, OctetNode)> = Vec::new();
        nodes.push((
            1_u8,
            OctetNode::Last(LastNode {
                octet: 1,
                heap: [0, 0, 0, 0, 2, 0, 0, 0],
            }),
        ));
        nodes
    };
    let node = StandardNode {
        octet: 168,
        level: 0,
        heap: [0; 8],
        subnodes,
        seed_zeroed: false,
        seed_broadcast: false,
    };
    let mut iter = node.walk(make_prefix([192, 0, 0, 0]), 8);
    assert_eq!(Some((make_prefix([192, 168, 1, 1]), 32)), iter.next());
    assert_eq!(None, iter.next());
}

#[test]
fn test_floor_log2() {
    assert_eq!(floor_log2(2), Ok(1));
    assert_eq!(floor_log2(4), Ok(2));
    assert_eq!(floor_log2(1), Ok(0));
    assert_eq!(floor_log2(9), Ok(3));
}

#[test]
fn test_calculate_subnet() {
    assert_eq!(calculate_partial_cidr(1), (0, 0));
    assert_eq!(calculate_partial_cidr(511), (255, 8));
    assert_eq!(calculate_partial_cidr(256), (0, 8));
}

#[test]
#[allow(non_snake_case)]
fn test__calculate_partial_cidr() {
    assert_eq!((0u8, 0u8), calculate_partial_cidr(1u16));
    assert_eq!((0u8, 1u8), calculate_partial_cidr(2u16));
    assert_eq!((0u8, 8u8), calculate_partial_cidr(256u16));
    assert_eq!((255u8, 8u8), calculate_partial_cidr(511u16));
}

fn drain(tree: &IPTree) -> Vec<(u32, u8)> {
    let mut iter = tree.walk();
    let mut out = Vec::new();
    while let Some(pair) = iter.next() {
        out.push(pair);
    }
    out
}

#[test]
fn test_tree_four_hosts_merge_to_slash_30() {
    let mut tree = IPTree::new_with_opts(false, false);
    tree.add(&[192, 168, 1, 2]);
    tree.add(&[192, 168, 1, 1]);
    tree.add(&[192, 168, 1, 0]);
    tree.add(&[192, 168, 1, 3]);
    assert_eq!(drain(&tree), vec![(0xC0A80100, 30)]);
}

#[test]
fn test_tree_full_slash_24() {
    let mut tree = IPTree::new_with_opts(false, false);
    for d in 0..=255u8 {
        tree.add(&[192, 168, 1, d]);
    }
    assert_eq!(drain(&tree), vec![(0xC0A80100, 24)]);
}

#[test]
fn test_tree_two_slash_24_merge_to_slash_23() {
    let mut tree = IPTree::new_with_opts(false, false);
    for d in 0..=255u8 {
        tree.add(&[192, 168, 0, d]);
    }
    for d in 0..=255u8 {
        tree.add(&[192, 168, 1, d]);
    }
    assert_eq!(drain(&tree), vec![(0xC0A80000, 23)]);
}

#[test]
fn test_tree_seeded_single_host() {
    let mut tree = IPTree::new();
    tree.add(&[10, 0, 0, 5]);
    assert_eq!(
        drain(&tree),
        vec![(0x0A000000, 32), (0x0A000005, 32), (0x0A0000FF, 32)]
    );
}

#[test]
fn test_tree_three_hosts_mixed_masks() {
    let mut tree = IPTree::new_with_opts(false, false);
    tree.add(&[2, 9, 18, 20]);
    tree.add(&[2, 9, 18, 21]);
    tree.add(&[2, 9, 18, 22]);
    assert_eq!(drain(&tree), vec![(0x02091214, 31), (0x02091216, 32)]);
}

#[test]
fn test_tree_slash_26_block() {
    let mut tree = IPTree::new_with_opts(false, false);
    for d in 0..64u8 {
        tree.add(&[10, 0, 0, d]);
    }
    assert_eq!(drain(&tree), vec![(0x0A000000, 26)]);
}

#[test]
fn test_tree_add_order_insensitive() {
    let mut forward = IPTree::new_with_opts(false, false);
    let mut backward = IPTree::new_with_opts(false, false);
    let addrs: Vec<[u8; 4]> = vec![
        [10, 0, 0, 1],
        [10, 0, 0, 2],
        [10, 0, 0, 3],
        [10, 0, 1, 7],
        [172, 16, 5, 200],
        [10, 0, 0, 0],
    ];
    for a in addrs.iter() {
        forward.add(a);
    }
    for a in addrs.iter().rev() {
        backward.add(a);
    }
    assert_eq!(drain(&forward), drain(&backward));
}

#[test]
fn test_tree_add_idempotent() {
    let mut tree = IPTree::new();
    tree.add(&[172, 16, 100, 10]);
    tree.add(&[172, 16, 100, 11]);
    let once = drain(&tree);
    tree.add(&[172, 16, 100, 10]);
    tree.add(&[172, 16, 100, 10]);
    assert_eq!(drain(&tree), once);
}

#[test]
fn test_tree_walk_round_trip() {
    // with seeding off the union of the emitted blocks is exactly the
    // inserted set
    let mut tree = IPTree::new_with_opts(false, false);
    let inserted: Vec<[u8; 4]> = vec![
        [1, 2, 3, 4],
        [1, 2, 3, 5],
        [1, 2, 3, 6],
        [9, 9, 9, 9],
    ];
    for a in inserted.iter() {
        tree.add(a);
    }
    let mut covered: Vec<u32> = Vec::new();
    for (prefix, mask) in drain(&tree) {
        let span = 1u64 << (32 - mask);
        for off in 0..span {
            covered.push(prefix + off as u32);
        }
    }
    covered.sort();
    let mut expected: Vec<u32> = inserted
        .iter()
        .map(|a| ((a[0] as u32) << 24) | ((a[1] as u32) << 16) | ((a[2] as u32) << 8) | a[3] as u32)
        .collect();
    expected.sort();
    assert_eq!(covered, expected);
}

#[test]
fn test_tree_clear_empties() {
    let mut tree = IPTree::new();
    tree.add(&[8, 8, 8, 8]);
    tree.clear();
    assert_eq!(drain(&tree), vec![]);
    assert!(!tree.contains(8));
}

#[test]
fn test_tree_contains_and_get_node() {
    let mut tree = IPTree::new_with_opts(false, false);
    assert!(!tree.contains(10));
    tree.add(&[10, 1, 2, 3]);
    assert!(tree.contains(10));
    assert!(tree.get_node(10).is_some());
    assert!(tree.get_node(11).is_none());
    // a short or long path is ignored
    tree.add(&[1, 2, 3]);
    assert!(!tree.contains(1));
}

#[test]
fn test_heap_set_then_test() {
    let mut node = LastNode::new(7);
    node.set_heap_bit(300);
    assert!(node.contains_subnet_in_heap(300));
    assert!(!node.contains_subnet_in_heap(301));
}

#[test]
fn test_heap_merge_propagates() {
    // both children set: merging clears them and sets the parent, and
    // keeps propagating while siblings pair up
    let mut node = LastNode::new(0);
    node.set_heap_bit(4);
    node.set_heap_bit(5);
    node.set_heap_bit(3);
    node.subnetize(4);
    assert!(!node.contains_subnet_in_heap(4));
    assert!(!node.contains_subnet_in_heap(5));
    assert!(!node.contains_subnet_in_heap(3));
    assert!(!node.contains_subnet_in_heap(2));
    assert!(node.contains_subnet_in_heap(1));
}

#[test]
fn test_floor_log2_powers() {
    for k in 0..64u32 {
        assert_eq!(floor_log2(1u64 << k), Ok(k as u8));
    }
}
