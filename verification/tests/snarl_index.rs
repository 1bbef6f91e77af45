use cactusgraph::snarls::{Node, Snarl, SnarlMap, SnarlTree, SnarlType};
use rustc_hash::FxHashSet;
use std::cmp::Ordering;
use std::collections::BTreeMap;
use std::collections::HashSet;

fn n(id: u64) -> Node {
    Node::new(id)
}

#[test]
fn endpoints_of_a_sequence_node() {
    let (l, r) = Node::from_gfa_id(21);
    assert_eq!((l.id, r.id), (42, 43));
    assert_eq!(l.to_gfa_id(), 21);
    assert_eq!(r.to_gfa_id(), 21);
    assert!(l.is_left() && !l.is_right());
    assert!(r.is_right() && !r.is_left());
    assert_eq!(l.opposite().id, 43);
    assert_eq!(r.opposite().id, 42);
    assert_eq!(l.left().id, 42);
    assert_eq!(r.left().id, 42);
    assert_eq!(l.right().id, 43);
    assert_eq!(r.right().id, 43);
    let (bl, br) = r.black_edge();
    assert_eq!((bl.id, br.id), (42, 43));
    let (bl, br) = l.black_edge();
    assert_eq!((bl.id, br.id), (42, 43));
    assert_eq!(Node::from(9u64).id, 9);
    assert_eq!(Node::default().id, 0);
    let (l, r) = Node::from_gfa_id(0);
    assert_eq!((l.id, r.id), (0, 1));
    assert_eq!(n(u64::MAX).left().id, u64::MAX - 1);
    assert_eq!(n(u64::MAX).opposite().id, u64::MAX - 1);
    assert_eq!(n(u64::MAX - 1).right().id, u64::MAX);
}

#[test]
fn the_id_can_be_written_through() {
    let mut node = n(4);
    *node.id_mut() = 11;
    assert_eq!(node.id, 11);
    *node.id_mut() += 1;
    assert_eq!(node.id, 12);
}

#[test]
fn snarls_are_in_canonical_order() {
    let chain: Snarl<u8> = Snarl::chain_pair(n(9), n(4));
    assert_eq!((chain.left().id, chain.right().id), (4, 9));
    assert!(chain.snarl_type() == SnarlType::ChainPair);
    assert_eq!(chain.data(), 0);

    let bridge: Snarl<u8> = Snarl::bridge_pair(n(4), n(9));
    assert_eq!((bridge.left().id, bridge.right().id), (4, 9));
    assert!(bridge.snarl_type() == SnarlType::BridgePair);
    assert!(chain != bridge);

    let with = Snarl::chain_pair_with(n(7), n(7), 5u32);
    assert_eq!((with.left().id, with.right().id, with.data()), (7, 7, 5));
    let with = Snarl::bridge_pair_with(n(8), n(2), 6u32);
    assert_eq!((with.left().id, with.right().id, with.data()), (2, 8, 6));
    assert!(with.snarl_type() == SnarlType::BridgePair);

    let mapped: Snarl<u64> = with.map_data(|d| d as u64 * 10);
    assert_eq!(mapped.data(), 60);
    assert_eq!((mapped.left().id, mapped.right().id), (2, 8));
    assert!(mapped.snarl_type() == SnarlType::BridgePair);
    assert!(Snarl::chain_pair_with(n(1), n(2), 3u8) == Snarl::chain_pair_with(n(2), n(1), 3u8));
    // the payload takes no part in equality
    assert!(Snarl::chain_pair_with(n(1), n(2), 3u8) == Snarl::chain_pair_with(n(2), n(1), 4u8));
    assert!(Snarl::chain_pair_with(n(1), n(2), 3u8) != Snarl::bridge_pair_with(n(1), n(2), 3u8));
    assert!(Snarl::chain_pair_with(n(1), n(2), 3u8) != Snarl::chain_pair_with(n(1), n(3), 3u8));
}

fn index() -> SnarlMap {
    let mut map = SnarlMap::default();
    map.insert(Snarl::chain_pair(n(2), n(6)));
    map.insert(Snarl::bridge_pair(n(9), n(2)));
    map.insert(Snarl::chain_pair(n(6), n(9)));
    map.insert(Snarl::bridge_pair(n(0), n(6)));
    map
}

#[test]
fn snarls_get_the_next_rank() {
    let map = index();
    assert_eq!(map.snarls.len(), 4);
    assert_eq!(map.get_snarl_ix(n(2), n(6)), Some(0));
    assert_eq!(map.get_snarl_ix(n(2), n(9)), Some(1));
    assert_eq!(map.get_snarl_ix(n(6), n(9)), Some(2));
    assert_eq!(map.get_snarl_ix(n(0), n(6)), Some(3));
    assert_eq!(map.get_snarl_ix(n(0), n(9)), None);
    assert_eq!(map.get_snarl_ix(n(1), n(6)), None);
    assert_eq!(map.get_snarl_ix(n(6), n(7)), None);
    // 6 is a left boundary and 2 a right boundary of no snarl together
    assert_eq!(map.get_snarl_ix(n(6), n(6)), None);
    assert_eq!(map.lefts.get(&2), Some(&vec![0, 1]));
    assert_eq!(map.rights.get(&6), Some(&vec![0, 3]));
    assert_eq!(map.rights.get(&9), Some(&vec![1, 2]));
}

#[test]
fn lookup_takes_the_boundaries_in_either_order() {
    let map = index();
    for a in 0..11u64 {
        for b in 0..11u64 {
            assert_eq!(map.get_snarl_ix(n(a), n(b)), map.get_snarl_ix(n(b), n(a)));
            assert!(map.get(n(a), n(b)) == map.get(n(b), n(a)));
        }
    }
    let found = map.get(n(9), n(2)).unwrap();
    assert_eq!((found.left().id, found.right().id), (2, 9));
    assert!(found.snarl_type() == SnarlType::BridgePair);
    assert!(map.get(n(3), n(2)).is_none());
}

#[test]
fn a_snarl_is_added_once() {
    let mut map = index();
    map.insert(Snarl::chain_pair(n(6), n(2)));
    // the type takes no part: the boundaries are there already
    map.insert(Snarl::bridge_pair(n(2), n(6)));
    assert_eq!(map.snarls.len(), 4);
    assert_eq!(map.lefts.get(&2), Some(&vec![0, 1]));
    assert!(map.get(n(2), n(6)).unwrap().snarl_type() == SnarlType::ChainPair);
    map.insert(Snarl::chain_pair(n(2), n(7)));
    assert_eq!(map.snarls.len(), 5);
    assert_eq!(map.get_snarl_ix(n(7), n(2)), Some(4));
}

#[test]
fn snarls_at_a_boundary() {
    let map = index();
    let mut walk = map.with_boundary(n(6));
    let mut seen = Vec::new();
    while let Some(snarl) = walk.next() {
        seen.push((snarl.left().id, snarl.right().id));
    }
    // 6 on the left first, then 6 on the right
    assert_eq!(seen, vec![(6, 9), (2, 6), (0, 6)]);
    assert!(walk.next().is_none());

    let mut walk = map.with_boundary(n(0));
    assert_eq!(walk.next().map(|s| s.right().id), Some(6));
    assert!(walk.next().is_none());

    let mut walk = map.with_boundary(n(5));
    assert!(walk.next().is_none());
    assert!(walk.next().is_none());
}

#[test]
fn marks_are_kept_by_black_edge() {
    let mut map = index();
    assert!(map.snarl_contains(n(2), n(6)).is_none());
    assert_eq!(map.mark_snarl(n(6), n(2), n(13), true), Some(()));
    assert_eq!(map.mark_snarl(n(2), n(6), n(14), false), Some(()));
    assert_eq!(map.mark_snarl(n(2), n(6), n(17), true), Some(()));
    assert_eq!(map.mark_snarl(n(2), n(7), n(17), true), None);

    let marks = map.snarl_contains(n(6), n(2)).unwrap();
    assert_eq!(marks.len(), 3);
    // a black edge is filed under its left endpoint
    assert_eq!(marks.get(&12), Some(&true));
    assert_eq!(marks.get(&14), Some(&false));
    assert_eq!(marks.get(&16), Some(&true));
    assert_eq!(marks.get(&13), None);

    // a later mark replaces an earlier one
    assert_eq!(map.mark_snarl(n(2), n(6), n(12), false), Some(()));
    assert_eq!(map.snarl_contains(n(2), n(6)).unwrap().get(&12), Some(&false));
    assert!(map.snarl_contains(n(6), n(9)).is_none());
    assert!(map.snarl_contains(n(6), n(10)).is_none());
}

#[test]
fn inverse_of_the_marks() {
    let mut map = index();
    map.mark_snarl(n(2), n(6), n(12), true);
    map.mark_snarl(n(2), n(6), n(14), false);
    map.mark_snarl(n(2), n(9), n(12), true);
    map.mark_snarl(n(2), n(9), n(15), true);
    map.mark_snarl(n(6), n(9), n(16), false);

    let inverse = map.invert_contains();
    assert_eq!(inverse.len(), 2);
    let mut of_twelve: Vec<usize> = inverse[&12].iter().copied().collect();
    of_twelve.sort();
    assert_eq!(of_twelve, vec![0, 1]);
    let of_fourteen: Vec<usize> = inverse[&14].iter().copied().collect();
    assert_eq!(of_fourteen, vec![1]);
    assert!(!inverse.contains_key(&16));

    // every mark is in the inverse and the other way round
    for rank in 0..4usize {
        for bridge in 0..20u64 {
            let marked = map
                .snarl_contains
                .get(&rank)
                .and_then(|m| m.get(&bridge))
                .copied()
                .unwrap_or(false);
            let inverted = inverse.get(&bridge).map_or(false, |s| s.contains(&rank));
            assert_eq!(marked, inverted);
        }
    }
    assert!(SnarlMap::default().invert_contains().is_empty());
}

#[test]
fn tree_over_an_index() {
    let _tree = SnarlTree::from_snarl_map(index());
    let _empty = SnarlTree::from_snarl_map(SnarlMap::default());
}

#[test]
fn black_edges_inside_a_snarl() {
    // Sequence nodes 0..4. The endpoints 1, 2 and 4 are merged into 2, the
    // endpoints 3, 5 and 6 into 6.
    let mut proj_map: BTreeMap<u64, u64> = BTreeMap::new();
    for (from, to) in [(1, 2), (4, 2), (2, 2), (3, 6), (5, 6), (6, 6)] {
        proj_map.insert(from, to);
    }
    let mut interior: FxHashSet<u64> = FxHashSet::default();
    interior.insert(2);
    interior.insert(6);

    let mut map = SnarlMap::default();
    map.insert(Snarl::chain_pair(n(1), n(6)));
    map.mark_snarl(n(1), n(6), n(8), true);
    map.mark_snarl(n(1), n(6), n(40), true);
    let segments: Vec<u64> = vec![0, 1, 2, 3, 4];
    assert_eq!(
        map.mark_black_edges(n(6), n(1), &segments, &interior, &proj_map),
        Some(())
    );

    let marks = map.snarl_contains(n(1), n(6)).unwrap();
    assert_eq!(marks.len(), 6);
    // 0 projects to itself, outside
    assert_eq!(marks.get(&0), Some(&false));
    // both ends of 1 and of 2 are inside: 2 -> 2, 3 -> 6, 4 -> 2, 5 -> 6
    assert_eq!(marks.get(&2), Some(&true));
    assert_eq!(marks.get(&4), Some(&true));
    // 3 has its left end inside and its right end outside
    assert_eq!(marks.get(&6), Some(&false));
    // the mark of 4 is made again, that of 20 stays
    assert_eq!(marks.get(&8), Some(&false));
    assert_eq!(marks.get(&40), Some(&true));

    // a black edge is held only with both ends inside
    for (&bridge, &held) in marks.iter() {
        if held && bridge != 40 {
            let find = |x: u64| cactusgraph::projection::find_projection(&proj_map, x);
            assert!(interior.contains(&find(bridge)) && interior.contains(&find(bridge + 1)));
        }
    }

    assert_eq!(
        map.mark_black_edges(n(6), n(2), &segments, &interior, &proj_map),
        None
    );
    assert_eq!(map.snarl_contains.len(), 1);
}

#[test]
fn equal_snarls_hash_and_order_alike() {
    let a = Snarl::chain_pair_with(Node::new(8), Node::new(3), 1u32);
    let b = Snarl::chain_pair_with(Node::new(3), Node::new(8), 2u32);
    assert_eq!((a.left().id, a.right().id, a.data(), b.data()), (3, 8, 1, 2));
    assert!(a == b);
    assert_eq!(a.partial_cmp(&b), Some(Ordering::Equal));

    let mut set = HashSet::new();
    assert!(set.insert(a));
    assert!(!set.insert(b));
    assert!(set.insert(Snarl::bridge_pair_with(Node::new(3), Node::new(8), 1u32)));
    assert_eq!(set.len(), 2);

    let chain = Snarl::chain_pair_with(n(3), n(8), 0u8);
    let bridge = Snarl::bridge_pair_with(n(3), n(8), 0u8);
    assert!(chain < bridge);
    assert!(Snarl::chain_pair_with(n(3), n(7), 0u8) < chain);
    assert!(Snarl::chain_pair_with(n(4), n(5), 0u8) > bridge);
}
