use bptree::bptree::BPTree;
use bptree::bptree::Node;
use bptree::summary::Dimension;
use bptree::summary::Summarizable;
use bptree::summary::Summary;

fn build<const M: usize>(items: &[u64]) -> BPTree<u64, M> {
    let mut t = BPTree::<u64, M>::new();
    let mut i: usize = 0;
    while i < items.len() {
        t = t.insert(i, items[i]);
        i += 1;
    }
    t
}

fn items_of<const M: usize>(t: &BPTree<u64, M>) -> Vec<u64> {
    let mut out = Vec::new();
    let mut i: usize = 0;
    while (i as u64) < t.len() {
        out.push(*t.get(i).unwrap());
        i += 1;
    }
    out
}

/// Walk a node checking the structural invariants: leaves all at depth
/// equal to the stored height, non-root fanout within bounds, and every
/// cached summary equal to the recomputed count and weight of its
/// subtree. Returns (item count, total weight) of the subtree.
fn check_node<const M: usize>(node: &Node<u64, M>, is_root: bool) -> (u64, u64) {
    let min = M / 2;
    assert!(node.entries() <= M);
    if !is_root {
        assert!(node.entries() >= min);
    }
    if node.is_leaf() {
        assert_eq!(node.height(), 0);
        let mut count: u64 = 0;
        let mut weight: u64 = 0;
        for v in node.values() {
            let s = v.summary();
            assert_eq!(s.count, 1);
            assert_eq!(s.weight, *v);
            count += 1;
            weight += *v;
        }
        assert_eq!(node.summary().count, count);
        assert_eq!(node.summary().weight, weight);
        (count, weight)
    } else {
        assert!(node.height() >= 1);
        let mut count: u64 = 0;
        let mut weight: u64 = 0;
        for child in node.childs() {
            assert_eq!(child.0.height(), node.height() - 1);
            let (c, w) = check_node(&child.0, false);
            assert_eq!(child.0.summary().count, c);
            assert_eq!(child.0.summary().weight, w);
            count += c;
            weight += w;
        }
        assert_eq!(node.summary().count, count);
        assert_eq!(node.summary().weight, weight);
        (count, weight)
    }
}

#[test]
fn test_append_tree() {}

#[test]
fn test_empty_tree() {
    let t = BPTree::<u64, 4>::new();
    assert_eq!(t.len(), 0);
    assert!(t.first().is_none());
    assert!(t.last().is_none());
    assert!(t.get(0).is_none());
    assert!(t.0.is_leaf());
    assert_eq!(t.0.height(), 0);
}

#[test]
fn test_scenario_capacity_two() {
    let t = build::<2>(&[10, 20, 30, 40, 50]);
    assert_eq!(t.0.height(), 2);
    assert_eq!(t.len(), 5);
    assert_eq!(t.get(2), Some(&30));
    assert_eq!(t.first(), Some(&10));
    assert_eq!(t.last(), Some(&50));
    let mut shrunk = t;
    for _ in 0..5 {
        shrunk = shrunk.delete(0);
    }
    assert_eq!(shrunk.len(), 0);
    assert!(shrunk.first().is_none());
}

#[test]
fn test_get_out_of_range() {
    let t = build::<4>(&[1, 2, 3]);
    assert_eq!(t.get(0), Some(&1));
    assert_eq!(t.get(2), Some(&3));
    assert!(t.get(3).is_none());
    assert!(t.get(1000).is_none());
}

#[test]
fn test_insert_out_of_range_unchanged() {
    let t = build::<4>(&[1, 2, 3]);
    let u = t.insert(4, 99);
    assert_eq!(items_of(&u), vec![1, 2, 3]);
}

#[test]
fn test_delete_out_of_range_unchanged() {
    let t = build::<4>(&[1, 2, 3]);
    let u = t.delete(3);
    assert_eq!(items_of(&u), vec![1, 2, 3]);
    let empty = BPTree::<u64, 4>::new();
    let still_empty = empty.delete(0);
    assert_eq!(still_empty.len(), 0);
}

#[test]
fn test_order_preservation() {
    let t = build::<4>(&[1, 2, 3, 4, 5]);
    let u = t.insert(2, 99);
    assert_eq!(u.get(2), Some(&99));
    assert_eq!(items_of(&u), vec![1, 2, 99, 3, 4, 5]);
}

#[test]
fn test_round_trip_appends() {
    let input: Vec<u64> = (0..40).map(|i| i * 7 + 1).collect();
    let t = build::<4>(&input);
    assert_eq!(t.len(), 40);
    assert_eq!(items_of(&t), input);
}

#[test]
fn test_delete_insert_inverse() {
    let base = build::<4>(&[5, 6, 7, 8, 9, 10, 11]);
    for i in 0..=7usize {
        let inserted = base.insert(i, 100);
        let restored = inserted.delete(i);
        assert_eq!(items_of(&restored), items_of(&base));
    }
}

#[test]
fn test_persistence_of_snapshots() {
    let base = build::<2>(&[1, 2, 3, 4, 5, 6, 7]);
    let snapshot = base.clone();
    let grown = base.insert(3, 42);
    let shrunk = base.delete(0);
    let emptied = {
        let mut t = base.clone();
        for _ in 0..7 {
            t = t.delete(0);
        }
        t
    };
    assert_eq!(emptied.len(), 0);
    assert_eq!(items_of(&grown), vec![1, 2, 3, 42, 4, 5, 6, 7]);
    assert_eq!(items_of(&shrunk), vec![2, 3, 4, 5, 6, 7]);
    assert_eq!(items_of(&snapshot), vec![1, 2, 3, 4, 5, 6, 7]);
    assert_eq!(items_of(&base), vec![1, 2, 3, 4, 5, 6, 7]);
}

#[test]
fn test_structural_invariants_while_editing() {
    let mut t = BPTree::<u64, 4>::new();
    for i in 0..60u64 {
        t = t.insert(i as usize, i + 1);
        check_node(&t.0, true);
    }
    while t.len() > 0 {
        let mid = (t.len() / 2) as usize;
        t = t.delete(mid);
        check_node(&t.0, true);
    }
    assert!(t.first().is_none());
}

#[test]
fn test_leaf_depths_equal_height() {
    fn leaf_depths<const M: usize>(node: &Node<u64, M>, depth: u8, out: &mut Vec<u8>) {
        if node.is_leaf() {
            out.push(depth);
        } else {
            for child in node.childs() {
                leaf_depths(&child.0, depth + 1, out);
            }
        }
    }
    let t = build::<2>(&[9, 8, 7, 6, 5, 4, 3, 2, 1]);
    let mut depths = Vec::new();
    leaf_depths(&t.0, 0, &mut depths);
    assert!(!depths.is_empty());
    for d in &depths {
        assert_eq!(*d as i32, t.0.height() as i32);
    }
}

#[test]
fn test_summary_totals() {
    let t = build::<4>(&[10, 20, 30, 40]);
    let s = t.summary();
    assert_eq!(s.count, 4);
    assert_eq!(s.weight, 100);
}

#[test]
fn test_summary_identity_and_combine() {
    let id = Summary::identity();
    assert_eq!(id.count, 0);
    assert_eq!(id.weight, 0);
    let a = Summary { count: 2, weight: 30 };
    let b = Summary { count: 5, weight: 12 };
    let ab = a.combine(&b);
    assert_eq!(ab.count, 7);
    assert_eq!(ab.weight, 42);
    assert_eq!(a.combine(&id), a);
    assert_eq!(id.combine(&a), a);
    let big = Summary { count: 1, weight: u64::MAX };
    let sat = big.combine(&b);
    assert_eq!(sat.count, 6);
    assert_eq!(sat.weight, u64::MAX);
    let abc = a.combine(&b).combine(&big);
    let abc2 = a.combine(&b.combine(&big));
    assert_eq!(abc, abc2);
}

#[test]
fn test_item_summary_of_u64() {
    let x: u64 = 17;
    let s = x.summary();
    assert_eq!(s.count, 1);
    assert_eq!(s.weight, 17);
}

#[test]
fn test_find_by_summary_count_matches_get() {
    let input: Vec<u64> = (0..25).map(|i| i + 100).collect();
    let t = build::<2>(&input);
    for k in 0..25u64 {
        let (idx, off) = t.find_by_summary(Dimension::Count, k);
        assert_eq!(idx, k);
        assert_eq!(off, 0);
        assert_eq!(t.get(idx as usize), Some(&input[k as usize]));
    }
    let (end, extra) = t.find_by_summary(Dimension::Count, 30);
    assert_eq!(end, 25);
    assert_eq!(extra, 5);
}

#[test]
fn test_find_by_summary_weight() {
    let t = build::<2>(&[10, 20, 30]);
    assert_eq!(t.find_by_summary(Dimension::Weight, 0), (0, 0));
    assert_eq!(t.find_by_summary(Dimension::Weight, 9), (0, 9));
    assert_eq!(t.find_by_summary(Dimension::Weight, 10), (1, 0));
    assert_eq!(t.find_by_summary(Dimension::Weight, 15), (1, 5));
    assert_eq!(t.find_by_summary(Dimension::Weight, 29), (1, 19));
    assert_eq!(t.find_by_summary(Dimension::Weight, 30), (2, 0));
    assert_eq!(t.find_by_summary(Dimension::Weight, 59), (2, 29));
    assert_eq!(t.find_by_summary(Dimension::Weight, 60), (3, 0));
    assert_eq!(t.find_by_summary(Dimension::Weight, 100), (3, 40));
}

#[test]
fn test_split_leaf() {
    let t = build::<4>(&[1, 2, 3]);
    let (left, right) = t.split(1);
    assert_eq!(items_of(&left), vec![1]);
    assert_eq!(items_of(&right), vec![2, 3]);
    assert_eq!(left.0.height(), 0);
    assert_eq!(right.0.height(), 0);
}

#[test]
fn test_merge_leaves() {
    let a = build::<4>(&[1, 2]);
    let b = build::<4>(&[3, 4]);
    let m = BPTree::merge(&a, &b);
    assert_eq!(items_of(&m), vec![1, 2, 3, 4]);
    assert_eq!(m.summary().count, 4);
    assert_eq!(m.summary().weight, 10);
}

#[test]
fn test_split_then_merge_restores() {
    let t = build::<4>(&[4, 5, 6, 7]);
    let (left, right) = t.split(2);
    let back = BPTree::merge(&left, &right);
    assert_eq!(items_of(&back), vec![4, 5, 6, 7]);
}

#[test]
fn test_delete_rebalances_underfull_nodes() {
    let input: Vec<u64> = (0..32).collect();
    let mut t = build::<4>(&input);
    let mut expect: Vec<u64> = input.clone();
    while !expect.is_empty() {
        t = t.delete(0);
        expect.remove(0);
        check_node(&t.0, true);
        assert_eq!(items_of(&t), expect);
    }
}

#[test]
fn test_node_bounds_checked_access() {
    let leafy = build::<4>(&[1, 2]);
    assert!(leafy.0.is_leaf());
    assert_eq!(leafy.0.item_at(1), Some(&2));
    assert!(leafy.0.item_at(2).is_none());
    assert!(leafy.0.child_at(0).is_none());
    let tall = build::<2>(&[1, 2, 3, 4, 5]);
    assert!(!tall.0.is_leaf());
    assert!(tall.0.child_at(0).is_some());
    assert!(tall.0.child_at(9).is_none());
    assert!(tall.0.item_at(0).is_none());
}

#[test]
fn test_default_is_empty() {
    let t: BPTree<u64, 4> = Default::default();
    assert_eq!(t.len(), 0);
    assert!(t.first().is_none());
}

#[test]
fn test_split_internal_node() {
    let t = build::<2>(&[10, 20, 30, 40, 50]);
    assert!(t.0.height() >= 1);
    let (left, right) = t.split(1);
    let mut all = items_of(&left);
    all.extend(items_of(&right));
    assert_eq!(all, vec![10, 20, 30, 40, 50]);
    assert_eq!(left.0.height(), t.0.height());
    assert_eq!(right.0.height(), t.0.height());
}

#[test]
fn test_insert_in_middle_repeatedly() {
    let mut t = BPTree::<u64, 2>::new();
    let mut expect: Vec<u64> = Vec::new();
    for i in 0..20u64 {
        let pos = (i as usize) / 2;
        t = t.insert(pos, i);
        expect.insert(pos, i);
        check_node(&t.0, true);
    }
    assert_eq!(items_of(&t), expect);
}
