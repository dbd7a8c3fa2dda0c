//! The blocking graph: edge symmetry, edge errors, trees and cycles.

use ba::errors::TrackerError;
use ba::graph::TreeNode;
use ba::store::{Config, Store};

const T1: &str = "2024-02-01T08:00:00.000000000Z";
const T2: &str = "2024-02-01T09:00:00.000000000Z";

fn fresh_store() -> Store {
    Store::new(Config { version: 1, prefix: String::from("zz") })
}

#[test]
fn add_edge_writes_both_sides() {
    let mut store = fresh_store();
    let a = store.create_issue("blocked one", "task", 2, "", T1).unwrap();
    let b = store.create_issue("the blocker", "task", 2, "", T2).unwrap();
    store.add_edge(&a, &b, T2).unwrap();
    assert!(store.get(&a).unwrap().blocked_by.contains(&b));
    assert!(store.get(&b).unwrap().blocks.contains(&a));
}

#[test]
fn remove_edge_clears_both_sides() {
    let mut store = fresh_store();
    let a = store.create_issue("blocked one", "task", 2, "", T1).unwrap();
    let b = store.create_issue("the blocker", "task", 2, "", T2).unwrap();
    store.add_edge(&a, &b, T2).unwrap();
    store.remove_edge(&a, &b, T2).unwrap();
    assert!(!store.get(&a).unwrap().blocked_by.contains(&b));
    assert!(!store.get(&b).unwrap().blocks.contains(&a));
}

#[test]
fn edge_errors() {
    let mut store = fresh_store();
    let a = store.create_issue("one", "task", 2, "", T1).unwrap();
    let b = store.create_issue("two", "task", 2, "", T2).unwrap();
    assert!(matches!(store.add_edge(&a, &a, T2), Err(TrackerError::SelfBlock)));
    assert!(matches!(store.add_edge("zz-none", &b, T2), Err(TrackerError::NotFound { .. })));
    assert!(matches!(store.add_edge(&a, "zz-none", T2), Err(TrackerError::NotFound { .. })));
    store.add_edge(&a, &b, T2).unwrap();
    assert!(matches!(store.add_edge(&a, &b, T2), Err(TrackerError::DuplicateEdge { .. })));
    assert!(matches!(store.remove_edge(&b, &a, T2), Err(TrackerError::MissingEdge { .. })));
    assert!(matches!(
        store.remove_edge("zz-none", &b, T2),
        Err(TrackerError::NotFound { .. })
    ));
}

#[test]
fn cycle_of_three_reported_once() {
    let mut store = fresh_store();
    let a = store.create_issue("aaa", "task", 2, "", T1).unwrap();
    let b = store.create_issue("bbb", "task", 2, "", T1).unwrap();
    let c = store.create_issue("ccc", "task", 2, "", T1).unwrap();
    store.add_edge(&a, &b, T2).unwrap();
    store.add_edge(&b, &c, T2).unwrap();
    store.add_edge(&c, &a, T2).unwrap();
    let cycles = store.detect_cycles();
    assert_eq!(cycles.len(), 1, "one canonical cycle expected");
    let ids = &cycles[0];
    assert_eq!(ids.len(), 3);
    assert!(ids.contains(&a) && ids.contains(&b) && ids.contains(&c));
}

#[test]
fn rotated_construction_normalizes_alike() {
    let t = T2;
    let mut one = fresh_store();
    let a1 = one.create_issue("aaa", "task", 2, "", T1).unwrap();
    let b1 = one.create_issue("bbb", "task", 2, "", T1).unwrap();
    let c1 = one.create_issue("ccc", "task", 2, "", T1).unwrap();
    one.add_edge(&a1, &b1, t).unwrap();
    one.add_edge(&b1, &c1, t).unwrap();
    one.add_edge(&c1, &a1, t).unwrap();

    let mut two = fresh_store();
    let a2 = two.create_issue("aaa", "task", 2, "", T1).unwrap();
    let b2 = two.create_issue("bbb", "task", 2, "", T1).unwrap();
    let c2 = two.create_issue("ccc", "task", 2, "", T1).unwrap();
    // Same cycle, edges added starting elsewhere around the loop.
    two.add_edge(&b2, &c2, t).unwrap();
    two.add_edge(&c2, &a2, t).unwrap();
    two.add_edge(&a2, &b2, t).unwrap();

    let cy1 = one.detect_cycles();
    let cy2 = two.detect_cycles();
    assert_eq!(cy1.len(), 1);
    assert_eq!(cy2.len(), 1);
    let n1 = ba::graph::normalize_cycle(&cy1[0]);
    let n2 = ba::graph::normalize_cycle(&cy2[0]);
    assert_eq!(n1, n2, "rotations normalize to one canonical form");
}

#[test]
fn no_cycles_in_a_chain() {
    let mut store = fresh_store();
    let a = store.create_issue("aaa", "task", 2, "", T1).unwrap();
    let b = store.create_issue("bbb", "task", 2, "", T1).unwrap();
    store.add_edge(&a, &b, T2).unwrap();
    assert!(store.detect_cycles().is_empty());
}

#[test]
fn normalize_rotates_to_smallest() {
    let cycle = vec!["zz-b".to_string(), "zz-c".to_string(), "zz-a".to_string()];
    let n = ba::graph::normalize_cycle(&cycle);
    assert_eq!(n, vec!["zz-a".to_string(), "zz-b".to_string(), "zz-c".to_string()]);
}

#[test]
fn tree_shows_children_cycles_and_missing() {
    let mut store = fresh_store();
    let a = store.create_issue("root issue", "task", 2, "", T1).unwrap();
    let b = store.create_issue("a blocker", "task", 2, "", T1).unwrap();
    store.add_edge(&a, &b, T2).unwrap();
    store.add_edge(&b, &a, T2).unwrap();
    let pos = store.find_index(&a).unwrap();
    store.issues[pos].blocked_by.push("zz-ghost".to_string());

    let mut path = Vec::new();
    let tree = store.build_tree(&a, &mut path);
    match tree {
        TreeNode::Node { id, title, children, .. } => {
            assert_eq!(id, a);
            assert_eq!(title, "root issue");
            assert_eq!(children.len(), 2);
            match &children[0] {
                TreeNode::Node { id: bid, children: grand, .. } => {
                    assert_eq!(bid, &b);
                    // b's blocker is a, already on the path: a cycle leaf.
                    assert!(matches!(&grand[0], TreeNode::CycleLeaf { id } if *id == a));
                }
                other => panic!("unexpected child: {other:?}"),
            }
            assert!(matches!(&children[1], TreeNode::MissingLeaf { id } if id == "zz-ghost"));
        }
        other => panic!("unexpected root: {other:?}"),
    }
}
