use radicle_surf::ancestry::{
    ancestry, file_history, last_touching, CommitHistory, LastTouchIndex, Ranked,
};
use radicle_surf::path::Path;
use std::cmp::Ordering;

fn path(s: &str) -> Path {
    Path::parse_rooted(s).unwrap()
}

// Revisions: A = 0, B = 1, C = 2, D = 3; B and C have parent A, D has
// parents B and C.
fn diamond() -> Vec<Vec<usize>> {
    vec![vec![], vec![0], vec![0], vec![1, 2]]
}

#[test]
fn diamond_visits_each_once() {
    let order = ancestry(&diamond(), 3);
    assert_eq!(order.len(), 4);
    assert_eq!(order[0], 3);
    let mut sorted = order.clone();
    sorted.sort();
    assert_eq!(sorted, vec![0, 1, 2, 3]);
    assert_eq!(order, vec![3, 1, 2, 0]);
}

#[test]
fn ancestry_leaves_out_unreachable() {
    // 4 is a child of 3 on another line of work; 5 is unrelated
    let graph = vec![vec![], vec![0], vec![0], vec![1, 2], vec![3], vec![]];
    let order = ancestry(&graph, 1);
    assert_eq!(order, vec![1, 0]);
}

#[test]
fn last_touch_on_diamond() {
    let graph = diamond();
    let touched = vec![
        vec![path("README")],
        vec![path("only_b"), path("both")],
        vec![],
        vec![path("both")],
    ];
    assert_eq!(last_touching(&graph, &touched, 3, &path("only_b")), Some(1));
    assert_eq!(last_touching(&graph, &touched, 3, &path("never")), None);
    assert_eq!(last_touching(&graph, &touched, 3, &path("both")), Some(3));
    assert_eq!(last_touching(&graph, &touched, 3, &path("README")), Some(0));
}

#[test]
fn directory_prefix_is_not_a_touch() {
    let graph = vec![vec![]];
    let touched = vec![vec![path("src/lib.rs")]];
    assert_eq!(last_touching(&graph, &touched, 0, &path("src")), None);
    assert_eq!(last_touching(&graph, &touched, 0, &path("src/lib.rs")), Some(0));
}

#[test]
fn chain_history_and_last_touch() {
    // C1 = 0, C2 = 1, C3 = 2
    let graph = vec![vec![], vec![0], vec![1]];
    let touched = vec![vec![path("src/lib")], vec![], vec![path("README")]];
    let order = ancestry(&graph, 2);
    assert_eq!(order, vec![2, 1, 0]);
    let index = LastTouchIndex::build(&order, &touched);
    assert_eq!(index.last_touch(&path("README")), Some(2));
    assert_eq!(index.last_touch(&path("src/lib")), Some(0));
    assert_eq!(index.last_touch(&path("missing.txt")), None);
}

#[test]
fn touch_outside_traversal_is_ignored() {
    let graph = vec![vec![], vec![0], vec![0]];
    let touched = vec![vec![], vec![path("f")], vec![]];
    assert_eq!(last_touching(&graph, &touched, 2, &path("f")), None);
}

#[test]
fn compare_by_id_prefers_lower_rank() {
    let a = Ranked { rank: 1, revision: 9 };
    let b = Ranked { rank: 4, revision: 2 };
    assert_eq!(a.compare_by_id(&b), Ordering::Greater);
    assert_eq!(b.compare_by_id(&a), Ordering::Less);
    assert_eq!(a.compare_by_id(&a), Ordering::Equal);
}

#[test]
fn file_history_full_and_last() {
    let order = vec![3, 1, 2, 0];
    let touched = vec![true, true, false, false];
    assert_eq!(file_history(&order, &touched, CommitHistory::Full), vec![1, 0]);
    assert_eq!(file_history(&order, &touched, CommitHistory::Last), vec![1]);
    let none = vec![false; 4];
    assert_eq!(file_history(&order, &none, CommitHistory::Full), Vec::<usize>::new());
    assert_eq!(file_history(&order, &none, CommitHistory::Last), Vec::<usize>::new());
}
