use fast_ctc_decode::prob::{prob_add, prob_mul, PROB_MAX, PROB_ONE};
use fast_ctc_decode::tree::SuffixTree;
use fast_ctc_decode::vec2d::Vec2D;

#[test]
fn vec2d_new_and_get() {
    let v = Vec2D::new(2, 3, 7);
    assert_eq!(v.rows(), 2);
    assert_eq!(v.cols(), 3);
    for r in 0..2 {
        for c in 0..3 {
            assert_eq!(v.get(r, c), 7);
        }
    }
}

#[test]
fn vec2d_set_is_local() {
    let mut v = Vec2D::new(2, 2, 0);
    v.set(1, 0, 9);
    assert_eq!(v.get(1, 0), 9);
    assert_eq!(v.get(0, 0), 0);
    assert_eq!(v.get(0, 1), 0);
    assert_eq!(v.get(1, 1), 0);
}

#[test]
fn vec2d_swap_rows() {
    let mut v = Vec2D::new(3, 2, 0);
    v.set(0, 0, 1);
    v.set(0, 1, 2);
    v.set(2, 0, 5);
    v.set(2, 1, 6);
    v.swap_rows(0, 2);
    assert_eq!(v.row(0), vec![5, 6]);
    assert_eq!(v.row(2), vec![1, 2]);
    assert_eq!(v.row(1), vec![0, 0]);
}

#[test]
fn vec2d_reset() {
    let mut v = Vec2D::new(2, 2, 3);
    v.set(0, 1, 8);
    v.reset(1);
    for r in 0..2 {
        for c in 0..2 {
            assert_eq!(v.get(r, c), 1);
        }
    }
}

#[test]
fn tree_create_and_lookup() {
    let mut t = SuffixTree::new();
    assert_eq!(t.root(), 0);
    assert_eq!(t.len(), 1);
    let a = t.get_or_create_child(0, 1, 0);
    assert_eq!(a, 1);
    assert_eq!(t.len(), 2);
    // looking the child up again does not move it or update its time
    let a2 = t.get_or_create_child(0, 1, 5);
    assert_eq!(a2, a);
    assert_eq!(t.len(), 2);
    assert_eq!(t.time_at(a), 0);
    assert_eq!(t.label_at(a), 1);
    assert_eq!(t.parent_of(a), 0);
}

#[test]
fn tree_path_walks_to_root() {
    let mut t = SuffixTree::new();
    let a = t.get_or_create_child(0, 1, 0);
    let b = t.get_or_create_child(a, 2, 3);
    let c = t.get_or_create_child(b, 1, 4);
    assert_eq!(t.path(c), vec![(1, 0), (2, 3), (1, 4)]);
    assert_eq!(t.path(0), Vec::<(usize, usize)>::new());
}

#[test]
fn prob_arithmetic() {
    assert_eq!(prob_add(1, 2), 3);
    assert_eq!(prob_add(PROB_MAX, 1), PROB_MAX);
    assert_eq!(prob_mul(PROB_ONE, PROB_ONE), PROB_ONE);
    assert_eq!(prob_mul(PROB_ONE / 2, PROB_ONE / 2), PROB_ONE / 4);
    assert_eq!(prob_mul(PROB_MAX, PROB_MAX), PROB_MAX);
    assert_eq!(prob_mul(0, PROB_MAX), 0);
}
