use swag::FunctionalWindow;
use swag::MultiWindow;
use swag::Window;
use swag::daba::DABA;
use swag::fiba::Tree;
use swag::foa::FOA;
use swag::monoid::{Group, IntMax, IntSum, Monoid};

use swag::ra::RA;
use swag::slide_side::{window_size, SlideSide};
use swag::two_stacks::TwoStacks;

#[test]
fn two_stacks_max_aggregate() {
    let mut w: TwoStacks<IntMax> = Window::new();
    w.insert(IntMax(3));
    assert_eq!(w.query(), IntMax(3));
    w.insert(IntMax(4));
    assert_eq!(w.query(), IntMax(4));
    w.insert(IntMax(5));
    assert_eq!(w.query(), IntMax(5));
    w.evict();
    assert_eq!(w.query(), IntMax(5));
    w.evict();
    assert_eq!(w.query(), IntMax(5));
}

#[test]
fn daba_max_aggregate() {
    let mut w: DABA<IntMax> = DABA::new();
    w.push(IntMax(3));
    assert_eq!(w.query(), IntMax(3));
    w.push(IntMax(4));
    assert_eq!(w.query(), IntMax(4));
    w.push(IntMax(5));
    assert_eq!(w.query(), IntMax(5));
    w.pop();
    assert_eq!(w.query(), IntMax(5));
}

#[test]
fn fiba_empty_query_is_identity() {
    let tree: Tree<IntSum> = Tree::new();
    assert_eq!(tree.query(), IntSum(0));
}

#[test]
fn fiba_evict_absent_is_noop() {
    let mut tree: Tree<IntSum> = Tree::new();
    tree.insert(5, IntSum(7));
    tree.evict(99);
    assert_eq!(tree.query(), IntSum(7));
}

#[test]
fn fiba_duplicate_insert_combines() {
    let mut tree: Tree<IntSum> = Tree::new();
    tree.insert(5, IntSum(7));
    tree.insert(5, IntSum(4));
    assert_eq!(tree.query(), IntSum(11));
    tree.evict(5);
    assert_eq!(tree.query(), IntSum(0));
}

#[test]
fn fiba_insert_then_evict_restores() {
    let mut tree: Tree<IntSum> = Tree::new();
    for i in 1..=40 {
        tree.insert(i, IntSum(i));
    }
    let before = tree.query();
    tree.insert(1000, IntSum(5));
    tree.evict(1000);
    assert_eq!(tree.query(), before);
}

#[test]
fn fiba_range_three_way_split() {
    let mut tree: Tree<IntSum> = Tree::new();
    for i in [3, 14, 159, 26, 5, -35, 89, 79, 323, 84, 62, 6, 43, 38, 32] {
        tree.insert(i, IntSum(i));
    }
    let (a, b) = (10, 80);
    let whole = tree.query();
    let mid = tree.range_query(a..b);
    let above = tree.range_query((b + 1)..i64::MAX);
    let below = tree.range_query(i64::MIN..(a - 1));
    let recombined = mid.combine(&above).combine(&below);
    assert_eq!(recombined, whole);
}

#[test]
fn fiba_range_boundaries() {
    let mut tree: Tree<IntSum> = Tree::new();
    for i in 1..=15 {
        tree.insert(i, IntSum(1));
    }
    assert_eq!(tree.range_query(i64::MIN..i64::MAX), tree.query());
    assert_eq!(tree.range_query(4..4), IntSum(1));
    assert_eq!(tree.range_query(8..2), IntSum(0));
    assert_eq!(tree.range_query(1..15), IntSum(15));
}

#[test]
fn fiba_insert_test_matches_insert() {
    let mut a: Tree<IntSum> = Tree::new();
    let mut b: Tree<IntSum> = Tree::new();
    for i in [4, 2, 9, 1, 7] {
        a.insert(i, IntSum(i));
        b.insert_test(i, IntSum(i));
        assert_eq!(a.query(), b.query());
    }
}

#[test]
fn foa_window() {
    let w: FOA<IntSum> = FunctionalWindow::new();
    assert_eq!(w.query(), IntSum(0));
    let w = w.insert(IntSum(1));
    assert_eq!(w.query(), IntSum(1));
    let w = w.insert(IntSum(2));
    assert_eq!(w.query(), IntSum(3));
    let w = w.insert(IntSum(3));
    assert_eq!(w.query(), IntSum(6));
    let w = w.evict();
    assert_eq!(w.query(), IntSum(5));
}

#[test]
fn ra_window() {
    let mut w: RA<IntSum> = RA::new();
    assert_eq!(w.query(), IntSum(0));
    w.push(IntSum(1));
    assert_eq!(w.query(), IntSum(1));
    w.push(IntSum(2));
    assert_eq!(w.query(), IntSum(3));
    w.push(IntSum(3));
    assert_eq!(w.query(), IntSum(6));
    w.pop();
    assert_eq!(w.query(), IntSum(5));
    w.pop();
    assert_eq!(w.query(), IntSum(3));
    w.pop();
    assert_eq!(w.query(), IntSum(0));
}

#[test]
fn fiba_range_three_way_split_max() {
    let mut tree: Tree<IntMax> = Tree::new();
    for (t, v) in [(2, 7), (5, 1), (9, 12), (13, 4), (21, 9), (34, 3)] {
        tree.insert(t, IntMax(v));
    }
    let (a, b) = (5, 20);
    let whole = tree.query();
    let mid = tree.range_query(a..b);
    let above = tree.range_query((b + 1)..i64::MAX);
    let below = tree.range_query(i64::MIN..(a - 1));
    assert_eq!(mid.combine(&above).combine(&below), whole);
    assert_eq!(whole, IntMax(12));
    assert_eq!(mid, IntMax(12));
    assert_eq!(above, IntMax(9));
    assert_eq!(below, IntMax(7));
}

#[test]
fn slide_side_warmup_and_wrap() {
    // ring of three; queries of width three, two, and a clamped invalid one
    let ranges = [0..3, 1..3, 5..2];
    let mut w: SlideSide<IntSum> = MultiWindow::new(&ranges);
    w.insert(IntSum(10));
    assert_eq!(w.agg(0), IntSum(10));
    assert_eq!(w.agg(1), IntSum(10));
    assert_eq!(w.agg(2), IntSum(0));
    w.insert(IntSum(20));
    assert_eq!(w.agg(0), IntSum(30));
    assert_eq!(w.agg(1), IntSum(30));
    w.insert(IntSum(40));
    assert_eq!(w.agg(0), IntSum(70));
    assert_eq!(w.agg(1), IntSum(60));
    w.insert(IntSum(80));
    assert_eq!(w.agg(0), IntSum(140));
    assert_eq!(w.agg(1), IntSum(120));
    w.insert(IntSum(160));
    assert_eq!(w.agg(0), IntSum(280));
    assert_eq!(w.agg(1), IntSum(240));
    assert_eq!(w.agg(2), IntSum(0));
}

#[test]
fn slide_side_window() {
    let ranges = [0..3, 0..1];
    let mut w: SlideSide<IntSum> = MultiWindow::new(&ranges);
    w.insert(IntSum(1));
    w.insert(IntSum(2));
    w.insert(IntSum(3));
    assert_eq!(w.agg(0), IntSum(6));
    assert_eq!(w.agg(1), IntSum(3));
    w.insert(IntSum(4));
    assert_eq!(w.agg(0), IntSum(9));
    assert_eq!(w.agg(1), IntSum(4));
}

#[test]
fn window_size_width() {
    assert_eq!(window_size(&(2..7)), 5);
    assert_eq!(window_size(&(-3..3)), 6);
}

#[test]
fn sum_wraps_and_inverts() {
    let a = IntSum(i64::MAX);
    let b = a.combine(&IntSum(1));
    assert_eq!(b, IntSum(i64::MIN));
    let c = IntSum(5).combine(&IntSum(5).inverse());
    assert_eq!(c, IntSum(0));
    assert_eq!(IntSum::identity(), IntSum(0));
}
