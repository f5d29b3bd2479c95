use swag::fiba::Tree;
use swag::monoid::IntSum;

#[test]
fn fiba_lifo() {
    let mut tree: Tree<IntSum> = Tree::new();
    let count = 100;
    for i in 1..=count {
        tree.insert(i, IntSum(1));
        assert_eq!(tree.query(), IntSum(i));
    }
    for i in (1..=100).rev() {
        tree.evict(i);
        assert_eq!(tree.query(), IntSum(i - 1));
    }
}

#[test]
fn fiba_fifo() {
    let mut tree: Tree<IntSum> = Tree::new();
    let count = 15;
    for i in 1..=count {
        tree.insert(i, IntSum(1));
        assert_eq!(tree.query(), IntSum(i));
    }
    for i in 1..=count {
        tree.evict(i);
        assert_eq!(tree.query(), IntSum(count - i));
    }
}

#[test]
fn fiba_random_access() {
    let mut tree: Tree<IntSum> = Tree::new();
    const COUNT: usize = 10;

    let times: Vec<i64> = vec![10, 0, 1, 9, -1, 4, 20, 3, -10, -30];
    for (i, &time) in times.iter().enumerate() {
        assert_eq!(tree.query(), IntSum(i as i64));
        tree.insert(time, IntSum(1));
    }
    for (i, &time) in times.iter().enumerate() {
        assert_eq!(tree.query(), IntSum((COUNT - i) as i64));
        tree.evict(time);
    }
    for (i, &time) in times.iter().enumerate() {
        assert_eq!(tree.query(), IntSum(i as i64));
        tree.insert(time, IntSum(1));
    }
}

#[test]
fn fiba_range_query() {
    let mut tree: Tree<IntSum> = Tree::new();
    let count = 15;
    for i in 1..=count {
        tree.insert(i, IntSum(1));
        assert_eq!(tree.query(), IntSum(i));
    }

    assert_eq!(IntSum(10), tree.range_query(0..10));
}

#[test]
fn fiba_big_query() {
    let mut tree: Tree<IntSum> = Tree::new();
    let timestamps = (2 as i64).pow(22);
    for t in 0..timestamps {
        tree.insert(t, IntSum(1));
    }
    for _ in 0..10 {
        for exponent in 0..22 {
            let d = (2 as i64).pow(exponent);
            tree.insert(d, IntSum(0));
            tree.evict(d);
            tree.query();
        }
    }
}
