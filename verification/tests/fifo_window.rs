use swag::Window;
use swag::daba::DABA;
use swag::monoid::IntSum;
use swag::rfs::RFS;
use swag::soe::SOE;
use swag::two_stacks::TwoStacks;

#[test]
fn test_simple_rfs() {
    let mut window: RFS<IntSum> = Window::new();
    assert_eq!(window.query(), IntSum(0));
    window.insert(IntSum(1));
    assert_eq!(window.query(), IntSum(1));
    window.insert(IntSum(2));
    assert_eq!(window.query(), IntSum(3));
    window.insert(IntSum(3));
    assert_eq!(window.query(), IntSum(6));
    window.evict();
    assert_eq!(window.query(), IntSum(5));
}

#[test]
fn test_simple_soe() {
    let mut window: SOE<IntSum> = Window::new();
    assert_eq!(window.query(), IntSum(0));
    window.insert(IntSum(1));
    assert_eq!(window.query(), IntSum(1));
    window.insert(IntSum(2));
    assert_eq!(window.query(), IntSum(3));
    window.insert(IntSum(3));
    assert_eq!(window.query(), IntSum(6));
    window.evict();
    assert_eq!(window.query(), IntSum(5));
}

#[test]
fn test_simple_two_stacks() {
    let mut window: TwoStacks<IntSum> = Window::new();
    assert_eq!(window.query(), IntSum(0));
    window.insert(IntSum(1));
    assert_eq!(window.query(), IntSum(1));
    window.insert(IntSum(2));
    assert_eq!(window.query(), IntSum(3));
    window.insert(IntSum(3));
    assert_eq!(window.query(), IntSum(6));
    window.evict();
    assert_eq!(window.query(), IntSum(5));
}

#[test]
fn test_simple_daba() {
    let mut window: DABA<IntSum> = DABA::new();
    assert_eq!(window.query(), IntSum(0));
    window.push(IntSum(1));
    assert_eq!(window.query(), IntSum(1));
    window.push(IntSum(2));
    assert_eq!(window.query(), IntSum(3));
    window.push(IntSum(3));
    assert_eq!(window.query(), IntSum(6));
    window.pop();
    assert_eq!(window.query(), IntSum(5));
}
