use zvault::walk::SaveOrder;

#[test]
fn subdirectories_are_saved_before_their_parent() {
    let mut order = SaveOrder::new();
    let root = order.enter(None);
    let a = order.enter(Some(root));
    let b = order.enter(Some(root));
    let a1 = order.enter(Some(a));
    let mut saved = Vec::new();
    while let Some(d) = order.next_to_save() {
        saved.push(d);
    }
    assert_eq!(saved.len(), 4);
    let pos = |d: usize| saved.iter().position(|x| *x == d).unwrap();
    assert!(pos(a1) < pos(a));
    assert!(pos(a) < pos(root));
    assert!(pos(b) < pos(root));
    assert_eq!(order.parent_of(a1), Some(a));
    assert_eq!(order.parent_of(root), None);
    assert_eq!(order.next_to_save(), None);
}

#[test]
fn single_directory_is_saved_once() {
    let mut order = SaveOrder::new();
    assert_eq!(order.next_to_save(), None);
    let d = order.enter(None);
    assert_eq!(order.next_to_save(), Some(d));
    assert_eq!(order.next_to_save(), None);
}
