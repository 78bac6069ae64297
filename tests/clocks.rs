use fantoch::{KVOp, KVStore, QuorumClocks, Rifl};

#[test]
fn quorum_aggregate_is_max_and_union() {
    let a = Rifl::new(1, 1);
    let b = Rifl::new(2, 1);
    let mut q = QuorumClocks::new(2);
    q.add(1, 5, &vec![a]);
    assert!(!q.all());
    q.add(1, 6, &vec![a]);
    assert!(!q.all());
    q.add(2, 3, &vec![b, a]);
    assert!(q.all());
    let (clock, deps) = q.aggregated();
    assert_eq!(clock, 6);
    assert_eq!(deps, vec![a, b]);
}

#[test]
fn quorum_aggregate_never_shrinks() {
    let a = Rifl::new(1, 1);
    let b = Rifl::new(2, 1);
    let mut q = QuorumClocks::new(1);
    q.add(1, 9, &vec![a, b]);
    assert!(q.all());
    let (c1, d1) = q.aggregated();
    q.add(2, 1, &vec![]);
    let (c2, d2) = q.aggregated();
    assert!(c2 >= c1);
    assert!(d1.iter().all(|r| d2.contains(r)));
    assert!(q.all());
}

#[test]
fn store_returns_previous_values() {
    let mut store = KVStore::new();
    let x = String::from("x");
    assert_eq!(store.execute(&x, KVOp::Get), None);
    assert_eq!(store.execute(&x, KVOp::Put(4)), None);
    assert_eq!(store.execute(&x, KVOp::Put(5)), Some(4));
    assert_eq!(store.get(&x), Some(5));
    assert_eq!(store.execute(&x, KVOp::Delete), Some(5));
    assert_eq!(store.get(&x), None);
}
