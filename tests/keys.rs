use fantoch::{Command, KVOp, Rifl, SequentialKeyClocks};

fn cmd(rifl: Rifl, ops: Vec<(&str, KVOp)>) -> Command {
    Command::new(
        rifl,
        ops.into_iter().map(|(k, op)| (String::from(k), op)).collect(),
    )
}

#[test]
fn conflicting_writes_become_dependencies() {
    let a = Rifl::new(1, 1);
    let b = Rifl::new(2, 1);
    let c = Rifl::new(3, 1);
    let mut clocks = SequentialKeyClocks::new();
    let cmd_a = cmd(a, vec![("x", KVOp::Put(1))]);
    assert!(clocks.dependencies_for(&cmd_a).is_empty());
    assert_eq!(clocks.register(&cmd_a), 1);
    let cmd_b = cmd(b, vec![("x", KVOp::Get), ("y", KVOp::Put(2))]);
    assert_eq!(clocks.dependencies_for(&cmd_b), vec![a]);
    assert_eq!(clocks.register(&cmd_b), 2);
    let cmd_c = cmd(c, vec![("y", KVOp::Get), ("z", KVOp::Get)]);
    assert_eq!(clocks.dependencies_for(&cmd_c), vec![b]);
    assert_eq!(clocks.register(&cmd_c), 3);
}

#[test]
fn reads_do_not_conflict() {
    let a = Rifl::new(1, 1);
    let b = Rifl::new(2, 1);
    let mut clocks = SequentialKeyClocks::new();
    clocks.register(&cmd(a, vec![("x", KVOp::Get)]));
    assert!(clocks
        .dependencies_for(&cmd(b, vec![("x", KVOp::Get)]))
        .is_empty());
    assert_eq!(
        clocks.dependencies_for(&cmd(b, vec![("x", KVOp::Delete)])),
        vec![a]
    );
}

#[test]
fn removed_commands_are_no_dependencies() {
    let a = Rifl::new(1, 1);
    let b = Rifl::new(2, 1);
    let mut clocks = SequentialKeyClocks::new();
    clocks.register(&cmd(a, vec![("x", KVOp::Put(1)), ("w", KVOp::Put(1))]));
    clocks.remove(a);
    assert!(clocks
        .dependencies_for(&cmd(b, vec![("x", KVOp::Put(2))]))
        .is_empty());
    // the clock of a key does not go back when its commands leave
    assert_eq!(clocks.register(&cmd(b, vec![("x", KVOp::Put(2))])), 2);
}

#[test]
fn own_registration_is_no_dependency() {
    let a = Rifl::new(1, 1);
    let mut clocks = SequentialKeyClocks::new();
    let cmd_a = cmd(a, vec![("x", KVOp::Put(1))]);
    clocks.register(&cmd_a);
    assert!(clocks.dependencies_for(&cmd_a).is_empty());
}
