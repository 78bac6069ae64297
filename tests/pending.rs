use fantoch::{Command, ExecutorResult, KVOp, Pending, Rifl};

fn two_op_command(rifl: Rifl) -> Command {
    Command::new(
        rifl,
        vec![
            (String::from("a"), KVOp::Put(1)),
            (String::from("b"), KVOp::Get),
        ],
    )
}

#[test]
fn wait_for_then_two_partials_gives_ready() {
    let rifl = Rifl::new(1, 1);
    let mut pending = Pending::new(false);
    assert!(pending.wait_for(&two_op_command(rifl)));
    let first = pending.add_partial(rifl, || (String::from("a"), None));
    assert!(first.is_none());
    let second = pending.add_partial(rifl, || (String::from("b"), Some(1)));
    let ready = second.expect("ready").unwrap_ready();
    assert_eq!(ready.rifl(), rifl);
    assert_eq!(
        ready.results().clone(),
        vec![(String::from("a"), None), (String::from("b"), Some(1))]
    );
}

#[test]
fn ready_only_once() {
    let rifl = Rifl::new(2, 7);
    let mut pending = Pending::new(false);
    assert!(pending.wait_for(&two_op_command(rifl)));
    assert!(pending.add_partial(rifl, || (String::from("a"), None)).is_none());
    assert!(pending.add_partial(rifl, || (String::from("b"), None)).is_some());
    let mut computed = false;
    let late = pending.add_partial(rifl, || {
        computed = true;
        (String::from("b"), None)
    });
    assert!(late.is_none());
    assert!(!computed);
}

#[test]
fn wait_for_twice_is_not_new() {
    let rifl = Rifl::new(3, 1);
    let mut pending = Pending::new(false);
    assert!(pending.wait_for(&two_op_command(rifl)));
    assert!(!pending.wait_for(&two_op_command(rifl)));
}

#[test]
fn wait_for_after_wait_for_rifl_is_not_new() {
    let rifl = Rifl::new(3, 2);
    let mut pending = Pending::new(true);
    pending.wait_for_rifl(rifl);
    assert!(!pending.wait_for(&two_op_command(rifl)));
}

#[test]
fn command_without_operations_is_tracked() {
    let rifl = Rifl::new(3, 3);
    let mut pending = Pending::new(false);
    assert!(pending.wait_for(&Command::new(rifl, vec![])));
    assert!(!pending.wait_for(&Command::new(rifl, vec![])));
    assert!(pending.add_result(rifl, String::from("a"), None).is_some());
}

#[test]
fn untracked_rifl_is_ignored() {
    let mut pending = Pending::new(true);
    assert!(pending
        .add_partial(Rifl::new(9, 9), || (String::from("x"), Some(3)))
        .is_none());
}

#[test]
fn aggregate_mode_hands_out_partials() {
    let rifl = Rifl::new(4, 1);
    let mut pending = Pending::new(true);
    pending.wait_for_rifl(rifl);
    pending.wait_for_rifl(rifl);
    pending.wait_for_rifl(rifl);
    let first = pending.add_partial(rifl, || (String::from("x"), Some(5)));
    let (r, key, result) = first.expect("partial").unwrap_partial();
    assert_eq!(r, rifl);
    assert_eq!(key, String::from("x"));
    assert_eq!(result, Some(5));
    assert!(pending.add_result(rifl, String::from("y"), None).is_some_and(|x| matches!(x, ExecutorResult::Partial(_, _, _))));
    let last = pending.add_result(rifl, String::from("z"), Some(2));
    let ready = last.expect("ready").unwrap_ready();
    assert_eq!(ready.results().len(), 3);
    assert_eq!(ready.results()[2], (String::from("z"), Some(2)));
}

#[test]
fn ready_after_exactly_k_results() {
    let rifl = Rifl::new(5, 1);
    let ops = (0..4)
        .map(|i| (format!("k{}", i), KVOp::Get))
        .collect::<Vec<_>>();
    let mut pending = Pending::new(false);
    assert!(pending.wait_for(&Command::new(rifl, ops)));
    for i in 0..3 {
        assert!(pending.add_result(rifl, format!("k{}", i), None).is_none());
    }
    assert!(pending.add_result(rifl, String::from("k3"), None).is_some());
    assert!(pending.add_result(rifl, String::from("k3"), None).is_none());
}

#[test]
fn client_of_results() {
    let ready = {
        let rifl = Rifl::new(11, 1);
        let mut pending = Pending::new(false);
        pending.wait_for_rifl(rifl);
        pending.add_result(rifl, String::from("a"), None).unwrap()
    };
    assert_eq!(ready.client(), 11);
    let partial = ExecutorResult::Partial(Rifl::new(12, 3), String::from("a"), None);
    assert_eq!(partial.client(), 12);
}
