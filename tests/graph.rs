use fantoch::{Command, Executor, GraphExecutionInfo, GraphExecutor, KVOp, Rifl};

fn write_x(rifl: Rifl, value: u64, deps: Vec<Rifl>) -> GraphExecutionInfo {
    GraphExecutionInfo::new(
        Command::new(rifl, vec![(String::from("x"), KVOp::Put(value))]),
        deps,
        0,
    )
}

#[test]
fn independent_command_executes_on_arrival() {
    let a = Rifl::new(1, 1);
    let mut executor = GraphExecutor::with_mode(false);
    let info = write_x(a, 10, vec![]);
    assert!(executor.wait_for(&info.cmd));
    let results = executor.handle(info);
    assert_eq!(executor.executed().clone(), vec![a]);
    assert_eq!(results.len(), 1);
    let ready = results.into_iter().next().unwrap().unwrap_ready();
    assert_eq!(ready.rifl(), a);
    assert_eq!(ready.results().clone(), vec![(String::from("x"), None)]);
    assert_eq!(executor.value(&String::from("x")), Some(10));
}

#[test]
fn dependent_command_waits_for_its_dependency() {
    let a = Rifl::new(1, 1);
    let b = Rifl::new(2, 1);
    let mut executor = GraphExecutor::with_mode(false);
    let info_b = write_x(b, 20, vec![a]);
    executor.wait_for(&info_b.cmd);
    assert!(executor.handle(info_b).is_empty());
    assert!(executor.is_blocked(b));
    assert!(executor.executed().is_empty());
    let info_a = write_x(a, 10, vec![]);
    executor.wait_for(&info_a.cmd);
    let results = executor.handle(info_a);
    assert_eq!(executor.executed().clone(), vec![a, b]);
    assert!(!executor.is_blocked(b));
    assert_eq!(results.len(), 2);
    assert_eq!(executor.value(&String::from("x")), Some(20));
}

fn cycle_order(first_c: bool) -> Vec<Rifl> {
    let c = Rifl::new(3, 1);
    let d = Rifl::new(4, 1);
    let mut executor = GraphExecutor::with_mode(false);
    let info_c = write_x(c, 30, vec![d]);
    let info_d = write_x(d, 40, vec![c]);
    let (first, second) = if first_c { (info_c, info_d) } else { (info_d, info_c) };
    assert!(executor.handle(first).is_empty());
    assert_eq!(executor.blocked_count(), 1);
    executor.handle(second);
    assert_eq!(executor.blocked_count(), 0);
    assert_eq!(executor.value(&String::from("x")), Some(40));
    executor.executed().clone()
}

#[test]
fn two_node_cycle_runs_in_ascending_order() {
    let c = Rifl::new(3, 1);
    let d = Rifl::new(4, 1);
    assert_eq!(cycle_order(true), vec![c, d]);
    assert_eq!(cycle_order(false), vec![c, d]);
}

#[test]
fn three_node_cycle_same_order_for_every_arrival_order() {
    let r = [Rifl::new(7, 2), Rifl::new(5, 9), Rifl::new(7, 1)];
    let arrivals = [[0, 1, 2], [2, 1, 0], [1, 0, 2], [1, 2, 0]];
    for arrival in arrivals.iter() {
        let mut executor = GraphExecutor::with_mode(false);
        for &i in arrival.iter() {
            let info = write_x(r[i], i as u64, vec![r[(i + 1) % 3]]);
            let _ = executor.handle(info);
        }
        assert_eq!(executor.executed().clone(), vec![r[1], r[2], r[0]]);
    }
}

#[test]
fn chain_into_cycle_runs_cycle_first() {
    // x depends on the cycle {y, z}; x has the smallest request.
    let x = Rifl::new(1, 1);
    let y = Rifl::new(2, 1);
    let z = Rifl::new(3, 1);
    let mut executor = GraphExecutor::with_mode(false);
    let _ = executor.handle(write_x(x, 1, vec![y]));
    let _ = executor.handle(write_x(y, 2, vec![z]));
    assert!(executor.executed().is_empty());
    let _ = executor.handle(write_x(z, 3, vec![y]));
    assert_eq!(executor.executed().clone(), vec![y, z, x]);
}

#[test]
fn duplicate_delivery_is_ignored() {
    let a = Rifl::new(1, 1);
    let mut executor = GraphExecutor::with_mode(false);
    let _ = executor.handle(write_x(a, 1, vec![]));
    let _ = executor.handle(write_x(a, 2, vec![]));
    assert_eq!(executor.executed().clone(), vec![a]);
    assert_eq!(executor.value(&String::from("x")), Some(1));
}

#[test]
fn aggregate_executor_hands_out_partials() {
    let a = Rifl::new(1, 1);
    let mut executor = GraphExecutor::with_mode(true);
    let cmd = Command::new(
        a,
        vec![
            (String::from("x"), KVOp::Put(1)),
            (String::from("x"), KVOp::Delete),
        ],
    );
    executor.wait_for(&cmd);
    let results = executor.handle(GraphExecutionInfo::new(cmd, vec![], 0));
    assert_eq!(results.len(), 2);
    let mut it = results.into_iter();
    let (r, key, result) = it.next().unwrap().unwrap_partial();
    assert_eq!((r, key, result), (a, String::from("x"), None));
    let ready = it.next().unwrap().unwrap_ready();
    assert_eq!(ready.results()[1], (String::from("x"), Some(1)));
    assert_eq!(executor.value(&String::from("x")), None);
}

fn permutations(items: Vec<usize>) -> Vec<Vec<usize>> {
    if items.len() <= 1 {
        return vec![items];
    }
    let mut out = Vec::new();
    for i in 0..items.len() {
        let mut rest = items.clone();
        let first = rest.remove(i);
        for mut p in permutations(rest) {
            p.insert(0, first);
            out.push(p);
        }
    }
    out
}

#[test]
fn every_delivery_order_gives_same_execution() {
    let a = Rifl::new(1, 1);
    let b = Rifl::new(2, 1);
    let c = Rifl::new(3, 1);
    let d = Rifl::new(4, 1);
    let infos = |i: usize| match i {
        0 => write_x(a, 1, vec![]),
        1 => write_x(b, 2, vec![a]),
        2 => write_x(c, 3, vec![b, d]),
        _ => write_x(d, 4, vec![c]),
    };
    for order in permutations(vec![0, 1, 2, 3]) {
        let mut executor = GraphExecutor::with_mode(false);
        for &i in order.iter() {
            let _ = executor.handle(infos(i));
        }
        assert_eq!(executor.executed().clone(), vec![a, b, c, d]);
        assert_eq!(executor.value(&String::from("x")), Some(4));
        assert_eq!(executor.blocked_count(), 0);
    }
}

#[test]
fn missing_dependency_keeps_nodes_blocked() {
    let a = Rifl::new(1, 1);
    let b = Rifl::new(2, 1);
    let missing = Rifl::new(9, 9);
    let mut executor = GraphExecutor::with_mode(false);
    let _ = executor.handle(write_x(a, 1, vec![missing]));
    let _ = executor.handle(write_x(b, 2, vec![a]));
    assert!(executor.executed().is_empty());
    assert_eq!(executor.blocked_count(), 2);
    assert_eq!(executor.value(&String::from("x")), None);
}

#[test]
fn batches_runnable_together_run_in_request_order() {
    let x = Rifl::new(1, 1);
    let y = Rifl::new(2, 1);
    let z = Rifl::new(3, 1);
    for first_x in [true, false] {
        let mut executor = GraphExecutor::with_mode(false);
        let info_x = write_x(x, 1, vec![z]);
        let info_y = write_x(y, 2, vec![z]);
        executor.wait_for(&info_x.cmd);
        executor.wait_for(&info_y.cmd);
        let (a, b) = if first_x { (info_x, info_y) } else { (info_y, info_x) };
        assert!(executor.handle(a).is_empty());
        assert!(executor.handle(b).is_empty());
        let results = executor.handle(write_x(z, 3, vec![]));
        assert_eq!(executor.executed().clone(), vec![z, x, y]);
        let rifls: Vec<Rifl> = results.into_iter().map(|r| r.unwrap_ready().rifl()).collect();
        assert_eq!(rifls, vec![x, y]);
        assert_eq!(executor.value(&String::from("x")), Some(2));
    }
}
