use fantoch::{
    BasicExecutionInfo, BasicExecutor, Command, Config, Executor, ExecutorResult,
    GraphExecutionInfo, GraphExecutor, KVOp, MessageKey, Rifl,
};

#[test]
fn basic_executor_applies_on_arrival() {
    let rifl = Rifl::new(1, 1);
    let mut executor = BasicExecutor::with_mode(false);
    let cmd = Command::new(
        rifl,
        vec![(String::from("x"), KVOp::Put(3)), (String::from("y"), KVOp::Get)],
    );
    Executor::wait_for(&mut executor, &cmd);
    let first = executor.handle(BasicExecutionInfo::new(rifl, String::from("x"), KVOp::Put(3)));
    assert!(first.is_empty());
    assert_eq!(executor.value(&String::from("x")), Some(3));
    let second = executor.handle(BasicExecutionInfo::new(rifl, String::from("y"), KVOp::Get));
    assert_eq!(second.len(), 1);
    let ready = second.into_iter().next().unwrap().unwrap_ready();
    assert_eq!(
        ready.results().clone(),
        vec![(String::from("x"), None), (String::from("y"), None)]
    );
}

#[test]
fn basic_payload_exposes_key() {
    let info = BasicExecutionInfo::new(Rifl::new(1, 1), String::from("k"), KVOp::Get);
    assert_eq!(info.key(), Some(&String::from("k")));
    assert!(BasicExecutor::parallel());
    let graph_info = GraphExecutionInfo::new(Command::new(Rifl::new(1, 1), vec![]), vec![], 0);
    assert_eq!(graph_info.key(), None);
    assert!(!GraphExecutor::parallel());
}

fn run<E: Executor>(config: Config, cmd: &Command, infos: Vec<E::ExecutionInfo>) -> Vec<ExecutorResult> {
    let mut executor = E::new(config);
    executor.wait_for(cmd);
    let mut out = Vec::new();
    for info in infos {
        out.extend(executor.handle(info));
    }
    executor.show_metrics();
    out
}

#[test]
fn executors_through_the_common_interface() {
    let rifl = Rifl::new(8, 1);
    let ops = vec![(String::from("x"), KVOp::Put(1)), (String::from("x"), KVOp::Get)];
    let cmd = Command::new(rifl, ops.clone());
    let config = Config::new(3, 1, true);
    let basic = run::<BasicExecutor>(
        config,
        &cmd,
        ops.iter()
            .map(|(k, op)| BasicExecutionInfo::new(rifl, k.clone(), *op))
            .collect(),
    );
    let graph = run::<GraphExecutor>(
        config,
        &cmd,
        vec![GraphExecutionInfo::new(Command::new(rifl, ops.clone()), vec![], 0)],
    );
    for results in [basic, graph] {
        assert_eq!(results.len(), 2);
        assert!(matches!(results[0], ExecutorResult::Partial(_, _, None)));
        match &results[1] {
            ExecutorResult::Ready(r) => {
                assert_eq!(r.results().clone(), vec![(String::from("x"), None), (String::from("x"), Some(1))]);
            }
            ExecutorResult::Partial(_, _, _) => panic!("expected a complete result"),
        }
        assert_eq!(results[1].client(), 8);
    }
}
