use miniactor::actor::{
    Actor, ActorCell, Context, DeliveryError, Envelope, Handler, Phase, RunDirective, StepOutcome,
    run_loop_decision,
};

/// An actor holding one integer; checks inside handlers stand in for
/// observing its private state from outside.
struct Counter {
    value: u64,
    started_runs: u64,
    stopped_runs: u64,
}

impl Counter {
    fn new(value: u64) -> Counter {
        Counter { value, started_runs: 0, stopped_runs: 0 }
    }
}

enum Msg {
    Add(u64),
    Increment,
    AssertEquals(u64),
    /// Must never reach a handler; used to check the discard policy.
    Poison,
}

impl Actor<Msg> for Counter {
    fn started(&mut self, _ctx: &mut Context<Msg>) {
        self.started_runs += 1;
        assert_eq!(self.started_runs, 1, "started must run exactly once");
    }

    fn stopped(&mut self, _ctx: &mut Context<Msg>) {
        self.stopped_runs += 1;
        assert_eq!(self.stopped_runs, 1, "stopped must run exactly once");
    }
}

impl Handler<Msg> for Counter {
    fn handle(&mut self, msg: Msg, _ctx: &mut Context<Msg>) {
        assert_eq!(self.started_runs, 1, "no handler before started");
        assert_eq!(self.stopped_runs, 0, "no handler after stopped");
        match msg {
            Msg::Add(n) => self.value += n,
            Msg::Increment => self.value += 1,
            Msg::AssertEquals(n) => assert_eq!(self.value, n),
            Msg::Poison => panic!("a discarded message reached its handler"),
        }
    }
}

/// Steps the cell until it reports it has nothing to do, collecting the
/// outcome of each step.
fn drain(cell: &mut ActorCell<Counter, Msg>) -> Vec<StepOutcome> {
    let mut outcomes = Vec::new();
    loop {
        let o = cell.step();
        if o == StepOutcome::Idle {
            break;
        }
        outcomes.push(o);
    }
    outcomes
}

#[test]
fn lib_simple_test() {
    let mut foo = ActorCell::start(Counter::new(0));
    foo.send(Msg::Add(10)).unwrap();
    foo.send(Msg::AssertEquals(10)).unwrap();
    drain(&mut foo);
}

#[test]
fn scenario_sequential_counter() {
    // state 0; Add(10) then AssertEquals(10): the handler must observe 10
    let mut cell = ActorCell::start(Counter::new(0));
    cell.send(Msg::Add(10)).unwrap();
    cell.send(Msg::AssertEquals(10)).unwrap();
    let outcomes = drain(&mut cell);
    assert_eq!(
        outcomes,
        vec![
            StepOutcome::RanStarted,
            StepOutcome::Delivered,
            StepOutcome::Delivered,
        ]
    );
}

#[test]
fn scenario_concurrent_senders() {
    // 100 concurrently spawned senders each send one increment; after the
    // mailbox drains the state is exactly 100
    let rt = tokio::runtime::Builder::new_multi_thread()
        .worker_threads(4)
        .build()
        .unwrap();
    let cell = std::sync::Arc::new(tokio::sync::Mutex::new(ActorCell::start(Counter::new(0))));
    rt.block_on(async {
        let mut joins = Vec::new();
        for _ in 0..100 {
            let cell = cell.clone();
            joins.push(tokio::spawn(async move {
                cell.lock().await.send(Msg::Increment).unwrap();
            }));
        }
        for j in joins {
            j.await.unwrap();
        }
    });
    let mut cell = std::sync::Arc::try_unwrap(cell)
        .unwrap_or_else(|_| panic!("all senders are done"))
        .into_inner();
    cell.send(Msg::AssertEquals(100)).unwrap();
    drain(&mut cell);
}

#[test]
fn scenario_stop_discards_queue() {
    // stop requested while messages are still queued: none of them is
    // processed before `stopped`, deterministically
    let mut cell = ActorCell::start(Counter::new(0));
    let outcomes = drain(&mut cell);
    assert_eq!(outcomes, vec![StepOutcome::RanStarted]);
    for _ in 0..5 {
        cell.send(Msg::Poison).unwrap();
    }
    cell.request_stop();
    let outcomes = drain(&mut cell);
    assert_eq!(
        outcomes,
        vec![StepOutcome::ObservedStop, StepOutcome::RanStopped]
    );
    // a later drain finds a stopped actor and does nothing more
    assert_eq!(drain(&mut cell), vec![]);
}

#[test]
fn fifo_order_test() {
    // value * 10 + digit makes the final state order-sensitive:
    // 1, 2, 3 in order gives 123
    struct Digits {
        value: u64,
    }
    impl Actor<u64> for Digits {}
    impl Handler<u64> for Digits {
        fn handle(&mut self, msg: u64, _ctx: &mut Context<u64>) {
            if msg == 0 {
                assert_eq!(self.value, 123);
            } else {
                self.value = self.value * 10 + msg;
            }
        }
    }
    let mut cell = ActorCell::start(Digits { value: 0 });
    cell.send(1u64).unwrap();
    cell.send(2u64).unwrap();
    cell.send(3u64).unwrap();
    cell.send(0u64).unwrap();
    loop {
        if cell.step() == StepOutcome::Idle {
            break;
        }
    }
}

#[test]
fn post_stop_send_test() {
    // sends after the stop was observed fail explicitly and never panic
    let mut cell = ActorCell::start(Counter::new(0));
    assert_eq!(cell.send(Msg::Add(1)), Ok(()));
    cell.request_stop();
    // the stop is only a request: until it is observed, sends still queue
    assert_eq!(cell.send(Msg::Poison), Ok(()));
    drain(&mut cell);
    assert_eq!(cell.send(Msg::Add(2)), Err(DeliveryError::Closed));
    assert_eq!(cell.send(Msg::Increment), Err(DeliveryError::Closed));
}

#[test]
fn stop_idempotent_test() {
    // stopping twice has the same observable effect as stopping once
    let run = |stops: usize| -> Vec<StepOutcome> {
        let mut cell = ActorCell::start(Counter::new(0));
        cell.send(Msg::Add(4)).unwrap();
        let mut outcomes = drain(&mut cell);
        for _ in 0..stops {
            cell.request_stop();
        }
        outcomes.extend(drain(&mut cell));
        outcomes
    };
    assert_eq!(run(1), run(2));
}

#[test]
fn context_send_test() {
    // a handler's own sends queue after what is already in the mailbox
    struct Echo {
        log: Vec<u64>,
    }
    impl Actor<u64> for Echo {}
    impl Handler<u64> for Echo {
        fn handle(&mut self, msg: u64, ctx: &mut Context<u64>) {
            self.log.push(msg);
            if msg == 1 {
                ctx.send(3);
            }
            if msg == 4 {
                assert_eq!(self.log, vec![1, 2, 3, 4]);
            }
        }
    }
    let mut cell = ActorCell::start(Echo { log: Vec::new() });
    cell.send(1u64).unwrap();
    cell.send(2u64).unwrap();
    loop {
        if cell.step() == StepOutcome::Idle {
            break;
        }
    }
    cell.send(4u64).unwrap();
    loop {
        if cell.step() == StepOutcome::Idle {
            break;
        }
    }
}

#[test]
fn envelope_one_shot_test() {
    let mut env = Envelope::new(41u64);
    assert_eq!(env.take(), 41);
}

#[test]
fn run_loop_decision_test() {
    assert_eq!(
        run_loop_decision(Phase::Starting, false, false),
        (Phase::Running, RunDirective::RunStartedHook)
    );
    assert_eq!(
        run_loop_decision(Phase::Running, true, true),
        (Phase::Stopping, RunDirective::BeginShutdown)
    );
    assert_eq!(
        run_loop_decision(Phase::Running, false, true),
        (Phase::Running, RunDirective::DispatchEnvelope)
    );
    assert_eq!(
        run_loop_decision(Phase::Running, false, false),
        (Phase::Running, RunDirective::Wait)
    );
    assert_eq!(
        run_loop_decision(Phase::Stopping, false, false),
        (Phase::Stopped, RunDirective::RunStoppedHook)
    );
    assert_eq!(
        run_loop_decision(Phase::Stopped, false, false),
        (Phase::Stopped, RunDirective::ExitLoop)
    );
}
