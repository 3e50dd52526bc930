//! The actor-runtime core: an isolated unit of mutable state that receives
//! typed messages through a FIFO mailbox, processes them one at a time, and
//! shuts down through a separate stop signal.
//!
//! This module is the deterministic heart of the runtime: the lifecycle state
//! machine (`Phase`, `run_loop_decision`), the one-shot dispatch wrapper
//! (`Envelope`), the handler-side effect buffer (`Context`), and the
//! executive (`ActorCell`) that owns the actor value and drains its mailbox.
//! An asynchronous shell can drive the same decisions from a scheduler task;
//! nothing here blocks or suspends.
//!
//! Policy: once a stop request is observed, envelopes still queued are
//! discarded, not drained, and later sends fail with a delivery error.
//! A handler that panics unwinds out of the step that delivered its
//! message; the executive is then dropped with everything still queued, the
//! same as an unexpected stop — the panic is not isolated.

use vstd::prelude::*;

verus! {

/// Lifecycle of an actor's run loop. `Stopped` is terminal.
#[derive(Clone, Copy, Debug, PartialEq, Eq, Structural)]
pub enum Phase {
    /// The task exists but the `started` hook has not finished.
    Starting,
    /// Messages are being delivered.
    Running,
    /// A stop request has been observed; the `stopped` hook has not run yet.
    Stopping,
    /// The `stopped` hook has run; no further transition leaves this state.
    Stopped,
}

/// Why a send failed: the mailbox no longer accepts messages.
#[derive(Clone, Copy, Debug, PartialEq, Eq, Structural)]
pub enum DeliveryError {
    /// The actor has observed a stop request or has stopped.
    Closed,
}

/// A one-shot wrapper binding one message to its later dispatch: it is
/// created at send time, moved through the mailbox, and consumed exactly
/// once by the run loop.
pub struct Envelope<M> {
    msg: Option<M>,
}

impl<M> Envelope<M> {
    /// The message still carried, if not yet consumed.
    pub closed spec fn contents(&self) -> Option<M> {
        self.msg
    }

    /// Wraps one message.
    pub fn new(m: M) -> (e: Envelope<M>)
        ensures
            e.contents() == Option::Some(m),
    {
        Envelope { msg: Option::Some(m) }
    }

    /// Consumes the envelope, yielding its message; this can happen only
    /// once.
    pub fn take(&mut self) -> (m: M)
        requires
            old(self).contents() is Some,
        ensures
            final(self).contents() is None,
            Option::Some(m) == old(self).contents(),
    {
        let got = self.msg.take();
        got.unwrap()
    }
}

/// The handle available to code running inside the owning task: it buffers
/// the sends a hook or handler issues to its own actor and records a stop
/// request. The run loop applies both once the hook returns.
pub struct Context<M> {
    outbox: Vec<M>,
    stop_flag: bool,
}

impl<M> Context<M> {
    /// The messages sent through this context so far, in order.
    pub closed spec fn sent(&self) -> Seq<M> {
        self.outbox@
    }

    /// Whether a stop has been requested through this context.
    pub closed spec fn stop_requested(&self) -> bool {
        self.stop_flag
    }

    /// A fresh context with nothing buffered.
    fn empty() -> (ctx: Context<M>)
        ensures
            ctx.sent() == Seq::<M>::empty(),
            !ctx.stop_requested(),
    {
        Context { outbox: Vec::new(), stop_flag: false }
    }

    /// Sends a message to the owning actor itself; it is enqueued after the
    /// current delivery completes.
    pub fn send(&mut self, m: M)
        ensures
            final(self).sent() == old(self).sent().push(m),
            final(self).stop_requested() == old(self).stop_requested(),
    {
        self.outbox.push(m);
    }

    /// Requests a shutdown. This is a request, observed by the run loop
    /// between deliveries; it never interrupts the current handler.
    pub fn stop(&mut self)
        ensures
            final(self).sent() == old(self).sent(),
            final(self).stop_requested(),
    {
        self.stop_flag = true;
    }
}

/// The user-supplied lifecycle hooks of an actor that accepts messages of
/// type `M`. Both hooks default to doing nothing.
pub trait Actor<M>: Sized {
    /// Invoked exactly once, before the first message is processed.
    fn started(&mut self, ctx: &mut Context<M>) {
    }

    /// Invoked exactly once, after the run loop decides to terminate and
    /// before the actor value is dropped.
    fn stopped(&mut self, ctx: &mut Context<M>) {
    }
}

/// The message-handling capability of an actor.
pub trait Handler<M>: Actor<M> {
    /// Reacts to one message; deliveries are strictly serialized.
    fn handle(&mut self, msg: M, ctx: &mut Context<M>);
}

/// One observable lifecycle event of an actor.
pub enum Event<M> {
    /// The `started` hook ran.
    Started,
    /// A message was handed to its handler.
    Handled(M),
    /// The `stopped` hook ran.
    Stopped,
}

/// What one iteration of the run loop did.
#[derive(Clone, Copy, Debug, PartialEq, Eq, Structural)]
pub enum StepOutcome {
    /// The `started` hook ran; the actor is now running.
    RanStarted,
    /// One envelope was consumed and its message handled.
    Delivered,
    /// A stop request was observed; queued envelopes were discarded.
    ObservedStop,
    /// The `stopped` hook ran; the actor is now stopped.
    RanStopped,
    /// Nothing to do: no envelope and no stop request, or already stopped.
    Idle,
}

/// What the run loop should do next, as a pure decision.
#[derive(Clone, Copy, Debug, PartialEq, Eq, Structural)]
pub enum RunDirective {
    /// Run the `started` hook.
    RunStartedHook,
    /// Dequeue one envelope and dispatch it.
    DispatchEnvelope,
    /// Leave the wait: discard what is queued and begin shutdown.
    BeginShutdown,
    /// Run the `stopped` hook.
    RunStoppedHook,
    /// Leave the loop; the mailbox and stop channel close.
    ExitLoop,
    /// Wait, suspended, for an envelope or a stop request.
    Wait,
}

/// The run-loop decision table of the lifecycle state machine: from the
/// current phase and what is visible (a stop request, a ready envelope) to
/// the next phase and the action to perform. A scheduler-driven shell can
/// call this at the top of every loop iteration.
pub fn run_loop_decision(phase: Phase, stop_seen: bool, envelope_ready: bool) -> (d: (
    Phase,
    RunDirective,
))
    ensures
        phase is Starting ==> d == (Phase::Running, RunDirective::RunStartedHook),
        phase is Running && stop_seen ==> d == (Phase::Stopping, RunDirective::BeginShutdown),
        phase is Running && !stop_seen && envelope_ready ==> d == (
            Phase::Running,
            RunDirective::DispatchEnvelope,
        ),
        phase is Running && !stop_seen && !envelope_ready ==> d == (
            Phase::Running,
            RunDirective::Wait,
        ),
        phase is Stopping ==> d == (Phase::Stopped, RunDirective::RunStoppedHook),
        phase is Stopped ==> d == (Phase::Stopped, RunDirective::ExitLoop),
{
    match phase {
        Phase::Starting => (Phase::Running, RunDirective::RunStartedHook),
        Phase::Running => {
            if stop_seen {
                (Phase::Stopping, RunDirective::BeginShutdown)
            } else if envelope_ready {
                (Phase::Running, RunDirective::DispatchEnvelope)
            } else {
                (Phase::Running, RunDirective::Wait)
            }
        },
        Phase::Stopping => (Phase::Stopped, RunDirective::RunStoppedHook),
        Phase::Stopped => (Phase::Stopped, RunDirective::ExitLoop),
    }
}

/// The executive of one actor: it owns the actor value, the mailbox of
/// envelopes, and the stop flag, and enacts the lifecycle state machine
/// step by step. At most one caller can touch the actor's state, because
/// the cell owns it exclusively.
pub struct ActorCell<A, M> {
    actor: A,
    phase: Phase,
    queue: Vec<Envelope<M>>,
    stop_requested: bool,
    accepted: Ghost<Seq<M>>,
    delivered: Ghost<Seq<M>>,
    discarded: Ghost<Seq<M>>,
}

impl<A: Handler<M>, M> ActorCell<A, M> {
    /// The current lifecycle phase.
    pub closed spec fn phase(&self) -> Phase {
        self.phase
    }

    /// Whether a stop request is pending observation.
    pub closed spec fn stop_requested(&self) -> bool {
        self.stop_requested
    }

    /// Every message ever accepted into the mailbox, in acceptance order.
    pub closed spec fn accepted(&self) -> Seq<M> {
        self.accepted@
    }

    /// Every message handed to a handler, in delivery order.
    pub closed spec fn delivered(&self) -> Seq<M> {
        self.delivered@
    }

    /// Every accepted message dropped unprocessed by the shutdown policy.
    pub closed spec fn discarded(&self) -> Seq<M> {
        self.discarded@
    }

    /// The messages still queued, front first.
    pub closed spec fn pending(&self) -> Seq<M> {
        Seq::new(self.queue@.len(), |i: int| self.queue@[i].contents().unwrap())
    }

    /// The cell's invariant: every queued envelope still carries its
    /// message; what was accepted is exactly what was delivered, then what
    /// is pending, then what was discarded; nothing is discarded before a
    /// stop is observed; nothing stays pending after one; and nothing is
    /// delivered before `started` has run.
    pub closed spec fn wf(&self) -> bool {
        &&& forall|i: int| 0 <= i < self.queue@.len() ==> self.queue@[i].contents() is Some
        &&& self.accepted@ == self.delivered@ + self.pending() + self.discarded@
        &&& (self.phase is Starting || self.phase is Running) ==> self.discarded@ == Seq::<
            M,
        >::empty()
        &&& (self.phase is Stopping || self.phase is Stopped) ==> self.pending() == Seq::<
            M,
        >::empty()
        &&& self.phase is Starting ==> self.delivered@ == Seq::<M>::empty()
    }

    /// The observable lifecycle trail: `started` first, then one event per
    /// delivered message, closed by `stopped` exactly when the actor has
    /// stopped.
    pub open spec fn events(&self) -> Seq<Event<M>> {
        match self.phase() {
            Phase::Starting => Seq::empty(),
            Phase::Running | Phase::Stopping => seq![Event::<M>::Started] + self.delivered()
                .map_values(|m: M| Event::Handled(m)),
            Phase::Stopped => seq![Event::<M>::Started] + self.delivered().map_values(
                |m: M| Event::Handled(m),
            ) + seq![Event::<M>::Stopped],
        }
    }

    /// The same cell with a stop request recorded.
    pub closed spec fn with_stop_requested(self) -> Self {
        ActorCell { stop_requested: true, ..self }
    }

    /// Takes ownership of an actor value and builds its executive, in the
    /// `Starting` phase with an empty mailbox. The cell accepts sends
    /// immediately; they queue until `started` has run.
    pub fn start(actor: A) -> (cell: ActorCell<A, M>)
        ensures
            cell.wf(),
            cell.phase() is Starting,
            !cell.stop_requested(),
            cell.accepted() == Seq::<M>::empty(),
            cell.delivered() == Seq::<M>::empty(),
            cell.discarded() == Seq::<M>::empty(),
            cell.events() == Seq::<Event<M>>::empty(),
    {
        let cell = ActorCell {
            actor,
            phase: Phase::Starting,
            queue: Vec::new(),
            stop_requested: false,
            accepted: Ghost(Seq::empty()),
            delivered: Ghost(Seq::empty()),
            discarded: Ghost(Seq::empty()),
        };
        proof {
            assert(cell.pending() =~= Seq::<M>::empty());
            assert(cell.accepted@ =~= cell.delivered@ + cell.pending() + cell.discarded@);
        }
        cell
    }

    /// Enqueues a message, as `Addr::send` does once the message reaches
    /// the channel. It never panics: before a stop is observed the message
    /// is accepted at the tail of the mailbox, afterwards the send fails
    /// with `DeliveryError::Closed`.
    pub fn send(&mut self, m: M) -> (r: Result<(), DeliveryError>)
        requires
            old(self).wf(),
        ensures
            final(self).wf(),
            final(self).phase() == old(self).phase(),
            final(self).stop_requested() == old(self).stop_requested(),
            final(self).delivered() == old(self).delivered(),
            final(self).discarded() == old(self).discarded(),
            r == if old(self).phase() is Starting || old(self).phase() is Running {
                Result::<(), DeliveryError>::Ok(())
            } else {
                Result::<(), DeliveryError>::Err(DeliveryError::Closed)
            },
            r is Ok ==> final(self).accepted() == old(self).accepted().push(m) && final(self).pending() == old(self).pending().push(m),
            r is Err ==> final(self).accepted() == old(self).accepted() && final(self).pending()
                == old(self).pending(),
    {
        match self.phase {
            Phase::Starting | Phase::Running => {
                let ghost pend0 = self.pending();
                self.queue.push(Envelope::new(m));
                proof {
                    self.accepted@ = self.accepted@ + seq![m];
                    assert(self.pending() =~= pend0.push(m));
                    assert(self.accepted@ =~= self.delivered@ + self.pending() + self.discarded@);
                }
                Result::Ok(())
            },
            Phase::Stopping | Phase::Stopped => Result::Err(DeliveryError::Closed),
        }
    }

    /// Records a stop request, as `Addr::stop` or `Context::stop` does. It
    /// is a no-op when a stop was already requested, and it never
    /// interrupts anything: the run loop observes it between deliveries.
    pub fn request_stop(&mut self)
        requires
            old(self).wf(),
        ensures
            final(self).wf(),
            *final(self) == old(self).with_stop_requested(),
            final(self).stop_requested(),
            final(self).phase() == old(self).phase(),
            final(self).accepted() == old(self).accepted(),
            final(self).delivered() == old(self).delivered(),
            final(self).discarded() == old(self).discarded(),
            final(self).pending() == old(self).pending(),
    {
        self.stop_requested = true;
        proof {
            assert(self.pending() =~= old(self).pending());
        }
    }

    /// Appends a hook's buffered sends to the mailbox tail, accepting them.
    fn enqueue_outbox(&mut self, msgs: Vec<M>)
        requires
            old(self).wf(),
            old(self).phase() is Starting || old(self).phase() is Running,
        ensures
            final(self).wf(),
            final(self).phase() == old(self).phase(),
            final(self).stop_requested() == old(self).stop_requested(),
            final(self).delivered() == old(self).delivered(),
            final(self).discarded() == old(self).discarded(),
            final(self).accepted() == old(self).accepted() + msgs@,
            final(self).pending() == old(self).pending() + msgs@,
    {
        let ghost all = msgs@;
        let mut rest = msgs;
        proof {
            assert(old(self).accepted() + Seq::<M>::empty() =~= old(self).accepted());
            assert(old(self).pending() + Seq::<M>::empty() =~= old(self).pending());
        }
        while rest.len() > 0
            invariant
                self.wf(),
                self.phase() == old(self).phase(),
                old(self).phase() is Starting || old(self).phase() is Running,
                self.stop_requested() == old(self).stop_requested(),
                self.delivered() == old(self).delivered(),
                self.discarded() == old(self).discarded(),
                rest@.len() <= all.len(),
                self.accepted() == old(self).accepted() + all.take(all.len() - rest@.len()),
                self.pending() == old(self).pending() + all.take(all.len() - rest@.len()),
                rest@ == all.skip(all.len() - rest@.len()),
            decreases rest.len(),
        {
            let ghost k = all.len() - rest@.len();
            let ghost rest0 = rest@;
            let m = rest.remove(0);
            proof {
                assert(rest0 == all.skip(k));
                assert(all.skip(k)[0] == all[k]);
                assert(m == all[k]);
                assert(rest@ =~= rest0.skip(1));
                assert(rest@ =~= all.skip(k + 1));
                assert(all.take(k + 1) =~= all.take(k).push(m));
            }
            let ghost pend0 = self.pending();
            let ghost acc0 = self.accepted();
            self.queue.push(Envelope::new(m));
            proof {
                self.accepted@ = self.accepted@ + seq![m];
                assert(self.pending() =~= pend0.push(m));
                assert(self.accepted@ =~= acc0.push(m));
                assert(self.accepted@ =~= self.delivered@ + self.pending() + self.discarded@);
                assert(old(self).accepted() + all.take(k + 1) =~= (old(self).accepted()
                    + all.take(k)).push(m));
                assert(old(self).pending() + all.take(k + 1) =~= (old(self).pending() + all.take(
                    k,
                )).push(m));
            }
        }
        proof {
            assert(all.take(all.len() as int) =~= all);
        }
    }

    /// One iteration of the run loop, following `run_loop_decision`:
    /// run `started` first; then, between deliveries, observe a stop
    /// request and discard what is queued, or dispatch the front envelope;
    /// once stopping, run `stopped` and be done. Each delivery appends the
    /// message to the delivered trail before anything else can run, and a
    /// hook's own sends are accepted after the current queue.
    pub fn step(&mut self) -> (o: StepOutcome)
        requires
            old(self).wf(),
        ensures
            final(self).wf(),
            old(self).phase() is Starting ==> o == StepOutcome::RanStarted && final(self).phase() is Running && final(self).delivered() == Seq::<M>::empty() && final(self).discarded() == old(self).discarded() && old(self).pending().is_prefix_of(
                final(self).pending(),
            ) && final(self).accepted() == old(self).accepted() + final(self).pending().skip(
                old(self).pending().len() as int,
            ) && (old(self).stop_requested() ==> final(self).stop_requested()),
            old(self).phase() is Running && old(self).stop_requested() ==> o
                == StepOutcome::ObservedStop && final(self).phase() is Stopping && final(self).delivered() == old(self).delivered() && final(self).accepted() == old(self).accepted() && final(self).discarded() == old(self).discarded() + old(self).pending(),
            old(self).phase() is Running && !old(self).stop_requested() && old(self).pending().len() > 0 ==> o == StepOutcome::Delivered && final(self).phase() is Running
                && final(self).delivered() == old(self).delivered().push(old(self).pending()[0])
                && final(self).discarded() == old(self).discarded() && old(self).accepted().is_prefix_of(final(self).accepted()) && final(self).pending() == old(self).pending().skip(1) + final(self).accepted().skip(old(self).accepted().len() as int) && (old(self).stop_requested() ==> final(self).stop_requested()),
            old(self).phase() is Running && !old(self).stop_requested() && old(self).pending().len() == 0 ==> o == StepOutcome::Idle && *final(self) == *old(self),
            old(self).phase() is Stopping ==> o == StepOutcome::RanStopped && final(self).phase() is Stopped && final(self).delivered() == old(self).delivered() && final(self).pending() == Seq::<M>::empty() && final(self).discarded() == old(self).discarded()
                + final(self).accepted().skip(old(self).accepted().len() as int),
            old(self).phase() is Stopped ==> o == StepOutcome::Idle && *final(self) == *old(self),
    {
        match self.phase {
            Phase::Starting => {
                let mut ctx = Context::empty();
                self.actor.started(&mut ctx);
                self.phase = Phase::Running;
                proof {
                    assert(self.pending() =~= old(self).pending());
                }
                let Context { outbox, stop_flag } = ctx;
                self.enqueue_outbox(outbox);
                if stop_flag {
                    self.stop_requested = true;
                    proof {
                        assert(self.pending() =~= old(self).pending() + outbox@);
                    }
                }
                proof {
                    assert(final(self).pending().skip(old(self).pending().len() as int)
                        =~= outbox@);
                }
                StepOutcome::RanStarted
            },
            Phase::Running => {
                if self.stop_requested {
                    let ghost pend0 = self.pending();
                    self.queue.clear();
                    self.phase = Phase::Stopping;
                    proof {
                        self.discarded@ = self.discarded@ + pend0;
                        assert(self.pending() =~= Seq::<M>::empty());
                        assert(self.accepted@ =~= self.delivered@ + self.pending()
                            + self.discarded@);
                    }
                    StepOutcome::ObservedStop
                } else if self.queue.len() > 0 {
                    let ghost pend0 = self.pending();
                    let mut env = self.queue.remove(0);
                    let m = env.take();
                    let ghost mm = m;
                    proof {
                        self.delivered@ = self.delivered@ + seq![mm];
                        assert(self.pending() =~= pend0.skip(1));
                        assert(self.accepted@ =~= self.delivered@ + self.pending()
                            + self.discarded@);
                    }
                    let mut ctx = Context::empty();
                    self.actor.handle(m, &mut ctx);
                    let Context { outbox, stop_flag } = ctx;
                    let ghost pend1 = self.pending();
                    let ghost acc1 = self.accepted();
                    self.enqueue_outbox(outbox);
                    if stop_flag {
                        self.stop_requested = true;
                        proof {
                            assert(self.pending() =~= pend1 + outbox@);
                        }
                    }
                    proof {
                        assert(final(self).accepted().skip(old(self).accepted().len() as int)
                            =~= outbox@);
                    }
                    StepOutcome::Delivered
                } else {
                    proof {
                        assert(self.pending() =~= old(self).pending());
                        assert(old(self).pending().len() == 0);
                    }
                    StepOutcome::Idle
                }
            },
            Phase::Stopping => {
                let mut ctx = Context::empty();
                self.actor.stopped(&mut ctx);
                self.phase = Phase::Stopped;
                let Context { outbox, stop_flag: _ } = ctx;
                proof {
                    assert(self.pending() =~= Seq::<M>::empty());
                    self.accepted@ = self.accepted@ + outbox@;
                    self.discarded@ = self.discarded@ + outbox@;
                    assert(self.accepted@ =~= self.delivered@ + self.pending() + self.discarded@);
                    assert(final(self).accepted().skip(old(self).accepted().len() as int)
                        =~= outbox@);
                }
                StepOutcome::RanStopped
            },
            Phase::Stopped => StepOutcome::Idle,
        }
    }

    /// First-in, first-out: what has been delivered is always an initial
    /// segment of what was accepted, in the same order.
    pub proof fn lemma_delivered_prefix_of_accepted(&self)
        requires
            self.wf(),
        ensures
            self.delivered().is_prefix_of(self.accepted()),
    {
        let d = self.delivered();
        let a = self.accepted();
        assert(a == d + self.pending() + self.discarded());
        assert forall|i: int| 0 <= i < d.len() implies a.subrange(0, d.len() as int)[i]
            == d[i] by {
            assert(a[i] == (d + self.pending())[i]);
        }
        assert(d =~= a.subrange(0, d.len() as int));
    }

    /// First-in, first-out per sender: restricted to the messages of any
    /// one sender (any subset of messages at all), handlers observe them
    /// in exactly the order in which that sender's sends were accepted.
    pub proof fn lemma_fifo_per_sender(&self, from: spec_fn(M) -> bool)
        requires
            self.wf(),
        ensures
            self.delivered().filter(from).is_prefix_of(self.accepted().filter(from)),
    {
        self.lemma_delivered_prefix_of_accepted();
        self.delivered().lemma_filter_monotone(self.accepted(), from);
    }

    /// Lifecycle exactly-once: the observable trail opens with a single
    /// `Started` event that precedes every delivery, and it ends with a
    /// single `Stopped` event exactly when the actor has stopped — no
    /// handler runs after it.
    pub proof fn lemma_lifecycle_exactly_once(&self)
        requires
            self.wf(),
        ensures
            self.phase() is Starting <==> self.events().len() == 0,
            self.events().len() > 0 ==> self.events()[0] is Started,
            forall|i: int| 0 < i < self.events().len() ==> !(self.events()[i] is Started),
            (self.phase() is Stopped) <==> (self.events().len() > 0 && self.events().last()
                is Stopped),
            forall|i: int| 0 <= i < self.events().len() - 1 ==> !(self.events()[i] is Stopped),
            forall|i: int|
                0 <= i < self.events().len() && self.events()[i] is Handled ==> 0 < i && (
                self.phase() is Stopped ==> i < self.events().len() - 1),
    {
        let ev = self.events();
        let handled = self.delivered().map_values(|m: M| Event::<M>::Handled(m));
        match self.phase() {
            Phase::Starting => {},
            Phase::Running | Phase::Stopping => {
                assert(ev == seq![Event::<M>::Started] + handled);
                assert forall|i: int| 0 < i < ev.len() implies !(ev[i] is Started) by {
                    assert(ev[i] == handled[i - 1]);
                }
                assert forall|i: int| 0 <= i < ev.len() - 1 implies !(ev[i] is Stopped) by {
                    if i > 0 {
                        assert(ev[i] == handled[i - 1]);
                    }
                }
                assert(!(ev.last() is Stopped)) by {
                    if ev.len() > 1 {
                        assert(ev.last() == handled[ev.len() - 2]);
                    }
                }
            },
            Phase::Stopped => {
                assert(ev == seq![Event::<M>::Started] + handled + seq![Event::<M>::Stopped]);
                assert forall|i: int| 0 < i < ev.len() implies !(ev[i] is Started) by {
                    if i < ev.len() - 1 {
                        assert(ev[i] == handled[i - 1]);
                    } else {
                        assert(ev[i] == Event::<M>::Stopped);
                    }
                }
                assert forall|i: int| 0 <= i < ev.len() - 1 implies !(ev[i] is Stopped) by {
                    if i > 0 {
                        assert(ev[i] == handled[i - 1]);
                    }
                }
                assert(ev.last() is Stopped);
            },
        }
    }

    /// Requesting a stop twice has the same effect as requesting it once.
    pub proof fn lemma_request_stop_idempotent(self)
        ensures
            self.with_stop_requested().with_stop_requested() == self.with_stop_requested(),
    {
    }
}

} // verus!
