//! The decisions of the asynchronous layer: the failure payload, the
//! cancellation flag, the step protocol and the drive of an asynchronous
//! effect iterator as a state machine (the host awaits each step and hands
//! it in; the machine says whether to go on, and what to undo on failure).

use vstd::prelude::*;

use crate::fiber::FiberId;
use crate::runtime::Runtime;
use crate::fiber::Fiber;
use crate::interp::TargetView;

verus! {

/// A component failure in the asynchronous world (carried as a value).
#[derive(Debug, PartialEq, Eq)]
pub struct AsyncFiberError {
    message: String,
}

impl AsyncFiberError {
    /// A failure with `message`.
    pub fn new(message: String) -> (r: AsyncFiberError)
        ensures
            r.spec_message() == message@,
    {
        AsyncFiberError { message }
    }

    /// The failure's message.
    pub closed spec fn spec_message(&self) -> Seq<char> {
        self.message@
    }

    /// The failure's message.
    pub fn message(&self) -> (r: &str)
        ensures
            r@ == self.spec_message(),
    {
        self.message.as_str()
    }

    /// A copy.
    pub fn duplicate(&self) -> (r: AsyncFiberError)
        ensures
            r.spec_message() == self.spec_message(),
    {
        AsyncFiberError { message: self.message.clone() }
    }
}

/// The cancellation flag of an activation: set (idempotently) by the
/// registration's inverse, checked by the drive at each step boundary.
pub struct CancelFlag {
    cancelled: bool,
}

impl CancelFlag {
    /// A flag that is not set.
    pub fn new() -> (r: CancelFlag)
        ensures
            !r.is_set(),
    {
        CancelFlag { cancelled: false }
    }

    /// Whether the flag is set.
    pub closed spec fn is_set(&self) -> bool {
        self.cancelled
    }

    /// Sets the flag (idempotent).
    pub fn cancel(&mut self)
        ensures
            final(self).is_set(),
    {
        self.cancelled = true;
    }

    /// Whether the flag is set.
    pub fn cancelled(&self) -> (r: bool)
        ensures
            r == self.is_set(),
    {
        self.cancelled
    }

    /// Clears the flag (a new activation).
    pub fn reset(&mut self)
        ensures
            !final(self).is_set(),
    {
        self.cancelled = false;
    }
}

/// One step of an asynchronous effect iterator, over the host's inverse
/// type `D`.
pub enum AsyncStep<D> {
    /// An inverse; the iteration continues.
    Yielded(D),
    /// An inverse; the iteration ends.
    Finished(D),
    /// The component failed (a value, not a panic).
    Failed(AsyncFiberError),
}

/// The state of a fiber as the asynchronous layer sees it.
#[derive(Debug, PartialEq, Eq)]
pub enum AsyncFiberState {
    /// Not activated, or its dependencies are not satisfied.
    Idle,
    /// Activated (its drive completed or still in flight).
    Running {
        /// The activation's generation.
        generation: u64,
    },
    /// The quiet failed end state.
    Failed(AsyncFiberError),
}

/// The drive of an asynchronous effect iterator: the inverses collected so
/// far, in application order, and whether the drive has ended.
pub struct Drive<D> {
    collected: Vec<D>,
    ended: bool,
}

/// What the host does after handing a step in.
pub enum DriveNext<D> {
    /// Await the next step.
    Continue,
    /// The drive succeeded: await these inverses, most recent first, to
    /// undo the activation later.
    Done(Vec<D>),
    /// The drive failed: await these inverses now, most recent first, then
    /// report the failure.
    Failed(Vec<D>, AsyncFiberError),
}

impl<D> Drive<D> {
    /// A drive that has collected nothing.
    pub fn new() -> (r: Drive<D>)
        ensures
            r.collected() == Seq::<D>::empty(),
            !r.has_ended(),
    {
        Drive { collected: Vec::new(), ended: false }
    }

    /// The inverses collected so far, in application order.
    pub closed spec fn collected(&self) -> Seq<D> {
        self.collected@
    }

    /// Whether the drive has ended.
    pub closed spec fn has_ended(&self) -> bool {
        self.ended
    }

    /// Whether the host awaits another step: the drive has not ended and
    /// the guard (checked at each step boundary) still holds.
    pub fn wants_step(&self, guard: bool) -> (r: bool)
        ensures
            r == (!self.has_ended() && guard),
    {
        !self.ended && guard
    }

    /// Hands in the step the host awaited.
    pub fn record(&mut self, step: AsyncStep<D>) -> (r: DriveNext<D>)
        requires
            !old(self).has_ended(),
        ensures
            match step {
                AsyncStep::Yielded(d) => r is Continue && final(self).collected() == old(self).collected().push(d)
                    && !final(self).has_ended(),
                AsyncStep::Finished(d) => final(self).has_ended() && final(self).collected() == Seq::<D>::empty()
                    && (r matches DriveNext::Done(v) && v@ == old(self).collected().push(d).reverse()),
                AsyncStep::Failed(e) => final(self).has_ended() && final(self).collected() == Seq::<D>::empty()
                    && (r matches DriveNext::Failed(v, e2) && v@ == old(self).collected().reverse() && e2 == e),
            },
    {
        match step {
            AsyncStep::Yielded(d) => {
                self.collected.push(d);
                DriveNext::Continue
            },
            AsyncStep::Finished(d) => {
                self.collected.push(d);
                let v = self.take_reversed();
                self.ended = true;
                DriveNext::Done(v)
            },
            AsyncStep::Failed(e) => {
                let v = self.take_reversed();
                self.ended = true;
                DriveNext::Failed(v, e)
            },
        }
    }

    /// Ends the drive at a step boundary where the guard no longer holds:
    /// the steps completed so far stay, and are undone later, most recent
    /// first.
    pub fn stop(&mut self) -> (r: Vec<D>)
        ensures
            r@ == old(self).collected().reverse(),
            final(self).has_ended(),
            final(self).collected() == Seq::<D>::empty(),
    {
        let v = self.take_reversed();
        self.ended = true;
        v
    }

    fn take_reversed(&mut self) -> (r: Vec<D>)
        ensures
            r@ == old(self).collected().reverse(),
            final(self).collected() == Seq::<D>::empty(),
            final(self).has_ended() == old(self).has_ended(),
    {
        let mut out: Vec<D> = Vec::new();
        let ghost all = self.collected@;
        while self.collected.len() > 0
            invariant
                all == self.collected@ + out@.reverse(),
                self.ended == old(self).ended,
            decreases self.collected.len(),
        {
            let ghost before = self.collected@;
            let d = self.collected.pop().unwrap();
            proof {
                assert(before == self.collected@.push(d));
            }
            out.push(d);
            proof {
                assert(out@.reverse() =~= seq![d] + out@.drop_last().reverse());
                assert(all =~= self.collected@ + out@.reverse());
            }
        }
        proof {
            assert(all =~= out@.reverse());
            assert(out@ =~= out@.reverse().reverse());
        }
        out
    }
}

/// A handle on an asynchronously mounted fiber: its name and the generation
/// it was created in (audit metadata: a new generation does not invalidate
/// it). The fiber may have left the registry since.
pub struct AsyncFiberHandle {
    id: FiberId,
    generation: u64,
}

impl AsyncFiberHandle {
    /// A handle on fiber `id` created in `generation`.
    pub fn new(id: FiberId, generation: u64) -> (r: AsyncFiberHandle)
        ensures
            r.spec_id() == id,
            r.spec_generation() == generation,
    {
        AsyncFiberHandle { id, generation }
    }

    pub closed spec fn spec_id(&self) -> FiberId {
        self.id
    }

    pub closed spec fn spec_generation(&self) -> u64 {
        self.generation
    }

    /// The fiber, while it is registered in `rt`.
    pub fn fiber(&self, rt: &Runtime) -> (r: Option<Fiber>)
        ensures
            r is None <==> !(exists|i: int| 0 <= i < rt.spec_env().spec_fibers().len()
                && rt.spec_env().spec_fibers()[i].id == self.spec_id()),
    {
        rt.fiber(self.id)
    }

    /// The generation the handle was created in.
    pub fn generation(&self) -> (r: u64)
        ensures
            r == self.spec_generation(),
    {
        self.generation
    }

    /// The fiber's name, while it is registered in `rt`.
    pub fn id(&self, rt: &Runtime) -> (r: Option<FiberId>)
        ensures
            r is Some <==> (exists|i: int| 0 <= i < rt.spec_env().spec_fibers().len()
                && rt.spec_env().spec_fibers()[i].id == self.spec_id()),
            r matches Some(n) ==> n == self.spec_id(),
    {
        match rt.fiber(self.id) {
            Some(_) => Some(self.id),
            None => None,
        }
    }
}

/// The access point of the host-driven remote protocol of wasm guests (a
/// guest has no threads of its own: a request is queued and the host
/// drives it at step boundaries).
pub struct WasmRemote {}

} // verus!

verus! {

/// The guard of an activation's drive, checked at each step boundary: the
/// activation is not cancelled and the fiber's target is still the view it
/// was activated for (`committed`; none means no target).
pub fn guard(cancel: &CancelFlag, committed: &Option<TargetView>, current: &Option<TargetView>) -> (r: bool)
    ensures
        r == (!cancel.is_set() && committed is Some && current is Some && current->0@ == committed->0@),
{
    if cancel.cancelled() {
        return false;
    }
    match (committed, current) {
        (Some(v), Some(c)) => c.same(v),
        _ => false,
    }
}

/// The bookkeeping of one activation, shared by its drive and its
/// registration's inverse: the generation and the cancellation flag. The
/// host keeps the drive task and the inverse slot beside it.
pub struct Session {
    /// The activation's generation.
    pub generation: u64,
    /// The activation's cancellation flag.
    pub cancel: CancelFlag,
}

/// The asynchronous record of one component: its current generation, its
/// state and the session of the current activation.
pub struct AsyncFiberEntry {
    /// The generation of the latest activation (0 before any).
    pub generation: u64,
    /// The state as the asynchronous layer sees it.
    pub state: AsyncFiberState,
    /// The session of the current activation, until its inverse takes it.
    pub session: Option<Session>,
}

impl AsyncFiberEntry {
    /// A record with no activation yet.
    pub fn new() -> (r: AsyncFiberEntry)
        ensures
            r.generation == 0,
            r.state == AsyncFiberState::Idle,
            r.session is None,
    {
        AsyncFiberEntry { generation: 0, state: AsyncFiberState::Idle, session: None }
    }

    /// An activation begins: a new generation, and the state is reset.
    pub fn begin_activation(&mut self) -> (g: u64)
        requires
            old(self).generation < u64::MAX,
        ensures
            g == old(self).generation + 1,
            final(self).generation == g,
            final(self).state == AsyncFiberState::Idle,
            final(self).session == old(self).session,
    {
        self.generation = self.generation + 1;
        self.state = AsyncFiberState::Idle;
        self.generation
    }

    /// Records the session of the activation whose step has run (replacing
    /// an older one, which its inverse has taken already).
    pub fn install_session(&mut self, session: Session)
        ensures
            final(self).session == Some(session),
            final(self).generation == old(self).generation,
            final(self).state == old(self).state,
    {
        self.session = Some(session);
    }

    /// Takes the session of `generation` (the inverse, or the shutdown):
    /// only the first taker of the current session gets it.
    pub fn take_session(&mut self, generation: u64) -> (r: Option<Session>)
        ensures
            r is Some <==> (old(self).session is Some && old(self).session->0.generation == generation),
            r is Some ==> r == old(self).session && final(self).session is None
                && final(self).generation == old(self).generation && final(self).state == old(self).state,
            r is None ==> *final(self) == *old(self),
    {
        let matches = match &self.session {
            Some(s) => s.generation == generation,
            None => false,
        };
        if matches {
            let mut taken: Option<Session> = None;
            std::mem::swap(&mut taken, &mut self.session);
            taken
        } else {
            None
        }
    }

    /// The drive of `generation` completed: the fiber is running, unless a
    /// later activation began meanwhile (a late completion is ignored).
    pub fn mark_running(&mut self, generation: u64)
        ensures
            generation != old(self).generation ==> *final(self) == *old(self),
            generation == old(self).generation ==> final(self).state == (AsyncFiberState::Running { generation })
                && final(self).generation == old(self).generation && final(self).session == old(self).session,
    {
        if self.generation == generation {
            self.state = AsyncFiberState::Running { generation };
        }
    }

    /// The drive of `generation` failed with `e`: the quiet failed state,
    /// unless a later activation began meanwhile (a late failure is
    /// ignored). Returns whether the host retires the fiber.
    pub fn on_failed(&mut self, generation: u64, e: AsyncFiberError) -> (retire: bool)
        ensures
            retire == (generation == old(self).generation),
            !retire ==> *final(self) == *old(self),
            retire ==> final(self).state == AsyncFiberState::Failed(e) && final(self).generation == old(self).generation
                && final(self).session == old(self).session,
    {
        if self.generation != generation {
            return false;
        }
        self.state = AsyncFiberState::Failed(e);
        true
    }

    /// The inverse of the registration of `generation`: it takes the
    /// session (when it is still there), cancels the drive and queues its
    /// tail. Returns whether it did.
    pub fn undo_registration(&mut self, queue: &mut TailQueue, generation: u64) -> (r: bool)
        ensures
            r == (old(self).session is Some && old(self).session->0.generation == generation),
            r ==> final(queue)@ == old(queue)@.push(generation) && final(self).session is None
                && final(self).generation == old(self).generation && final(self).state == old(self).state,
            !r ==> *final(self) == *old(self) && final(queue)@ == old(queue)@,
    {
        match self.take_session(generation) {
            Some(s) => {
                let mut s = s;
                s.cancel.cancel();
                queue.enqueue_tail(generation);
                true
            },
            None => false,
        }
    }
}

/// The most rounds a settlement drains before it reports a tail that keeps
/// registering new ones.
pub const MAX_DRAIN_ROUNDS: u32 = 64;

/// The tails of the two-phase unload, in the order the synchronous cascade
/// unloaded them (dependents first); the host keeps each tail's task and
/// inverse slot in the same order.
pub struct TailQueue {
    tails: Vec<u64>,
}

impl View for TailQueue {
    type V = Seq<u64>;

    closed spec fn view(&self) -> Seq<u64> {
        self.tails@
    }
}

/// What a settlement round hands the host.
pub enum SettleStep {
    /// Nothing is queued: the settlement is done.
    Done,
    /// Await these tails, in this order (their generations), then ask again.
    Batch(Vec<u64>),
    /// The tails keep registering new ones beyond the round limit.
    Runaway,
}

impl TailQueue {
    /// An empty queue.
    pub fn new() -> (r: TailQueue)
        ensures
            r@ == Seq::<u64>::empty(),
    {
        TailQueue { tails: Vec::new() }
    }

    /// Queues the tail of `generation` (constant time).
    pub fn enqueue_tail(&mut self, generation: u64)
        ensures
            final(self)@ == old(self)@.push(generation),
    {
        self.tails.push(generation);
    }

    /// Whether no tail is waiting.
    pub fn is_empty(&self) -> (r: bool)
        ensures
            r == (self@.len() == 0),
    {
        self.tails.len() == 0
    }

    /// One round of the settlement, after `rounds` rounds: the whole queue
    /// in FIFO order (emptied), `Done` when nothing is queued, `Runaway`
    /// past the round limit (the queue is left as it is).
    pub fn settle_round(&mut self, rounds: u32) -> (r: SettleStep)
        ensures
            old(self)@.len() == 0 ==> r is Done && final(self)@ == old(self)@,
            old(self)@.len() > 0 && rounds >= MAX_DRAIN_ROUNDS ==> r is Runaway && final(self)@ == old(self)@,
            old(self)@.len() > 0 && rounds < MAX_DRAIN_ROUNDS ==> (r matches SettleStep::Batch(b) && b@ == old(self)@
                && final(self)@.len() == 0),
    {
        if self.tails.len() == 0 {
            return SettleStep::Done;
        }
        if rounds >= MAX_DRAIN_ROUNDS {
            return SettleStep::Runaway;
        }
        let mut batch: Vec<u64> = Vec::new();
        std::mem::swap(&mut batch, &mut self.tails);
        SettleStep::Batch(batch)
    }
}

} // verus!
