//! Instrumentation of tasks: which tracer is used, and that a task is spawned once.
use vstd::prelude::*;

verus! {

/// Why a tracer was not registered.
#[derive(Clone, Copy, Debug, PartialEq, Eq, Structural)]
pub enum JoinSetTracerError {
    /// The global tracer has already been set.
    AlreadySet,
}

impl JoinSetTracerError {
    /// The error in words.
    pub fn message(&self) -> (result: &'static str)
        ensures
            result@ == "The global JoinSetTracer is already set"@,
    {
        match self {
            JoinSetTracerError::AlreadySet => "The global JoinSetTracer is already set",
        }
    }
}

/// Instruments blocking closures.
pub trait JoinSetTracer<T, F: FnOnce() -> T> {
    /// The instrumented closure.
    type Traced: FnOnce() -> T;

    /// Instruments a closure. The tracer must not change the value that it returns.
    fn trace_block(&self, f: F) -> (result: Self::Traced)
        requires
            call_requires(f, ()),
        ensures
            call_requires(result, ()),
            forall|value: T| #[trigger] call_ensures(result, (), value) ==> call_ensures(f, (), value),
    ;
}

/// A tracer that does not instrument closures.
#[derive(Clone, Copy, Debug, PartialEq, Eq, Structural)]
pub struct NoopTracer;

impl<T, F: FnOnce() -> T> JoinSetTracer<T, F> for NoopTracer {
    type Traced = F;

    fn trace_block(&self, f: F) -> F {
        f
    }
}

/// The place of the tracer that is used for all tasks. Where none is registered,
/// tasks are not instrumented.
#[derive(Debug)]
pub struct TracerSlot<W> {
    tracer: Option<W>,
}

impl<W> TracerSlot<W> {
    /// The registered tracer.
    pub closed spec fn registered(self) -> Option<W> {
        self.tracer
    }

    /// No tracer.
    pub fn new() -> (result: TracerSlot<W>)
        ensures
            result.registered() is None,
    {
        TracerSlot { tracer: None }
    }

    /// The registered tracer, or none.
    pub fn get_tracer(&self) -> (result: Option<&W>)
        ensures
            match self.registered() {
                Some(tracer) => result == Some(&tracer),
                None => result is None,
            },
    {
        self.tracer.as_ref()
    }
}

/// What a registration does to the registered tracer, and what it returns.
pub open spec fn registration<W>(
    before: Option<W>,
    tracer: W,
    after: Option<W>,
    result: Result<(), JoinSetTracerError>,
) -> bool {
    match before {
        None => result is Ok && after == Some(tracer),
        Some(first) => result == Err::<(), JoinSetTracerError>(JoinSetTracerError::AlreadySet)
            && after == Some(first),
    }
}

/// Registers a tracer. Only the first is; a later one is refused and changes nothing.
pub fn set_join_set_tracer<W>(slot: &mut TracerSlot<W>, tracer: W) -> (result: Result<
    (),
    JoinSetTracerError,
>)
    ensures
        registration(old(slot).registered(), tracer, final(slot).registered(), result),
{
    if slot.tracer.is_some() {
        return Err(JoinSetTracerError::AlreadySet);
    }
    slot.tracer = Some(tracer);
    Ok(())
}

/// A closure that was instrumented, or that was not.
pub enum Block<G, F> {
    Traced(G),
    Plain(F),
}

impl<G, F> Block<G, F> {
    /// The closure can be called.
    pub open spec fn is_ready<T>(self) -> bool where G: FnOnce() -> T, F: FnOnce() -> T {
        match self {
            Block::Traced(traced) => call_requires(traced, ()),
            Block::Plain(plain) => call_requires(plain, ()),
        }
    }

    /// The closure returns the value.
    pub open spec fn gives<T>(self, value: T) -> bool where G: FnOnce() -> T, F: FnOnce() -> T {
        match self {
            Block::Traced(traced) => call_ensures(traced, (), value),
            Block::Plain(plain) => call_ensures(plain, (), value),
        }
    }

    /// Calls the closure.
    pub fn run<T>(self) -> (value: T) where G: FnOnce() -> T, F: FnOnce() -> T
        requires
            self.is_ready::<T>(),
        ensures
            self.gives(value),
    {
        match self {
            Block::Traced(traced) => traced(),
            Block::Plain(plain) => plain(),
        }
    }
}

/// The block is what the registered tracer gave for the closure, or the closure
/// itself where no tracer is registered.
pub open spec fn is_traced<W, T, F>(
    registered: Option<W>,
    f: F,
    block: Block<W::Traced, F>,
) -> bool where W: JoinSetTracer<T, F>, F: FnOnce() -> T {
    match registered {
        Some(tracer) => block is Traced && call_ensures(
            <W as JoinSetTracer<T, F>>::trace_block,
            (&tracer, f),
            block->Traced_0,
        ),
        None => block == Block::<W::Traced, F>::Plain(f),
    }
}

/// The closure `f`, instrumented by the registered tracer where there is one. It
/// returns what `f` returns.
pub fn trace_block<W, T, F>(slot: &TracerSlot<W>, f: F) -> (result: Block<W::Traced, F>) where
    W: JoinSetTracer<T, F>,
    F: FnOnce() -> T,

    requires
        call_requires(f, ()),
    ensures
        is_traced::<W, T, F>(slot.registered(), f, result),
        result.is_ready::<T>(),
        forall|value: T| #[trigger] result.gives(value) ==> call_ensures(f, (), value),
{
    match slot.get_tracer() {
        Some(tracer) => Block::Traced(tracer.trace_block(f)),
        None => Block::Plain(f),
    }
}

/// Of two tracers that are registered one after the other the first stays, and every
/// later block is one that the first tracer gave for its closure.
pub proof fn law_blocks_use_the_first_tracer<W, T, F>(
    first: W,
    second: W,
    once: Option<W>,
    twice: Option<W>,
    result_once: Result<(), JoinSetTracerError>,
    result_twice: Result<(), JoinSetTracerError>,
    f: F,
    block: Block<W::Traced, F>,
) where W: JoinSetTracer<T, F>, F: FnOnce() -> T
    requires
        registration(None, first, once, result_once),
        registration(once, second, twice, result_twice),
        is_traced::<W, T, F>(twice, f, block),
    ensures
        result_once is Ok,
        result_twice == Err::<(), JoinSetTracerError>(JoinSetTracerError::AlreadySet),
        block is Traced,
        call_ensures(<W as JoinSetTracer<T, F>>::trace_block, (&first, f), block->Traced_0),
{
}

/// How a tracer broke the rule to spawn a task exactly once.
#[derive(Clone, Copy, Debug, PartialEq, Eq, Structural)]
pub enum SpawnError {
    /// The task was spawned a second time.
    MoreThanOnce,
    /// The task was not spawned.
    NotInvoked,
}

impl SpawnError {
    /// The error in words.
    pub fn message(&self) -> (result: &'static str)
        ensures
            result@ == (match *self {
                SpawnError::MoreThanOnce => "Task instrumentor invoked the spawn callback more than once"@,
                SpawnError::NotInvoked => "Task instrumentor did not invoke the spawn callback"@,
            }),
    {
        match self {
            SpawnError::MoreThanOnce => "Task instrumentor invoked the spawn callback more than once",
            SpawnError::NotInvoked => "Task instrumentor did not invoke the spawn callback",
        }
    }
}

/// A spawn function that is used at most once, and what it returned.
#[derive(Debug)]
pub struct SpawnOnce<S, R> {
    spawn: Option<S>,
    result: Option<R>,
}

impl<S, R> SpawnOnce<S, R> {
    /// The spawn function, until it is used.
    pub closed spec fn pending(self) -> Option<S> {
        self.spawn
    }

    /// What the spawn function returned.
    pub closed spec fn returned(self) -> Option<R> {
        self.result
    }

    /// Either the spawn function is there or what it returned.
    pub open spec fn wf(self) -> bool {
        self.pending() is Some <==> self.returned() is None
    }

    /// A spawn function to be used once.
    pub fn new(spawn: S) -> (result: SpawnOnce<S, R>)
        ensures
            result.wf(),
            result.pending() == Some(spawn),
    {
        SpawnOnce { spawn: Some(spawn), result: None }
    }

    /// Spawns a task; an error where one was spawned before.
    pub fn invoke<A>(&mut self, task: A) -> (result: Result<(), SpawnError>) where
        S: FnOnce(A) -> R,

        requires
            old(self).wf(),
            old(self).pending() is Some ==> call_requires(old(self).pending()->0, (task,)),
        ensures
            final(self).wf(),
            match old(self).pending() {
                Some(spawn) => result is Ok && final(self).pending() is None && call_ensures(
                    spawn,
                    (task,),
                    final(self).returned()->0,
                ),
                None => result == Err::<(), SpawnError>(SpawnError::MoreThanOnce) && *final(self)
                    == *old(self),
            },
    {
        match self.spawn.take() {
            Some(spawn) => {
                self.result = Some(spawn(task));
                Ok(())
            },
            None => Err(SpawnError::MoreThanOnce),
        }
    }

    /// What the spawn function returned; an error where it was not used.
    pub fn finish(self) -> (result: Result<R, SpawnError>)
        ensures
            result == (match self.returned() {
                Some(value) => Ok(value),
                None => Err(SpawnError::NotInvoked),
            }),
    {
        match self.result {
            Some(value) => Ok(value),
            None => Err(SpawnError::NotInvoked),
        }
    }
}

/// A registration succeeds once. After it the slot gives the tracer that was
/// registered first, whatever is registered later.
pub proof fn law_first_tracer_is_kept<W>(
    empty: TracerSlot<W>,
    once: &mut TracerSlot<W>,
    first: W,
    accepted: Result<(), JoinSetTracerError>,
    twice: &mut TracerSlot<W>,
    second: W,
    refused: Result<(), JoinSetTracerError>,
    before: Option<&W>,
    after: Option<&W>,
)
    requires
        call_ensures(TracerSlot::<W>::new, (), empty),
        call_ensures(TracerSlot::<W>::get_tracer, (&empty,), before),
        *old(once) == empty,
        call_ensures(set_join_set_tracer::<W>, (once, first), accepted),
        *old(twice) == *final(once),
        call_ensures(set_join_set_tracer::<W>, (twice, second), refused),
        call_ensures(TracerSlot::<W>::get_tracer, (&*final(twice),), after),
    ensures
        before is None,
        accepted is Ok,
        refused == Err::<(), JoinSetTracerError>(JoinSetTracerError::AlreadySet),
        after == Some(&first),
{
}

/// A block returns only what its closure returns, whether a tracer is registered or
/// not. Without a tracer the block is the closure.
pub proof fn law_blocks_return_what_closures_return<W, T, F>(
    slot: TracerSlot<W>,
    found: Option<&W>,
    f: F,
    block: Block<W::Traced, F>,
    value: T,
) where W: JoinSetTracer<T, F>, F: FnOnce() -> T
    requires
        call_requires(f, ()),
        call_ensures(TracerSlot::<W>::get_tracer, (&slot,), found),
        call_ensures(trace_block::<W, T, F>, (&slot, f), block),
        call_ensures(Block::<W::Traced, F>::run::<T>, (block,), value),
    ensures
        call_ensures(f, (), value),
        found is None ==> block == Block::<W::Traced, F>::Plain(f),
{
}

/// A task is spawned by the first call alone, with the task of that call. A second
/// call is refused, and what is handed back at the end is what the one spawn
/// returned. Without a call nothing is handed back.
pub proof fn law_tasks_are_spawned_once<S, R, A>(
    spawn: S,
    start: SpawnOnce<S, R>,
    unused: Result<R, SpawnError>,
    once: &mut SpawnOnce<S, R>,
    task: A,
    accepted: Result<(), SpawnError>,
    twice: &mut SpawnOnce<S, R>,
    other: A,
    refused: Result<(), SpawnError>,
    outcome: Result<R, SpawnError>,
) where S: FnOnce(A) -> R
    requires
        call_ensures(SpawnOnce::<S, R>::new, (spawn,), start),
        call_ensures(SpawnOnce::<S, R>::finish, (start,), unused),
        *old(once) == start,
        call_requires(spawn, (task,)),
        call_ensures(SpawnOnce::<S, R>::invoke::<A>, (once, task), accepted),
        *old(twice) == *final(once),
        call_ensures(SpawnOnce::<S, R>::invoke::<A>, (twice, other), refused),
        call_ensures(SpawnOnce::<S, R>::finish, (*final(twice),), outcome),
    ensures
        unused == Err::<R, SpawnError>(SpawnError::NotInvoked),
        accepted is Ok,
        refused == Err::<(), SpawnError>(SpawnError::MoreThanOnce),
        outcome is Ok,
        call_ensures(spawn, (task,), outcome->Ok_0),
{
}

/// The messages name what went wrong, each its own.
pub proof fn law_messages_name_the_error(
    set: &'static str,
    twice: &'static str,
    never: &'static str,
)
    requires
        call_ensures(JoinSetTracerError::message, (&JoinSetTracerError::AlreadySet,), set),
        call_ensures(SpawnError::message, (&SpawnError::MoreThanOnce,), twice),
        call_ensures(SpawnError::message, (&SpawnError::NotInvoked,), never),
    ensures
        set@ == "The global JoinSetTracer is already set"@,
        twice@ == "Task instrumentor invoked the spawn callback more than once"@,
        never@ == "Task instrumentor did not invoke the spawn callback"@,
{
}

} // verus!
