use columnar_exec::trace::{
    set_join_set_tracer, trace_block, Block, JoinSetTracer, JoinSetTracerError, NoopTracer, SpawnError,
    SpawnOnce, TracerSlot,
};
use std::sync::atomic::{AtomicUsize, Ordering};

static TRACED: AtomicUsize = AtomicUsize::new(0);

#[derive(Clone, Copy)]
struct CountingTracer;

impl<T: 'static, F: FnOnce() -> T + 'static> JoinSetTracer<T, F> for CountingTracer {
    type Traced = Box<dyn FnOnce() -> T>;

    fn trace_block(&self, f: F) -> Box<dyn FnOnce() -> T> {
        Box::new(move || {
            TRACED.fetch_add(1, Ordering::Relaxed);
            f()
        })
    }
}

#[test]
fn only_the_first_tracer_is_registered() {
    let mut slot = TracerSlot::new();
    assert!(slot.get_tracer().is_none());
    assert_eq!(set_join_set_tracer(&mut slot, 1), Ok(()));
    assert_eq!(set_join_set_tracer(&mut slot, 2), Err(JoinSetTracerError::AlreadySet));
    assert_eq!(slot.get_tracer(), Some(&1));
    assert_eq!(
        JoinSetTracerError::AlreadySet.message(),
        "The global JoinSetTracer is already set"
    );
}

#[test]
fn traced_blocks_return_what_they_return() {
    let mut slot: TracerSlot<CountingTracer> = TracerSlot::new();
    let plain = trace_block(&slot, || 41);
    set_join_set_tracer(&mut slot, CountingTracer).unwrap();
    let traced = trace_block(&slot, || "done".to_string());
    assert!(matches!(plain, Block::Plain(_)));
    assert!(matches!(traced, Block::Traced(_)));
    assert_eq!(TRACED.load(Ordering::Relaxed), 0);
    assert_eq!(plain.run(), 41);
    assert_eq!(TRACED.load(Ordering::Relaxed), 0);
    assert_eq!(traced.run(), "done");
    assert_eq!(TRACED.load(Ordering::Relaxed), 1);
    assert_eq!(NoopTracer.trace_block(|| 42)(), 42);
}

#[test]
fn tasks_are_spawned_exactly_once() {
    let mut once = SpawnOnce::new(|task: u32| task + 1);
    assert_eq!(once.invoke(41), Ok(()));
    assert_eq!(once.invoke(1), Err(SpawnError::MoreThanOnce));
    assert_eq!(once.finish(), Ok(42));
    let unused: SpawnOnce<fn(u32) -> u32, u32> = SpawnOnce::new(|task| task);
    assert_eq!(unused.finish(), Err(SpawnError::NotInvoked));
    assert_eq!(
        SpawnError::MoreThanOnce.message(),
        "Task instrumentor invoked the spawn callback more than once"
    );
    assert_eq!(
        SpawnError::NotInvoked.message(),
        "Task instrumentor did not invoke the spawn callback"
    );
}
