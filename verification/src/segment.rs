//! Units of work handed to worker threads: a segment of a system's iteration, and a task.
use vstd::prelude::*;

verus! {

/// A part of the full execution of a single system.
#[derive(Debug)]
pub struct SystemSegment<F> {
    /// The name of the system this is a segment of.
    pub system_name: &'static str,
    pub executable: F,
}

impl<F: FnOnce()> SystemSegment<F> {
    /// Runs this segment's part of its system's iterations.
    pub fn execute(self)
        requires
            call_requires(self.executable, ()),
        ensures
            call_ensures(self.executable, (), ()),
    {
        (self.executable)()
    }
}

/// A unit of work for a worker thread.
#[derive(Debug)]
pub struct Task<F> {
    /// An identifier of the task.
    pub uid: u64,
    /// What the task does.
    pub function: F,
}

impl<F: FnOnce()> Task<F> {
    /// A task that calls `function`.
    pub fn new(function: F) -> (r: Self)
        ensures
            r.uid == 0,
            r.function == function,
    {
        Self { uid: 0, function }
    }

    /// Runs the task: calls its function.
    pub fn run(self)
        requires
            call_requires(self.function, ()),
        ensures
            call_ensures(self.function, (), ()),
    {
        (self.function)()
    }
}

} // verus!
