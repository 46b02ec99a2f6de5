//! Schedules decide which systems may run now, and keep track of ticks: a tick is over when
//! every system has run once.
use crate::systems::System;
use crate::world::World;
use crate::{ExecutionError, SystemError};
use vstd::prelude::*;

verus! {

/// How the schedule should handle starting a new tick.
#[derive(Debug, Ord, PartialOrd, Eq, PartialEq, Structural, Copy, Clone)]
pub enum NewTickReaction {
    /// When a new tick is going to begin, don't immediately start it.
    /// Instead, return an error indicating that the next call will begin a new tick.
    ReturnError,
    /// Begin the new tick immediately, returning the start-systems of the new tick.
    ReturnNewTick,
}

/// An error occurred during a schedule operation.
#[derive(Debug)]
pub enum ScheduleError {
    /// Failed to generate schedule from the given systems, with the reason.
    Generation(String, String),
    /// Could not get next systems in schedule to execute, with the reason.
    NextSystems(String),
    /// A new tick will begin next time systems are requested.
    NewTick,
}

/// Whether a schedule operation succeeded.
pub type ScheduleResult<T> = Result<T, ScheduleError>;

/// Whether the next request of an unordered schedule in state `waiting` with `reaction`
/// returns the systems, and the state after it: with `ReturnError`, requests alternate
/// between returning the systems and announcing a new tick.
pub open spec fn unordered_step(waiting: bool, reaction: NewTickReaction) -> (bool, bool) {
    match reaction {
        NewTickReaction::ReturnError => if waiting {
            (false, false)
        } else {
            (true, true)
        },
        NewTickReaction::ReturnNewTick => (true, waiting),
    }
}

/// Schedules systems in no particular order, with no regard to dependencies.
#[derive(Debug)]
pub struct Unordered<'systems, S> {
    systems: &'systems [S],
    wait_until_next_call: bool,
}

impl<'systems, S> Unordered<'systems, S> {
    /// The systems scheduled.
    pub closed spec fn scheduled(&self) -> Seq<S> {
        self.systems@
    }

    /// Whether the next request with `ReturnError` announces a new tick.
    pub closed spec fn waiting(&self) -> bool {
        self.wait_until_next_call
    }

    /// Creates a schedule of the given systems.
    pub fn generate(systems: &'systems [S]) -> (r: ScheduleResult<Self>)
        ensures
            r matches Ok(s) && s.scheduled() == systems@ && !s.waiting(),
    {
        Ok(Self { systems, wait_until_next_call: false })
    }

    /// Gets all systems, or, with `ReturnError`, every second request announces that a new
    /// tick begins with the next one.
    pub fn currently_executable_systems_with_reaction(
        &mut self,
        new_tick_reaction: NewTickReaction,
    ) -> (r: ScheduleResult<Vec<&'systems S>>)
        ensures
            final(self).scheduled() == old(self).scheduled(),
            final(self).waiting() == unordered_step(old(self).waiting(), new_tick_reaction).1,
            unordered_step(old(self).waiting(), new_tick_reaction).0 ==> (r matches Ok(v) && v@.len()
                == old(self).scheduled().len() && forall|i: int|
                0 <= i < v@.len() ==> *v@[i] == old(self).scheduled()[i]),
            !unordered_step(old(self).waiting(), new_tick_reaction).0 ==> r matches Err(
                ScheduleError::NewTick,
            ),
    {
        let mut all_systems: Vec<&'systems S> = Vec::new();
        let mut i: usize = 0;
        while i < self.systems.len()
            invariant
                i <= self.systems@.len(),
                all_systems@.len() == i,
                forall|j: int| 0 <= j < i ==> *all_systems@[j] == self.systems@[j],
            decreases self.systems@.len() - i,
        {
            all_systems.push(&self.systems[i]);
            i = i + 1;
        }
        if new_tick_reaction == NewTickReaction::ReturnError && self.wait_until_next_call {
            self.wait_until_next_call = false;
            Err(ScheduleError::NewTick)
        } else if new_tick_reaction == NewTickReaction::ReturnError && !self.wait_until_next_call {
            self.wait_until_next_call = true;
            Ok(all_systems)
        } else {
            Ok(all_systems)
        }
    }

    /// Gets all systems; a new tick begins at once.
    pub fn currently_executable_systems(&mut self) -> (r: ScheduleResult<Vec<&'systems S>>)
        ensures
            final(self).scheduled() == old(self).scheduled(),
            final(self).waiting() == old(self).waiting(),
            r matches Ok(v) && v@.len() == old(self).scheduled().len() && forall|i: int|
                0 <= i < v@.len() ==> *v@[i] == old(self).scheduled()[i],
    {
        self.currently_executable_systems_with_reaction(NewTickReaction::ReturnNewTick)
    }
}

/// Asked with `ReturnError` twice in a row, an unordered schedule returns its systems once and
/// announces a new tick once, and is back in the state it started in.
pub proof fn lemma_unordered_tick_alternates(waiting: bool)
    ensures
        ({
            let first = unordered_step(waiting, NewTickReaction::ReturnError);
            let second = unordered_step(first.1, NewTickReaction::ReturnError);
            &&& first.0 != second.0
            &&& second.1 == waiting
        }),
{
}

/// Schedules one system at a time, in the order given, starting over after the last.
#[derive(Debug)]
pub struct Linear<'systems, S> {
    systems: &'systems [S],
    current_system: usize,
}

impl<'systems, S> Linear<'systems, S> {
    /// The systems scheduled.
    pub closed spec fn scheduled(&self) -> Seq<S> {
        self.systems@
    }

    /// The position of the system the next batch holds.
    pub closed spec fn current(&self) -> int {
        self.current_system as int
    }

    /// The position of the next system lies among the systems, when there are any.
    pub open spec fn wf(&self) -> bool {
        self.scheduled().len() == 0 || self.current() < self.scheduled().len()
    }

    /// Creates a schedule of the given systems, starting with the first.
    pub fn generate(systems: &'systems [S]) -> (r: Self)
        ensures
            r.wf(),
            r.scheduled() == systems@,
            r.current() == 0,
    {
        Self { systems, current_system: 0 }
    }

    /// Gets the next system, as a batch of one, and moves on to the one after it, or back to
    /// the first after the last.
    pub fn next_batch(&mut self) -> (r: Vec<&'systems S>)
        requires
            old(self).wf(),
            old(self).scheduled().len() > 0,
        ensures
            final(self).wf(),
            final(self).scheduled() == old(self).scheduled(),
            r@.len() == 1,
            *r@[0] == old(self).scheduled()[old(self).current()],
            final(self).current() == (old(self).current() + 1) % (old(self).scheduled().len() as int),
    {
        let mut batch: Vec<&'systems S> = Vec::new();
        batch.push(&self.systems[self.current_system]);
        self.current_system = (self.current_system + 1) % self.systems.len();
        batch
    }
}

/// Whether `log` records that the systems at positions `0..m` of a schedule ran, in that order,
/// and each returned `Ok`.
pub open spec fn ran_ok_in_order(log: Seq<(int, Result<(), SystemError>)>, m: int) -> bool {
    &&& log.len() == m
    &&& forall|j: int| 0 <= j < m ==> (#[trigger] log[j]).0 == j && log[j].1 is Ok
}

/// Whether each entry of `log` is what a call of `run` returned for the system at its
/// position in `scheduled`, on `world`.
pub open spec fn runs_returned<C, S: System<C>>(
    log: Seq<(int, Result<(), SystemError>)>,
    scheduled: Seq<S>,
    world: &World<C>,
) -> bool {
    forall|j: int|
        0 <= j < log.len() ==> call_ensures(
            S::run,
            (&scheduled[log[j].0], world),
            #[trigger] log[j].1,
        )
}

/// Runs systems in sequence, one after the other.
pub struct Sequential {
    /// The systems the last tick ran, each by its position in the schedule, with what its run
    /// returned, in the order they ran.
    pub ran: Ghost<Seq<(int, Result<(), SystemError>)>>,
}

impl Default for Sequential {
    /// An executor that has run nothing yet.
    fn default() -> (r: Self)
        ensures
            r.ran@ == Seq::<(int, Result<(), SystemError>)>::empty(),
    {
        Sequential { ran: Ghost(Seq::empty()) }
    }
}

impl Sequential {
    /// Executes the systems of the schedule for a single tick, meaning all systems get to
    /// execute once, on `world`, in the schedule's order; the first system that fails ends the
    /// tick with its error, and the systems after it do not run. A schedule that is about to
    /// announce a new tick runs nothing. `ran` records the runs of the tick.
    pub fn execute_once<'systems, C, S: System<C>>(
        &mut self,
        schedule: &mut Unordered<'systems, S>,
        world: &World<C>,
    ) -> (r: Result<(), ExecutionError>)
        ensures
            final(schedule).scheduled() == old(schedule).scheduled(),
            runs_returned(final(self).ran@, old(schedule).scheduled(), world),
            old(schedule).waiting() ==> r is Ok && final(self).ran@.len() == 0,
            old(schedule).scheduled().len() == 0 ==> r is Ok,
            match r {
                Ok(()) => {
                    &&& !final(schedule).waiting()
                    &&& !old(schedule).waiting() ==> ran_ok_in_order(
                        final(self).ran@,
                        old(schedule).scheduled().len() as int,
                    )
                },
                Err(ExecutionError::System(e)) => {
                    let m = final(self).ran@.len() as int;
                    &&& !old(schedule).waiting()
                    &&& final(schedule).waiting()
                    &&& 0 < m <= old(schedule).scheduled().len()
                    &&& ran_ok_in_order(final(self).ran@.take(m - 1), m - 1)
                    &&& final(self).ran@[m - 1] == (m - 1, Err::<(), SystemError>(e))
                },
                Err(_) => false,
            },
    {
        self.ran = Ghost(Seq::empty());
        let ghost started_waiting = schedule.waiting();
        let ghost n = schedule.scheduled().len() as int;
        loop
            invariant
                schedule.scheduled() == old(schedule).scheduled(),
                n == old(schedule).scheduled().len(),
                started_waiting == old(schedule).waiting(),
                started_waiting ==> schedule.waiting() && self.ran@.len() == 0,
                !started_waiting && !schedule.waiting() ==> self.ran@.len() == 0,
                !started_waiting && schedule.waiting() ==> ran_ok_in_order(self.ran@, n),
                runs_returned(self.ran@, old(schedule).scheduled(), world),
            decreases (if schedule.waiting() {
                0int
            } else {
                1int
            }),
        {
            let systems = schedule.currently_executable_systems_with_reaction(
                NewTickReaction::ReturnError,
            );
            match systems {
                Ok(systems) => {
                    let mut i: usize = 0;
                    while i < systems.len()
                        invariant
                            i <= systems@.len(),
                            systems@.len() == n,
                            schedule.scheduled() == old(schedule).scheduled(),
                            n == old(schedule).scheduled().len(),
                            started_waiting == old(schedule).waiting(),
                            !started_waiting,
                            schedule.waiting(),
                            ran_ok_in_order(self.ran@, i as int),
                            runs_returned(self.ran@, old(schedule).scheduled(), world),
                            forall|j: int|
                                0 <= j < systems@.len() ==> *systems@[j] == old(
                                    schedule,
                                ).scheduled()[j],
                        decreases systems@.len() - i,
                    {
                        let returned = systems[i].run(world);
                        let ghost before = self.ran@;
                        proof {
                            self.ran@ = self.ran@.push((i as int, returned));
                            assert(self.ran@.take(i as int) =~= before);
                            assert(systems@[i as int] == &old(schedule).scheduled()[i as int]);
                            assert forall|j: int| 0 <= j < self.ran@.len() implies call_ensures(
                                S::run,
                                (&old(schedule).scheduled()[self.ran@[j].0], world),
                                #[trigger] self.ran@[j].1,
                            ) by {
                                if j < before.len() {
                                    assert(self.ran@[j] == before[j]);
                                }
                            }
                        }
                        match returned {
                            Ok(()) => {
                                proof {
                                    assert forall|j: int| 0 <= j < i + 1 implies (#[trigger] self.ran@[j]).0
                                        == j && self.ran@[j].1 is Ok by {
                                        if j < i {
                                            assert(self.ran@[j] == before[j]);
                                        } else {
                                            assert(self.ran@[j] == (i as int, returned));
                                            assert(returned is Ok);
                                        }
                                    }
                                }
                            },
                            Err(error) => {
                                return Err(ExecutionError::System(error));
                            },
                        }
                        i = i + 1;
                    }
                },
                Err(ScheduleError::NewTick) => {
                    return Ok(());
                },
                Err(schedule_error) => {
                    return Err(ExecutionError::Schedule(schedule_error));
                },
            }
        }
    }
}

/// The state of a tick: how many systems are left to run in it.
#[derive(Debug)]
pub enum TickSynchronizerState {
    /// No tick has been set up.
    Uninitialized,
    /// This many systems are left to run in the tick.
    SystemsLeftToRun(u32),
    /// The executor is shutting down.
    ShuttingDown,
}

impl Default for TickSynchronizerState {
    fn default() -> (r: Self)
        ensures
            r is Uninitialized,
    {
        TickSynchronizerState::Uninitialized
    }
}

impl TickSynchronizerState {
    /// The state after one more system has run.
    pub open spec fn after_run(self) -> Self {
        match self {
            TickSynchronizerState::SystemsLeftToRun(count) => TickSynchronizerState::SystemsLeftToRun(
                (count - 1) as u32,
            ),
            other => other,
        }
    }

    /// The state after `k` more systems have run.
    pub open spec fn after_runs(self, k: nat) -> Self
        decreases k,
    {
        if k == 0 {
            self
        } else {
            self.after_runs((k - 1) as nat).after_run()
        }
    }

    /// Whether the tick still has systems to run.
    pub open spec fn left_to_run(self) -> bool {
        match self {
            TickSynchronizerState::SystemsLeftToRun(count) => count > 0,
            _ => false,
        }
    }

    /// The state after one more system has run: one fewer is left to run.
    pub fn system_has_run(&self) -> (r: Self)
        requires
            !(*self matches TickSynchronizerState::SystemsLeftToRun(0)),
        ensures
            r == self.after_run(),
    {
        match self {
            TickSynchronizerState::Uninitialized => TickSynchronizerState::Uninitialized,
            TickSynchronizerState::SystemsLeftToRun(count) => TickSynchronizerState::SystemsLeftToRun(
                count - 1,
            ),
            TickSynchronizerState::ShuttingDown => TickSynchronizerState::ShuttingDown,
        }
    }

    /// Whether the tick still has systems to run.
    pub fn there_are_systems_left_to_run(&self) -> (r: bool)
        ensures
            r == self.left_to_run(),
    {
        match self {
            TickSynchronizerState::Uninitialized => false,
            TickSynchronizerState::ShuttingDown => false,
            TickSynchronizerState::SystemsLeftToRun(count) => *count > 0,
        }
    }
}

/// A tick set up for `n` systems has systems left to run until exactly `n` of them have run.
pub proof fn lemma_tick_ends_after_all_systems_ran(n: u32, k: nat)
    requires
        k <= n,
    ensures
        TickSynchronizerState::SystemsLeftToRun(n).after_runs(k)
            == TickSynchronizerState::SystemsLeftToRun((n - k) as u32),
        TickSynchronizerState::SystemsLeftToRun(n).after_runs(k).left_to_run() == (k < n),
    decreases k,
{
    if k > 0 {
        lemma_tick_ends_after_all_systems_ran(n, (k - 1) as nat);
    }
}

} // verus!
