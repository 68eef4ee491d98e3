use vstd::prelude::*;
use crate::input::{InputEvent, InputState, apply_events, count_scroll_down, last_exit_request};

verus! {

/// Calls `num_cpus::get`, the number of logical cores available to the process. Claimed,
/// as its documentation says: at least 1; the number itself depends on the machine.
#[verifier::external_body]
fn logical_cores() -> (n: usize)
    ensures
        n >= 1,
{
    num_cpus::get()
}

/// How many rendering threads `cores` logical cores call for: one per core, at most
/// `u32::MAX`.
pub fn threads_for(cores: usize) -> (threads: u32)
    ensures
        threads == if cores <= u32::MAX {
            cores as int
        } else {
            u32::MAX as int
        },
{
    if cores > u32::MAX as usize {
        u32::MAX
    } else {
        cores as u32
    }
}

/// How many threads render a frame on this machine: one per available logical core.
pub fn available_threads() -> (threads: u32)
    ensures
        threads >= 1,
{
    threads_for(logical_cores())
}

/// A running simulation: the environment that is shown, how many threads render it,
/// whether debugging may be switched on, and what the controls remember.
pub struct Simulation<E> {
    pub debug: bool,
    pub threads: u32,
    pub environment: E,
    pub context: InputState,
}

/// Collects what a simulation needs before it can be built.
pub struct SimulationBuilder<E> {
    environment: Option<E>,
    threads: Option<u32>,
    debug: bool,
}

impl<E> SimulationBuilder<E> {
    /// The environment given so far.
    pub closed spec fn environment_given(&self) -> Option<E> {
        self.environment
    }

    /// The number of threads given so far.
    pub closed spec fn threads_given(&self) -> Option<u32> {
        self.threads
    }

    /// Whether debugging may be switched on.
    pub closed spec fn debug_given(&self) -> bool {
        self.debug
    }

    /// Sets the environment to show.
    pub fn environment(self, environment: E) -> (b: Self)
        ensures
            b.environment_given() == Some(environment),
            b.threads_given() == self.threads_given(),
            b.debug_given() == self.debug_given(),
    {
        SimulationBuilder { environment: Some(environment), threads: self.threads, debug: self.debug }
    }

    /// Sets the number of rendering threads.
    pub fn threads(self, threads: u32) -> (b: Self)
        ensures
            b.environment_given() == self.environment_given(),
            b.threads_given() == Some(threads),
            b.debug_given() == self.debug_given(),
    {
        SimulationBuilder { environment: self.environment, threads: Some(threads), debug: self.debug }
    }

    /// Sets whether debugging may be switched on.
    pub fn debug(self, debug: bool) -> (b: Self)
        ensures
            b.environment_given() == self.environment_given(),
            b.threads_given() == self.threads_given(),
            b.debug_given() == debug,
    {
        SimulationBuilder { environment: self.environment, threads: self.threads, debug }
    }

    /// The simulation, once the environment and the number of threads are given; its
    /// controls start idle.
    pub fn build(self) -> (s: Simulation<E>)
        requires
            self.environment_given() is Some,
            self.threads_given() is Some,
        ensures
            Some(s.environment) == self.environment_given(),
            Some(s.threads) == self.threads_given(),
            s.debug == self.debug_given(),
            s.context.model().keys == Set::<crate::input::Key>::empty(),
            s.context.model().buttons == Set::<crate::input::MouseButton>::empty(),
            s.context.model().resolution == 8,
            !s.context.model().debugging,
    {
        Simulation {
            debug: self.debug,
            threads: self.threads.unwrap(),
            environment: self.environment.unwrap(),
            context: InputState::new(),
        }
    }
}

impl<E> Simulation<E> {
    /// A builder with nothing given and debugging off.
    pub fn builder() -> (b: SimulationBuilder<E>)
        ensures
            b.environment_given() is None,
            b.threads_given() is None,
            !b.debug_given(),
    {
        SimulationBuilder { environment: None, threads: None, debug: false }
    }

    /// Lets the controls react to the events of one frame; returns the last of them that
    /// asks for the simulation to end, if any.
    pub fn handle_events(&mut self, events: &Vec<InputEvent>) -> (result: Result<(), InputEvent>)
        requires
            old(self).context.model().resolution + count_scroll_down(events@) <= u32::MAX,
        ensures
            final(self).context.model() == apply_events(
                old(self).context.model(),
                events@,
                old(self).debug,
            ),
            final(self).debug == old(self).debug,
            final(self).threads == old(self).threads,
            final(self).environment == old(self).environment,
            match last_exit_request(events@) {
                Some(e) => result == Err::<(), InputEvent>(e),
                None => result is Ok,
            },
    {
        self.context.update(events, self.debug)
    }
}

} // verus!
