//! How the threads of the gateway are spread over the cores of the machine.

use vstd::prelude::*;

verus! {

/// The options of the gateway.
pub struct GatewayOpts {}

impl GatewayOpts {
    /// How many workers run on each core unless told otherwise.
    pub const DEFAULT_WORKERS_PER_CORE: usize = 5;
}

/// Assigns threads to cores: the first `threads_per_core` threads to the
/// first core, the next ones to the second, and so on.
pub struct CoreSetter {
    cores: Vec<usize>,
    threads_per_core: usize,
}

impl CoreSetter {
    /// The ids of the cores, in the order in which they are filled.
    pub closed spec fn cores(&self) -> Seq<usize> {
        self.cores@
    }

    /// How many threads share a core.
    pub closed spec fn threads_per_core(&self) -> usize {
        self.threads_per_core
    }

    /// A setter that fills `cores` in their order with `threads_per_core`
    /// threads each.
    pub fn new(cores: Vec<usize>, threads_per_core: usize) -> (setter: CoreSetter)
        ensures
            setter.cores() == cores@,
            setter.threads_per_core() == threads_per_core,
    {
        CoreSetter { cores, threads_per_core }
    }

    /// The number of threads that have a core to run on.
    pub fn num_threads(&self) -> (n: usize)
        requires
            self.cores().len() * self.threads_per_core() <= usize::MAX,
        ensures
            n == self.cores().len() * self.threads_per_core(),
    {
        self.cores.len() * self.threads_per_core
    }

    /// The core of the thread that is started as number `thread_index`,
    /// counting from zero: `None` once every core has its threads.
    pub fn core_for(&self, thread_index: usize) -> (core: Option<usize>)
        requires
            self.threads_per_core() > 0,
        ensures
            core == if thread_index / self.threads_per_core() < self.cores().len() {
                Some(self.cores()[(thread_index / self.threads_per_core()) as int])
            } else {
                None::<usize>
            },
    {
        let core_index = thread_index / self.threads_per_core;
        if core_index < self.cores.len() {
            Some(self.cores[core_index])
        } else {
            None
        }
    }
}

/// Threads are handed to cores in order: a later thread never runs on an
/// earlier core, and no core gets more than its share.
pub proof fn law_cores_fill_in_order(threads_per_core: usize, first: usize, second: usize)
    requires
        threads_per_core > 0,
        first <= second,
    ensures
        first / threads_per_core <= second / threads_per_core,
        second >= first + threads_per_core ==> second / threads_per_core > first / threads_per_core,
{
    let t = threads_per_core as int;
    let a = first as int;
    let b = second as int;
    assert(a / t <= b / t) by (nonlinear_arith)
        requires
            t > 0,
            0 <= a <= b,
    ;
    if second >= first + threads_per_core {
        assert(b / t > a / t) by (nonlinear_arith)
            requires
                t > 0,
                0 <= a,
                b >= a + t,
        ;
    }
}

} // verus!
