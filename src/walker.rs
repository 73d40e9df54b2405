//! Walker configuration.
use vstd::prelude::*;

use crate::engine::Engine;

verus! {

/// Relies on num_cpus::get: the number of logical CPUs available to this
/// process, which its documentation promises is at least one.
#[verifier::external_body]
fn available_cpus() -> (r: usize)
    ensures
        r >= 1,
{
    num_cpus::get()
}

/// How to walk: the number of workers.
pub struct Walker {
    num_threads: usize,
}

impl Walker {
    /// A walk has at least one worker.
    #[verifier::type_invariant]
    spec fn inv(&self) -> bool {
        self.num_threads >= 1
    }

    /// The number of workers a walk uses.
    pub closed spec fn threads(&self) -> usize {
        self.num_threads
    }

    /// A walker with `num_threads` workers.
    pub fn new(num_threads: usize) -> (r: Self)
        requires
            num_threads >= 1,
        ensures
            r.threads() == num_threads,
    {
        Walker { num_threads }
    }

    /// The number of workers a walk uses.
    pub fn num_threads(&self) -> (r: usize)
        ensures
            r == self.threads(),
            r >= 1,
    {
        proof {
            use_type_invariant(self);
        }
        self.num_threads
    }

    /// Starts a walk from `root`: one worker per thread, all idle with
    /// empty deques, and the root as the one task, in the injector.
    pub fn start<O>(&self, root: Vec<u8>) -> (e: Engine<O>)
        ensures
            e.wf(),
            e.root() == root@,
            e.workers() == self.threads(),
            forall|w: int| 0 <= w < e.workers() ==> #[trigger] e.phases()[w] is Idle,
            forall|w: int| 0 <= w < e.workers() ==> #[trigger] e.queued(w).len() == 0,
            e.injected() == seq![root@],
            e.entries().len() == 0,
            e.total() == 0,
    {
        proof {
            use_type_invariant(self);
        }
        Engine::new(root, self.num_threads)
    }
}

impl Default for Walker {
    /// A walker with one worker per logical CPU.
    fn default() -> (r: Self)
        ensures
            r.threads() >= 1,
    {
        Walker::new(available_cpus())
    }
}

} // verus!
