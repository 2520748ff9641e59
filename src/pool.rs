//! The shutdown protocol of a fixed pool of worker threads that share one
//! job queue: first one terminate message per worker is queued, after every
//! job already queued, then each worker is joined in turn. The pool itself
//! (threads, queue) is driven by its owner, which asks [`Teardown`] for the
//! next step, performs it and asks again until it is told the pool is down.
use vstd::prelude::*;

verus! {

/// One step of taking the pool down.
#[derive(Clone, Copy, Debug, PartialEq, Eq, Structural)]
pub enum TeardownStep {
    /// Queue one terminate message.
    SendTerminate,
    /// Wait for worker `i` to exit.
    Join(usize),
    /// Every worker has been told to stop and has been joined.
    Finished,
}

/// Step `k` (from zero) of taking down a pool of `workers` workers.
pub open spec fn step_at(workers: nat, k: nat) -> TeardownStep {
    if k < workers {
        TeardownStep::SendTerminate
    } else if k < 2 * workers {
        TeardownStep::Join((k - workers) as usize)
    } else {
        TeardownStep::Finished
    }
}

/// Where the shutdown of a pool stands.
pub struct Teardown {
    workers: usize,
    sent: usize,
    joined: usize,
}

impl Teardown {
    pub closed spec fn workers(&self) -> nat {
        self.workers as nat
    }

    /// How many steps have been handed out, `Finished` not counted.
    pub closed spec fn taken(&self) -> nat {
        (self.sent + self.joined) as nat
    }

    pub closed spec fn wf(&self) -> bool {
        &&& self.sent <= self.workers
        &&& self.joined <= self.workers
        &&& self.joined > 0 ==> self.sent == self.workers
    }

    /// The shutdown of a pool of `workers` workers, no step taken yet.
    pub fn new(workers: usize) -> (r: Teardown)
        ensures
            r.wf(),
            r.workers() == workers,
            r.taken() == 0,
    {
        Teardown { workers, sent: 0, joined: 0 }
    }

    /// The next step to perform.
    pub fn next_step(&mut self) -> (r: TeardownStep)
        requires
            old(self).wf(),
        ensures
            final(self).wf(),
            final(self).workers() == old(self).workers(),
            r == step_at(old(self).workers(), old(self).taken()),
            final(self).taken() == if r == TeardownStep::Finished {
                old(self).taken()
            } else {
                old(self).taken() + 1
            },
    {
        if self.sent < self.workers {
            self.sent = self.sent + 1;
            TeardownStep::SendTerminate
        } else if self.joined < self.workers {
            let i = self.joined;
            self.joined = self.joined + 1;
            TeardownStep::Join(i)
        } else {
            TeardownStep::Finished
        }
    }

    /// Whether the pool is down.
    pub fn is_finished(&self) -> (r: bool)
        requires
            self.wf(),
        ensures
            r == (self.taken() == 2 * self.workers()),
    {
        self.joined == self.workers
    }
}

/// Taking down a pool of `workers` workers queues exactly `workers`
/// terminate messages, all before the first join, joins each worker exactly
/// once, and is finished after `2 * workers` steps.
pub proof fn lemma_teardown_protocol(workers: nat)
    requires
        workers <= usize::MAX,
    ensures
        forall|k: nat| k < workers ==> #[trigger] step_at(workers, k) == TeardownStep::SendTerminate,
        forall|i: nat|
            i < workers ==> #[trigger] step_at(workers, workers + i) == TeardownStep::Join(i as usize),
        forall|k1: nat, k2: nat|
            #[trigger] step_at(workers, k1) == #[trigger] step_at(workers, k2) && k1 != k2 ==> step_at(workers, k1)
                == TeardownStep::SendTerminate || step_at(workers, k1) == TeardownStep::Finished,
        forall|k: nat| k >= 2 * workers ==> #[trigger] step_at(workers, k) == TeardownStep::Finished,
{
    assert forall|k1: nat, k2: nat|
        #[trigger] step_at(workers, k1) == #[trigger] step_at(workers, k2) && k1 != k2 implies step_at(workers, k1)
            == TeardownStep::SendTerminate || step_at(workers, k1) == TeardownStep::Finished by {
        if workers <= k1 < 2 * workers && workers <= k2 < 2 * workers {
            assert((k1 - workers) as usize != (k2 - workers) as usize);
        }
    }
}

} // verus!
