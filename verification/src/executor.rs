//! What an executor does with a batch, one step at a time, and the decisions
//! around running a session on it.
use crate::ring::RingBufferIndex;
use crate::supertensor::{RingView, SuperTensorBuffer};
use vstd::prelude::*;

verus! {

/// How far an executor has come with its batch.
#[derive(Clone, Copy, Debug, PartialEq, Eq, Structural)]
pub enum ExecutorPhase {
    /// It has no batch yet.
    Claim,
    /// It has claimed a batch and was woken by the first client of it.
    Linger(RingBufferIndex),
    /// It has given clients their chance to join.
    Seal(RingBufferIndex),
    /// The batch is closed, with that many slots left empty.
    Drain(RingBufferIndex, usize),
    /// The session is running on that many items.
    Run(RingBufferIndex, usize),
    /// The batch of that many items is done.
    Done(usize),
}

/// What an executor is to do before its next step.
#[derive(Clone, Copy, Debug, PartialEq, Eq, Structural)]
pub enum ExecutorAction {
    /// Wait until the tail moves.
    WaitForRoom,
    /// Wait until a client has written the first slot of the batch.
    WaitForWriter { batch_id: usize },
    /// Wait until the batch is full, but no longer than the deadline.
    WaitForClients { batch_id: usize, deadline: u64 },
    /// Look again: writes are under way.
    Spin,
    /// Take the next step.
    Proceed,
    /// Run the session on the batch and hand its outputs to the clients.
    RunModel { batch_id: usize, batch_items: usize },
    /// Wake those who wait for room where `moved` is not 0; the batch is done.
    Finish { batch_items: usize, moved: usize },
}

/// The number of batches that can be given back, oldest first.
pub open spec fn is_tail_distance(v: RingView, steps: nat) -> bool {
    &&& forall|j: nat| j < steps ==> (#[trigger] v.after_tail_steps(j)).tail_can_move()
    &&& !v.after_tail_steps(steps).tail_can_move()
}

/// The number of batches that can be given back is one number.
pub proof fn tail_distance_is_unique(v: RingView, a: nat, b: nat)
    requires
        is_tail_distance(v, a),
        is_tail_distance(v, b),
    ensures
        a == b,
{
    if a < b {
        assert(v.after_tail_steps(a).tail_can_move());
    }
    if b < a {
        assert(v.after_tail_steps(b).tail_can_move());
    }
}

impl SuperTensorBuffer {
    /// What an executor may rely on before its next step.
    pub open spec fn executor_ready(self, phase: ExecutorPhase) -> bool {
        match phase {
            ExecutorPhase::Claim => true,
            ExecutorPhase::Linger(index) => self.on_ring(index),
            ExecutorPhase::Seal(index) => {
                &&& self.on_ring(index)
                &&& crate::ring::wrap(self@.head - self@.lower_bound(index.index)) < crate::ring::HALF_RANGE
            },
            ExecutorPhase::Drain(index, remaining) => {
                &&& self.on_ring(index)
                &&& remaining <= self.batch_size
                &&& self@.tracker(index.index).written_slots <= self.batch_size - remaining
                &&& self@.tracker(index.index).state.execution_trace.exec_start is None
            },
            ExecutorPhase::Run(index, batch_items) => {
                &&& self.on_ring(index)
                &&& self@.tracker(index.index).state.execution_trace.exec_end is None
                &&& !self@.tracker(index.index).state.answered
            },
            ExecutorPhase::Done(batch_items) => true,
        }
    }

    /// A step of an executor at the time `now`: from `phase` on this ring to `r`
    /// and the ring `after`.
    pub open spec fn steps_to(
        self,
        after: SuperTensorBuffer,
        phase: ExecutorPhase,
        now: u64,
        r: (ExecutorPhase, ExecutorAction),
    ) -> bool {
        match phase {
            ExecutorPhase::Claim => if self@.blocked(self@.executor_head) {
                &&& r == (ExecutorPhase::Claim, ExecutorAction::WaitForRoom)
                &&& after@ == self@
            } else {
                let index = self.head.index_at(self@.executor_head);
                &&& r == (
                    ExecutorPhase::Linger(index),
                    ExecutorAction::WaitForWriter { batch_id: self@.batch_id(index.index) as usize },
                )
                &&& after@ == self@.after_claim()
            },
            ExecutorPhase::Linger(index) => {
                let waits = self@.open_slots(index.index) > 0 && self@.tracker(index.index).state.deadline is Some;
                &&& r.0 == ExecutorPhase::Seal(index)
                &&& r.1 == (if waits {
                    ExecutorAction::WaitForClients {
                        batch_id: self@.batch_id(index.index) as usize,
                        deadline: self@.tracker(index.index).state.deadline->0,
                    }
                } else {
                    ExecutorAction::Proceed
                })
                &&& after@ == self@
            },
            ExecutorPhase::Seal(index) => {
                &&& r == (
                    ExecutorPhase::Drain(index, self@.open_slots(index.index) as usize),
                    ExecutorAction::Proceed,
                )
                &&& after@ == self@.after_seal(index.index)
            },
            ExecutorPhase::Drain(index, remaining) => {
                let written = self@.tracker(index.index).written_slots;
                if written == self.batch_size - remaining {
                    &&& r == (
                        ExecutorPhase::Run(index, written),
                        ExecutorAction::RunModel {
                            batch_id: self@.batch_id(index.index) as usize,
                            batch_items: written,
                        },
                    )
                    &&& after@ == self@.after_start(index.index, now)
                } else {
                    &&& r == (phase, ExecutorAction::Spin)
                    &&& after@ == self@
                }
            },
            ExecutorPhase::Run(index, batch_items) => {
                let cleared = self@.after_answer(index.index, now).after_reset(index.index);
                &&& r.0 == ExecutorPhase::Done(batch_items)
                &&& r.1 matches ExecutorAction::Finish { batch_items: items, moved }
                &&& items == batch_items
                &&& is_tail_distance(cleared, moved as nat)
                &&& after@ == cleared.after_tail_steps(moved as nat).after_release()
            },
            ExecutorPhase::Done(batch_items) => {
                &&& r == (phase, ExecutorAction::Proceed)
                &&& after@ == self@
            },
        }
    }

    /// One step of an executor: from where it stands, at the time `now`, to
    /// where it stands next and what it is to do in between.
    pub fn execute_on_batch(&mut self, phase: ExecutorPhase, now: u64) -> (r: (ExecutorPhase, ExecutorAction))
        requires
            old(self).wf(),
            old(self).executor_ready(phase),
        ensures
            final(self).wf(),
            final(self).same_ring(*old(self)),
            old(self).steps_to(*final(self), phase, now, r),
    {
        match phase {
            ExecutorPhase::Claim => {
                match self.claim_batch() {
                    None => (ExecutorPhase::Claim, ExecutorAction::WaitForRoom),
                    Some(index) => {
                        proof {
                            self.lemma_on_ring(index);
                            assert(index == old(self).head.index_at(old(self)@.executor_head));
                        }
                        let batch_id = index.as_batch_id();
                        (ExecutorPhase::Linger(index), ExecutorAction::WaitForWriter { batch_id })
                    },
                }
            },
            ExecutorPhase::Linger(index) => {
                proof {
                    self.lemma_on_ring(index);
                }
                match self.wait_deadline(&index) {
                    Some(deadline) => {
                        let batch_id = index.as_batch_id();
                        (ExecutorPhase::Seal(index), ExecutorAction::WaitForClients { batch_id, deadline })
                    },
                    None => (ExecutorPhase::Seal(index), ExecutorAction::Proceed),
                }
            },
            ExecutorPhase::Seal(index) => {
                let remaining = self.seal_current_batch(&index);
                (ExecutorPhase::Drain(index, remaining), ExecutorAction::Proceed)
            },
            ExecutorPhase::Drain(index, remaining) => {
                if self.batch_written(&index, remaining) {
                    let batch_items = self.start_batch(&index, now);
                    proof {
                        self.lemma_on_ring(index);
                    }
                    let batch_id = index.as_batch_id();
                    (ExecutorPhase::Run(index, batch_items), ExecutorAction::RunModel { batch_id, batch_items })
                } else {
                    (phase, ExecutorAction::Spin)
                }
            },
            ExecutorPhase::Run(index, batch_items) => {
                self.answer_batch(&index, now);
                self.reset_batch(&index);
                let moved = self.move_tail_to_next_non_dirty_buffer();
                self.release_executor();
                (ExecutorPhase::Done(batch_items), ExecutorAction::Finish { batch_items, moved })
            },
            ExecutorPhase::Done(_) => (phase, ExecutorAction::Proceed),
        }
    }

    /// Gives the batch of a warm-up run back and says how far the tail moved.
    pub fn finish_warmup(&mut self, index: &RingBufferIndex) -> (moved: usize)
        requires
            old(self).wf(),
            old(self).on_ring(*index),
        ensures
            final(self).wf(),
            final(self).same_ring(*old(self)),
            is_tail_distance(old(self)@.after_reset(index.index), moved as nat),
            final(self)@ == old(self)@.after_reset(index.index).after_tail_steps(moved as nat).after_release(),
    {
        self.reset_batch(index);
        let moved = self.move_tail_to_next_non_dirty_buffer();
        self.release_executor();
        moved
    }
}

}
