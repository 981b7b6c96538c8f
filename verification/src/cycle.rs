//! Whole runs of the collector: to the end of the cycle, or for a budget of
//! work; and what a full cycle without mutation leaves of the heap.

use vstd::prelude::*;
use crate::gc::Gc;
use crate::state::{ContextView, Phase};
use crate::types::GcColor;

verus! {

impl<T> ContextView<T> {
    /// What the next unit of work counts for in the pacing: one for a box
    /// traced and turned black, one for a box freed, nothing otherwise.
    pub open spec fn step_cost(self) -> nat {
        match self.phase {
            Phase::Sleep => 0,
            Phase::Propagate => if self.gray.len() > 0 {
                1
            } else {
                0
            },
            Phase::Sweep => if 0 <= self.cursor < self.order.len() && self.color(
                self.order[self.cursor],
            ) == GcColor::White {
                1
            } else {
                0
            },
        }
    }

    /// The collector runs until it sleeps.
    pub open spec fn finish(self) -> Self
        decreases self.rank(), self.work_left(),
        when self.inv()
        via Self::finish_decreases
    {
        if self.phase == Phase::Sleep {
            self
        } else {
            self.step().finish()
        }
    }

    #[via_fn]
    proof fn finish_decreases(self) {
        if self.phase != Phase::Sleep {
            self.lemma_step_progress();
        }
    }

    /// The collector runs until it sleeps or has done `budget` worth of work.
    pub open spec fn pay(self, budget: int) -> Self
        decreases self.rank(), self.work_left(),
        when self.inv()
        via Self::pay_decreases
    {
        if self.phase == Phase::Sleep || budget <= 0 {
            self
        } else {
            self.step().pay(budget - self.step_cost())
        }
    }

    #[via_fn]
    proof fn pay_decreases(self, budget: int) {
        if self.phase != Phase::Sleep {
            self.lemma_step_progress();
        }
    }

    /// A full collection: a sleeping collector starts a cycle, and the cycle
    /// in flight runs to its end.
    pub open spec fn collect_all(self) -> Self {
        if self.phase == Phase::Sleep {
            self.wake().finish()
        } else {
            self.finish()
        }
    }

    /// Only the end of a sweep puts the collector to sleep, and it leaves
    /// the boxes as they are.
    pub proof fn lemma_step_sleeps(self)
        requires
            self.inv(),
            self.phase != Phase::Sleep,
        ensures
            self.step().phase == Phase::Sleep <==> (self.phase == Phase::Sweep && !(0
                <= self.cursor < self.order.len())),
            self.step().phase == Phase::Sleep ==> self.step().order == self.order,
    {
        match self.phase {
            Phase::Sleep => {},
            Phase::Propagate => {
                if self.gray.len() > 0 {
                    self.lemma_propagate_one_inv();
                } else if self.root_needs_trace {
                    self.lemma_propagate_root_inv();
                }
            },
            Phase::Sweep => {
                if 0 <= self.cursor < self.order.len() {
                    self.lemma_sweep_one_inv();
                }
            },
        }
    }

    /// Running to the sleep keeps the invariant, frees nothing that the
    /// root can reach and changes no payload and no edge.
    pub proof fn lemma_finish_inv(self)
        requires
            self.inv(),
        ensures
            self.finish().inv(),
            self.finish().phase == Phase::Sleep,
            self.finish().collected_from(self),
        decreases self.rank(), self.work_left(),
    {
        if self.phase != Phase::Sleep {
            self.lemma_step_inv();
            self.lemma_step_progress();
            self.step().lemma_finish_inv();
            self.finish().lemma_collected_trans(self.step(), self);
        } else {
            self.lemma_collected_refl();
        }
    }

    /// Doing nothing is collecting.
    pub proof fn lemma_collected_refl(self)
        requires
            self.inv(),
        ensures
            self.collected_from(self),
    {
        assert forall|g: Gc| #[trigger] self.reachable(g) implies self.contains(g) by {
            self.lemma_reachable_protected(g);
        }
    }

    /// Running for a budget keeps the invariant, frees nothing that the
    /// root can reach and changes no payload and no edge.
    pub proof fn lemma_pay_inv(self, budget: int)
        requires
            self.inv(),
        ensures
            self.pay(budget).inv(),
            self.pay(budget).collected_from(self),
        decreases self.rank(), self.work_left(),
    {
        if self.phase != Phase::Sleep && budget > 0 {
            self.lemma_step_inv();
            self.lemma_step_progress();
            self.step().lemma_pay_inv(budget - self.step_cost());
            self.pay(budget).lemma_collected_trans(self.step(), self);
        } else {
            self.lemma_collected_refl();
        }
    }

    /// A full collection keeps the invariant, ends asleep, frees nothing that
    /// the root can reach and changes no payload and no edge.
    pub proof fn lemma_collect_all_inv(self)
        requires
            self.inv(),
        ensures
            self.collect_all().inv(),
            self.collect_all().phase == Phase::Sleep,
            self.collect_all().collected_from(self),
    {
        if self.phase == Phase::Sleep {
            self.lemma_wake_inv();
            self.wake().lemma_finish_inv();
            self.collect_all().lemma_collected_trans(self.wake(), self);
        } else {
            self.lemma_finish_inv();
        }
    }
}

} // verus!
