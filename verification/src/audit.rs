//! Projection of the per-policy decisions behind a provisioning change to
//! the plain values that the audit record carries. Rendering the values as
//! strings is left to the caller.

use vstd::prelude::*;

use crate::decision::{RefreshDecision, SchedulingDecision};

verus! {

/// The refresh policy's contribution to the audit record of one
/// provisioning change: its verdict, the objects that needed a refresh, and
/// the rehydration time estimate the deadline was computed with.
pub struct RefreshDecisionWithReason {
    pub cluster_on: bool,
    pub objects_needing_refresh: Vec<u64>,
    pub rehydration_time_estimate_ms: u64,
}

/// The audit record of one provisioning change: one entry per policy kind.
pub struct SchedulingDecisionsWithReasons {
    pub on_refresh: RefreshDecisionWithReason,
}

impl SchedulingDecision {
    /// Project the full set of per-policy decisions behind one provisioning
    /// change to its audit record. Each policy has exactly one opinion on
    /// each cluster, so with one registered policy the set holds one
    /// decision.
    pub fn reasons_to_audit_log_reasons(reasons: &Vec<SchedulingDecision>) -> (r:
        SchedulingDecisionsWithReasons)
        requires
            reasons@.len() == 1,
        ensures
            r.on_refresh.cluster_on == reasons@[0]@.on(),
            r.on_refresh.objects_needing_refresh@
                == reasons@[0]@->Refresh_0.objects_needing_refresh,
            r.on_refresh.rehydration_time_estimate_ms
                == reasons@[0]@->Refresh_0.rehydration_time_estimate_ms,
    {
        match &reasons[0] {
            SchedulingDecision::Refresh(RefreshDecision {
                cluster_on,
                objects_needing_refresh,
                rehydration_time_estimate_ms,
            }) => {
                let mut objects: Vec<u64> = Vec::new();
                let mut i: usize = 0;
                while i < objects_needing_refresh.len()
                    invariant
                        i <= objects_needing_refresh.len(),
                        objects@ == objects_needing_refresh@.take(i as int),
                    decreases objects_needing_refresh.len() - i,
                {
                    objects.push(objects_needing_refresh[i]);
                    proof {
                        assert(objects@ =~= objects_needing_refresh@.take(i + 1));
                    }
                    i = i + 1;
                }
                proof {
                    assert(objects@ =~= objects_needing_refresh@);
                }
                SchedulingDecisionsWithReasons {
                    on_refresh: RefreshDecisionWithReason {
                        cluster_on: *cluster_on,
                        objects_needing_refresh: objects,
                        rehydration_time_estimate_ms: *rehydration_time_estimate_ms,
                    },
                }
            },
        }
    }
}

} // verus!
