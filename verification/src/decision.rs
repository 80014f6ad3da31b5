//! Per-policy scheduling decisions and their combination.

use vstd::prelude::*;

verus! {

/// Mathematical content of a refresh policy decision.
#[verifier::ext_equal]
pub struct RefreshDecisionView {
    pub cluster_on: bool,
    pub objects_needing_refresh: Seq<u64>,
    pub rehydration_time_estimate_ms: u64,
}

/// Mathematical content of a policy decision, tagged by the policy kind.
#[verifier::ext_equal]
pub enum DecisionView {
    Refresh(RefreshDecisionView),
}

impl DecisionView {
    /// The On/Off verdict carried by a decision, whatever its policy kind.
    pub open spec fn on(self) -> bool {
        match self {
            DecisionView::Refresh(r) => r.cluster_on,
        }
    }
}

/// The refresh policy's reason for wanting a certain cluster to be On or Off.
pub struct RefreshDecision {
    /// Whether the refresh policy wants the cluster to be On.
    pub cluster_on: bool,
    /// Objects on the cluster that currently need a refresh, taking the
    /// rehydration time estimate into account.
    pub objects_needing_refresh: Vec<u64>,
    /// The rehydration time estimate configured for the cluster, in
    /// milliseconds.
    pub rehydration_time_estimate_ms: u64,
}

/// A policy's decision for whether it wants a certain cluster to be On,
/// along with its reason. (Among the reasons there can be settings of the
/// policy as well as other information about the state of the system.)
pub enum SchedulingDecision {
    /// The reason for the refresh policy for wanting to turn a cluster On or
    /// Off.
    Refresh(RefreshDecision),
}

impl View for RefreshDecision {
    type V = RefreshDecisionView;

    open spec fn view(&self) -> RefreshDecisionView {
        RefreshDecisionView {
            cluster_on: self.cluster_on,
            objects_needing_refresh: self.objects_needing_refresh@,
            rehydration_time_estimate_ms: self.rehydration_time_estimate_ms,
        }
    }
}

impl View for SchedulingDecision {
    type V = DecisionView;

    open spec fn view(&self) -> DecisionView {
        match self {
            SchedulingDecision::Refresh(r) => DecisionView::Refresh(r@),
        }
    }
}

impl SchedulingDecision {
    /// Extract the On/Off decision from the policy-specific structs.
    pub fn cluster_on(&self) -> (r: bool)
        ensures
            r == self@.on(),
    {
        match self {
            SchedulingDecision::Refresh(RefreshDecision { cluster_on, .. }) => *cluster_on,
        }
    }

    /// A copy of the decision with the same mathematical content.
    pub fn duplicate(&self) -> (r: SchedulingDecision)
        ensures
            r@ == self@,
    {
        match self {
            SchedulingDecision::Refresh(r) => {
                let mut objects: Vec<u64> = Vec::new();
                let mut i: usize = 0;
                while i < r.objects_needing_refresh.len()
                    invariant
                        i <= r.objects_needing_refresh.len(),
                        objects@ == r.objects_needing_refresh@.take(i as int),
                    decreases r.objects_needing_refresh.len() - i,
                {
                    objects.push(r.objects_needing_refresh[i]);
                    proof {
                        assert(objects@ =~= r.objects_needing_refresh@.take(i + 1));
                    }
                    i = i + 1;
                }
                proof {
                    assert(objects@ =~= r.objects_needing_refresh@);
                }
                let d = SchedulingDecision::Refresh(RefreshDecision {
                    cluster_on: r.cluster_on,
                    objects_needing_refresh: objects,
                    rehydration_time_estimate_ms: r.rehydration_time_estimate_ms,
                });
                proof {
                    assert(d@ =~= self@);
                }
                d
            },
        }
    }
}

} // verus!
