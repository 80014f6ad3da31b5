//! The coordinator-owned decision store: for each cluster under automatic
//! scheduling, the latest decision of each policy that has reported for it.
//!
//! The store is modelled as a map from cluster id to a map from policy name
//! to the policy's latest decision; the executable representation keeps both
//! levels as vectors with unique keys.

use vstd::prelude::*;
use vstd::pervasive::VecAdditionalExecFns;

use crate::catalog::CatalogSnapshot;
use crate::catalog::ClusterSchedule;
use crate::decision::{DecisionView, SchedulingDecision};

verus! {

/// The decisions recorded for one cluster, keyed by policy name.
pub struct ClusterDecisions {
    pub entries: Vec<(String, SchedulingDecision)>,
}

/// The decisions recorded for every tracked cluster, keyed by cluster id.
pub struct DecisionStore {
    pub entries: Vec<(u64, ClusterDecisions)>,
}

/// The map from policy name to decision that a per-cluster entry list
/// denotes; a later entry for the same name wins.
pub open spec fn decisions_model(s: Seq<(String, SchedulingDecision)>) -> Map<
    Seq<char>,
    DecisionView,
>
    decreases s.len(),
{
    if s.len() == 0 {
        Map::empty()
    } else {
        decisions_model(s.drop_last()).insert(s.last().0@, s.last().1@)
    }
}

/// The map from cluster id to per-cluster decision map that a store entry
/// list denotes; a later entry for the same id wins.
pub open spec fn store_model(s: Seq<(u64, ClusterDecisions)>) -> Map<
    u64,
    Map<Seq<char>, DecisionView>,
>
    decreases s.len(),
{
    if s.len() == 0 {
        Map::empty()
    } else {
        store_model(s.drop_last()).insert(s.last().0, decisions_model(s.last().1.entries@))
    }
}

/// Policy names are unique within one cluster's entry list.
pub open spec fn unique_policies(s: Seq<(String, SchedulingDecision)>) -> bool {
    forall|i: int, j: int| 0 <= i < j < s.len() ==> s[i].0@ != s[j].0@
}

/// The per-cluster model contains a policy name exactly when some entry
/// records it.
pub proof fn lemma_decisions_model_key(s: Seq<(String, SchedulingDecision)>, p: Seq<char>)
    ensures
        decisions_model(s).contains_key(p) <==> exists|i: int| 0 <= i < s.len() && s[i].0@ == p,
    decreases s.len(),
{
    if s.len() > 0 {
        lemma_decisions_model_key(s.drop_last(), p);
        if decisions_model(s).contains_key(p) {
            if p == s.last().0@ {
                assert(s[s.len() - 1].0@ == p);
            } else {
                let i = choose|i: int| 0 <= i < s.drop_last().len() && s.drop_last()[i].0@ == p;
                assert(s.drop_last()[i] == s[i]);
                assert(s[i].0@ == p);
            }
        }
        if exists|i: int| 0 <= i < s.len() && s[i].0@ == p {
            let i = choose|i: int| 0 <= i < s.len() && s[i].0@ == p;
            if i < s.len() - 1 {
                assert(s.drop_last()[i] == s[i]);
                assert(s.drop_last()[i].0@ == p);
                assert(decisions_model(s.drop_last()).contains_key(p));
            }
        }
    }
}

/// With unique policy names, each entry's decision is the model's value for
/// its name.
pub proof fn lemma_decisions_model_value(s: Seq<(String, SchedulingDecision)>, i: int)
    requires
        unique_policies(s),
        0 <= i < s.len(),
    ensures
        decisions_model(s).contains_key(s[i].0@),
        decisions_model(s)[s[i].0@] == s[i].1@,
    decreases s.len(),
{
    if i == s.len() - 1 {
    } else {
        assert(s.drop_last()[i] == s[i]);
        lemma_decisions_model_value(s.drop_last(), i);
        assert(s[i].0@ != s.last().0@);
    }
}

/// The store model contains a cluster id exactly when some entry records it.
pub proof fn lemma_store_model_key(s: Seq<(u64, ClusterDecisions)>, c: u64)
    ensures
        store_model(s).contains_key(c) <==> exists|i: int| 0 <= i < s.len() && s[i].0 == c,
    decreases s.len(),
{
    if s.len() > 0 {
        lemma_store_model_key(s.drop_last(), c);
        if store_model(s).contains_key(c) {
            if c == s.last().0 {
                assert(s[s.len() - 1].0 == c);
            } else {
                let i = choose|i: int| 0 <= i < s.drop_last().len() && s.drop_last()[i].0 == c;
                assert(s.drop_last()[i] == s[i]);
                assert(s[i].0 == c);
            }
        }
        if exists|i: int| 0 <= i < s.len() && s[i].0 == c {
            let i = choose|i: int| 0 <= i < s.len() && s[i].0 == c;
            if i < s.len() - 1 {
                assert(s.drop_last()[i] == s[i]);
                assert(s.drop_last()[i].0 == c);
                assert(store_model(s.drop_last()).contains_key(c));
            }
        }
    }
}

/// With unique cluster ids, each entry's decisions are the model's value for
/// its id.
pub proof fn lemma_store_model_value(s: Seq<(u64, ClusterDecisions)>, i: int)
    requires
        forall|a: int, b: int| 0 <= a < b < s.len() ==> s[a].0 != s[b].0,
        0 <= i < s.len(),
    ensures
        store_model(s).contains_key(s[i].0),
        store_model(s)[s[i].0] == decisions_model(s[i].1.entries@),
    decreases s.len(),
{
    if i == s.len() - 1 {
    } else {
        assert(s.drop_last()[i] == s[i]);
        lemma_store_model_value(s.drop_last(), i);
        assert(s[i].0 != s.last().0);
    }
}

impl ClusterDecisions {
    /// Unique policy names.
    pub open spec fn wf(self) -> bool {
        unique_policies(self.entries@)
    }

    /// The map from policy name to latest decision that this value denotes.
    pub open spec fn model(self) -> Map<Seq<char>, DecisionView> {
        decisions_model(self.entries@)
    }

    /// An empty set of decisions.
    pub fn new() -> (r: ClusterDecisions)
        ensures
            r.wf(),
            r.model() == Map::<Seq<char>, DecisionView>::empty(),
    {
        ClusterDecisions { entries: Vec::new() }
    }

    /// Record the policy's latest decision, replacing any earlier one.
    #[verifier::loop_isolation(false)]
    pub fn insert(&mut self, policy: String, decision: SchedulingDecision)
        requires
            old(self).wf(),
        ensures
            final(self).wf(),
            final(self).model() == old(self).model().insert(policy@, decision@),
    {
        let ghost s0 = self.entries@;
        let n = self.entries.len();
        let mut i: usize = 0;
        while i < n
            invariant
                i <= n,
                n == self.entries@.len(),
                self.entries@ == s0,
                forall|k: int| 0 <= k < i ==> s0[k].0@ != policy@,
            decreases n - i,
        {
            if self.entries[i].0 == policy {
                proof {
                    assert(s0[i as int].0@ == policy@);
                }
                self.entries.set(i, (policy, decision));
                proof {
                    let s1 = self.entries@;
                    assert(s1 == s0.update(i as int, (policy, decision)));
                    assert forall|a: int, b: int| 0 <= a < b < s1.len() implies s1[a].0@
                        != s1[b].0@ by {
                        assert(s1[a].0@ == s0[a].0@) by {
                            if a == i {
                                assert(s1[a].0@ == policy@);
                            }
                        }
                        assert(s1[b].0@ == s0[b].0@) by {
                            if b == i {
                                assert(s1[b].0@ == policy@);
                            }
                        }
                    }
                    let target = decisions_model(s0).insert(policy@, decision@);
                    assert forall|q: Seq<char>| decisions_model(s1).contains_key(q) implies
                        target.contains_key(q) by {
                        lemma_decisions_model_key(s1, q);
                        lemma_decisions_model_key(s0, q);
                        let k = choose|k: int| 0 <= k < s1.len() && s1[k].0@ == q;
                        assert(s0[k].0@ == q) by {
                            if k == i {
                                assert(s1[k].0@ == policy@);
                            }
                        }
                    }
                    assert forall|q: Seq<char>| target.contains_key(q) implies decisions_model(
                        s1,
                    ).contains_key(q) by {
                        lemma_decisions_model_key(s1, q);
                        lemma_decisions_model_key(s0, q);
                        if q == policy@ {
                            assert(s1[i as int].0@ == q);
                        } else {
                            let k = choose|k: int| 0 <= k < s0.len() && s0[k].0@ == q;
                            assert(k != i);
                            assert(s1[k].0@ == q);
                        }
                    }
                    assert forall|q: Seq<char>| decisions_model(s1).contains_key(q) implies
                        decisions_model(s1)[q] == target[q] by {
                        lemma_decisions_model_key(s1, q);
                        if q == policy@ {
                            lemma_decisions_model_value(s1, i as int);
                        } else {
                            let k = choose|k: int| 0 <= k < s1.len() && s1[k].0@ == q;
                            assert(k != i);
                            lemma_decisions_model_value(s1, k);
                            lemma_decisions_model_value(s0, k);
                            assert(s1[k] == s0[k]);
                        }
                    }
                    assert(decisions_model(s1) =~= target);
                }
                return ;
            }
            i = i + 1;
        }
        self.entries.push((policy, decision));
        proof {
            let s1 = self.entries@;
            assert(s1.drop_last() =~= s0);
            assert(decisions_model(s1) == decisions_model(s0).insert(policy@, decision@));
            assert forall|a: int, b: int| 0 <= a < b < s1.len() implies s1[a].0@ != s1[b].0@ by {
                assert(s1[a] == s0[a]);
                if b < s1.len() - 1 {
                    assert(s1[b] == s0[b]);
                } else {
                    assert(s1[b].0@ == policy@);
                    assert(s0[a].0@ != policy@);
                }
            }
        }
    }

    /// Whether the policy has a recorded decision.
    #[verifier::loop_isolation(false)]
    pub fn contains_policy(&self, policy: &String) -> (r: bool)
        ensures
            r == self.model().contains_key(policy@),
    {
        proof {
            lemma_decisions_model_key(self.entries@, policy@);
        }
        let n = self.entries.len();
        let mut i: usize = 0;
        while i < n
            invariant
                i <= n,
                n == self.entries@.len(),
                forall|k: int| 0 <= k < i ==> self.entries@[k].0@ != policy@,
            decreases n - i,
        {
            if self.entries[i].0 == *policy {
                proof {
                    assert(self.entries@[i as int].0@ == policy@);
                }
                return true;
            }
            i = i + 1;
        }
        false
    }

    /// The completeness gate for one cluster: every registered policy has a
    /// recorded decision.
    #[verifier::loop_isolation(false)]
    pub fn is_complete(&self, policies: &Vec<String>) -> (r: bool)
        ensures
            r == map_complete(self.model(), policies@),
    {
        let n = policies.len();
        let mut k: usize = 0;
        while k < n
            invariant
                k <= n,
                n == policies@.len(),
                forall|q: int|
                    0 <= q < k ==> self.model().contains_key((#[trigger] policies@[q])@),
            decreases n - k,
        {
            if !self.contains_policy(&policies[k]) {
                return false;
            }
            k = k + 1;
        }
        true
    }

    /// Sum the recorded decisions up: the combined verdict is On exactly when
    /// some policy's decision is On.
    #[verifier::loop_isolation(false)]
    pub fn combined_on(&self) -> (r: bool)
        requires
            self.wf(),
        ensures
            r == map_any_on(self.model()),
    {
        let n = self.entries.len();
        let mut any: bool = false;
        let mut i: usize = 0;
        while i < n
            invariant
                i <= n,
                n == self.entries@.len(),
                any == exists|k: int| 0 <= k < i && (#[trigger] self.entries@[k]).1@.on(),
            decreases n - i,
        {
            if self.entries[i].1.cluster_on() {
                proof {
                    assert(self.entries@[i as int].1@.on());
                }
                any = true;
            } else {
                proof {
                    assert forall|k: int|
                        0 <= k < i + 1 && (#[trigger] self.entries@[k]).1@.on() implies exists|
                        k2: int,
                    | 0 <= k2 < i && (#[trigger] self.entries@[k2]).1@.on() by {
                        assert(k != i);
                    }
                }
            }
            i = i + 1;
        }
        proof {
            lemma_any_on(self.entries@);
        }
        any
    }

    /// The full list of recorded decisions, for the audit reason of a
    /// provisioning change.
    #[verifier::loop_isolation(false)]
    pub fn decisions_list(&self) -> (r: Vec<SchedulingDecision>)
        ensures
            r@.len() == self.entries@.len(),
            forall|i: int| 0 <= i < r@.len() ==> (#[trigger] r@[i])@ == self.entries@[i].1@,
    {
        let mut r: Vec<SchedulingDecision> = Vec::new();
        let n = self.entries.len();
        let mut i: usize = 0;
        while i < n
            invariant
                i <= n,
                n == self.entries@.len(),
                r@.len() == i,
                forall|k: int| 0 <= k < i ==> (#[trigger] r@[k])@ == self.entries@[k].1@,
            decreases n - i,
        {
            r.push(self.entries[i].1.duplicate());
            i = i + 1;
        }
        r
    }
}

/// Whether every registered policy has a decision in the per-cluster map.
pub open spec fn map_complete(m: Map<Seq<char>, DecisionView>, policies: Seq<String>) -> bool {
    forall|k: int| 0 <= k < policies.len() ==> m.contains_key((#[trigger] policies[k])@)
}

/// The combined verdict of a per-cluster map: On exactly when some recorded
/// decision is On.
pub open spec fn map_any_on(m: Map<Seq<char>, DecisionView>) -> bool {
    exists|p: Seq<char>| m.contains_key(p) && m[p].on()
}

/// The combined verdict over the model agrees with scanning the entry list.
pub proof fn lemma_any_on(s: Seq<(String, SchedulingDecision)>)
    requires
        unique_policies(s),
    ensures
        map_any_on(decisions_model(s)) <==> exists|i: int|
            0 <= i < s.len() && (#[trigger] s[i]).1@.on(),
{
    if map_any_on(decisions_model(s)) {
        let p = choose|p: Seq<char>|
            decisions_model(s).contains_key(p) && decisions_model(s)[p].on();
        lemma_decisions_model_key(s, p);
        let i = choose|i: int| 0 <= i < s.len() && s[i].0@ == p;
        lemma_decisions_model_value(s, i);
        assert(s[i].1@.on());
    }
    if exists|i: int| 0 <= i < s.len() && (#[trigger] s[i]).1@.on() {
        let i = choose|i: int| 0 <= i < s.len() && (#[trigger] s[i]).1@.on();
        lemma_decisions_model_value(s, i);
        assert(decisions_model(s).contains_key(s[i].0@) && decisions_model(s)[s[i].0@].on());
    }
}

impl DecisionStore {
    /// Unique cluster ids, and each cluster's decisions well formed.
    pub open spec fn wf(self) -> bool {
        &&& forall|a: int, b: int|
            0 <= a < b < self.entries@.len() ==> (#[trigger] self.entries@[a]).0 != (
            #[trigger] self.entries@[b]).0
        &&& forall|i: int| 0 <= i < self.entries@.len() ==> (#[trigger] self.entries@[i]).1.wf()
    }

    /// The map from cluster id to per-policy decisions that the store
    /// denotes.
    pub open spec fn model(self) -> Map<u64, Map<Seq<char>, DecisionView>> {
        store_model(self.entries@)
    }

    /// The empty store; the coordinator starts with it.
    pub fn new() -> (r: DecisionStore)
        ensures
            r.wf(),
            r.model() == Map::<u64, Map<Seq<char>, DecisionView>>::empty(),
    {
        DecisionStore { entries: Vec::new() }
    }

    /// Record one policy's decision for one cluster, creating the cluster's
    /// entry if absent and replacing the policy's earlier decision if any.
    #[verifier::rlimit(60)]
    #[verifier::loop_isolation(false)]
    pub fn insert_decision(&mut self, cluster_id: u64, policy: String, decision: SchedulingDecision)
        requires
            old(self).wf(),
        ensures
            final(self).wf(),
            final(self).model() == old(self).model().insert(
                cluster_id,
                or_empty(old(self).model(), cluster_id).insert(policy@, decision@),
            ),
    {
        let ghost s0 = self.entries@;
        let ghost m0 = store_model(s0);
        let n = self.entries.len();
        let mut i: usize = 0;
        while i < n
            invariant
                i <= n,
                n == self.entries@.len(),
                self.entries@ == s0,
                forall|k: int| 0 <= k < i ==> s0[k].0 != cluster_id,
            decreases n - i,
        {
            if self.entries[i].0 == cluster_id {
                let (id, mut cd) = self.entries.swap_remove(i);
                proof {
                    assert((id, cd) == s0[i as int]);
                    assert(cd == s0[i as int].1);
                    assert(cd.wf());
                }
                let ghost cd0 = cd;
                cd.insert(policy, decision);
                let ghost cd1 = cd;
                self.entries.push((id, cd));
                proof {
                    let s1 = self.entries@;
                    assert(id == cluster_id);
                    assert forall|k: int| 0 <= k < s1.len() - 1 implies s1[k] == (if k == i {
                        s0[s0.len() - 1]
                    } else {
                        s0[k]
                    }) by {}
                    assert(s1[s1.len() - 1] == (id, cd1));
                    assert(s1.len() == s0.len());
                    // unique ids and inner well-formedness are preserved
                    assert forall|a: int, b: int| 0 <= a < b < s1.len() implies s1[a].0
                        != s1[b].0 by {
                        if b == s1.len() - 1 {
                            if a == i {
                                assert(i < s0.len() - 1);
                                assert(s1[a].0 == s0[s0.len() - 1].0);
                                assert(s0[s0.len() - 1].0 != s0[i as int].0);
                            } else {
                                assert(s1[a].0 == s0[a].0 || s1[a].0 == s0[s0.len() - 1].0);
                                assert(s0[a].0 != s0[i as int].0);
                            }
                        } else {
                            if a == i {
                                assert(s1[a].0 == s0[s0.len() - 1].0 && s1[b].0 == s0[b].0);
                            } else if b == i {
                                assert(s1[a].0 == s0[a].0 && s1[b].0 == s0[s0.len() - 1].0);
                            } else {
                                assert(s1[a].0 == s0[a].0 && s1[b].0 == s0[b].0);
                            }
                        }
                    }
                    assert forall|k: int| 0 <= k < s1.len() implies (#[trigger] s1[k]).1.wf() by {
                        if k == s1.len() - 1 {
                        } else if k == i {
                            assert(s1[k].1 == s0[s0.len() - 1].1);
                        } else {
                            assert(s1[k].1 == s0[k].1);
                        }
                    }
                    let target = m0.insert(
                        cluster_id,
                        or_empty(m0, cluster_id).insert(policy@, decision@),
                    );
                    lemma_store_model_value(s0, i as int);
                    assert(or_empty(m0, cluster_id) == decisions_model(cd0.entries@));
                    assert(decisions_model(cd1.entries@) == decisions_model(cd0.entries@).insert(
                        policy@,
                        decision@,
                    ));
                    assert forall|c: u64| store_model(s1).contains_key(c) implies
                        target.contains_key(c) by {
                        lemma_store_model_key(s1, c);
                        lemma_store_model_key(s0, c);
                        let k = choose|k: int| 0 <= k < s1.len() && s1[k].0 == c;
                        if k == s1.len() - 1 {
                            assert(c == cluster_id);
                        } else if k == i {
                            assert(s0[s0.len() - 1].0 == c);
                        } else {
                            assert(s0[k].0 == c);
                        }
                    }
                    assert forall|c: u64| target.contains_key(c) implies store_model(
                        s1,
                    ).contains_key(c) by {
                        lemma_store_model_key(s1, c);
                        lemma_store_model_key(s0, c);
                        if c == cluster_id {
                            assert(s1[s1.len() - 1].0 == c);
                        } else {
                            let k = choose|k: int| 0 <= k < s0.len() && s0[k].0 == c;
                            assert(k != i);
                            if k == s0.len() - 1 {
                                assert(i < s0.len() - 1);
                                assert(s1[i as int].0 == c);
                            } else {
                                assert(s1[k].0 == c);
                            }
                        }
                    }
                    assert forall|c: u64| store_model(s1).contains_key(c) implies store_model(
                        s1,
                    )[c] == target[c] by {
                        lemma_store_model_key(s1, c);
                        if c == cluster_id {
                            lemma_store_model_value(s1, s1.len() - 1);
                        } else {
                            let k = choose|k: int| 0 <= k < s1.len() && s1[k].0 == c;
                            assert(k != s1.len() - 1);
                            lemma_store_model_value(s1, k);
                            if k == i {
                                lemma_store_model_value(s0, s0.len() - 1);
                                assert(s1[k] == s0[s0.len() - 1]);
                            } else {
                                lemma_store_model_value(s0, k);
                                assert(s1[k] == s0[k]);
                            }
                        }
                    }
                    assert(store_model(s1) =~= target);
                }
                return ;
            }
            i = i + 1;
        }
        let mut cd = ClusterDecisions::new();
        cd.insert(policy, decision);
        let ghost cd1 = cd;
        self.entries.push((cluster_id, cd));
        proof {
            let s1 = self.entries@;
            assert(s1.drop_last() =~= s0);
            lemma_store_model_key(s0, cluster_id);
            assert(!m0.contains_key(cluster_id));
            assert(decisions_model(cd1.entries@) =~= or_empty(m0, cluster_id).insert(
                policy@,
                decision@,
            ));
            assert(store_model(s1) == m0.insert(cluster_id, decisions_model(cd1.entries@)));
            assert(store_model(s1) =~= m0.insert(
                cluster_id,
                or_empty(m0, cluster_id).insert(policy@, decision@),
            ));
            assert forall|a: int, b: int| 0 <= a < b < s1.len() implies s1[a].0 != s1[b].0 by {
                assert(s1[a] == s0[a]);
                if b < s1.len() - 1 {
                    assert(s1[b] == s0[b]);
                } else {
                    assert(s1[b].0 == cluster_id);
                    assert(s0[a].0 != cluster_id);
                }
            }
            assert forall|k: int| 0 <= k < s1.len() implies (#[trigger] s1[k]).1.wf() by {
                if k < s1.len() - 1 {
                    assert(s1[k] == s0[k]);
                }
            }
        }
    }

    /// Merge a batch of `(policy name, [(cluster id, decision)])` pairs into
    /// the store, in order; for each `(cluster, policy)` key the batch's last
    /// decision wins.
    #[verifier::loop_isolation(false)]
    pub fn merge(&mut self, batch: &Vec<(String, Vec<(u64, SchedulingDecision)>)>)
        requires
            old(self).wf(),
        ensures
            final(self).wf(),
            final(self).model() == merge_batch(old(self).model(), batch@),
    {
        let ghost m0 = old(self).model();
        let n = batch.len();
        let mut i: usize = 0;
        proof {
            assert(batch@.take(0) =~= Seq::<(String, Vec<(u64, SchedulingDecision)>)>::empty());
        }
        while i < n
            invariant
                i <= n,
                n == batch@.len(),
                self.wf(),
                self.model() == merge_batch(m0, batch@.take(i as int)),
            decreases n - i,
        {
            let (policy_name, decisions) = &batch[i];
            let ghost mi = self.model();
            let m = decisions.len();
            let mut j: usize = 0;
            proof {
                assert(decisions@.take(0) =~= Seq::<(u64, SchedulingDecision)>::empty());
            }
            while j < m
                invariant
                    j <= m,
                    m == decisions@.len(),
                    self.wf(),
                    self.model() == merge_pairs(mi, policy_name@, decisions@.take(j as int)),
                decreases m - j,
            {
                let (cluster_id, decision) = &decisions[j];
                self.insert_decision(*cluster_id, policy_name.clone(), decision.duplicate());
                proof {
                    assert(decisions@.take(j as int + 1).drop_last() =~= decisions@.take(j as int));
                    assert(decisions@.take(j as int + 1).last() == decisions@[j as int]);
                }
                j = j + 1;
            }
            proof {
                assert(decisions@.take(m as int) =~= decisions@);
                assert(batch@.take(i as int + 1).drop_last() =~= batch@.take(i as int));
                assert(batch@.take(i as int + 1).last() == batch@[i as int]);
            }
            i = i + 1;
        }
        proof {
            assert(batch@.take(n as int) =~= batch@);
        }
    }

    /// Clean up those clusters that have been dropped, were switched to
    /// unmanaged, or were switched to manual scheduling. This runs on every
    /// reconciliation, so the store never keeps a stale entry.
    #[verifier::rlimit(60)]
    #[verifier::loop_isolation(false)]
    pub fn cleanup(&mut self, catalog: &CatalogSnapshot)
        requires
            old(self).wf(),
        ensures
            final(self).wf(),
            forall|c: u64|
                #![trigger final(self).model().contains_key(c)]
                final(self).model().contains_key(c) <==> old(self).model().contains_key(c)
                    && catalog.in_scheduling_scope(c),
            forall|c: u64|
                #![trigger final(self).model()[c]]
                final(self).model().contains_key(c) ==> final(self).model()[c] == old(
                    self,
                ).model()[c],
    {
        let ghost s0 = self.entries@;
        let ghost m0 = store_model(s0);
        let mut kept: Vec<(u64, ClusterDecisions)> = Vec::new();
        proof {
            assert(s0.take(s0.len() as int) =~= s0);
            assert(s0.skip(s0.len() as int) =~= Seq::<(u64, ClusterDecisions)>::empty());
        }
        while self.entries.len() > 0
            invariant
                self.entries@ == s0.take(self.entries@.len() as int),
                self.entries@.len() <= s0.len(),
                kept@ == scope_filter_rev(s0.skip(self.entries@.len() as int), *catalog),
            decreases self.entries@.len(),
        {
            let ghost old_len = self.entries@.len() as int;
            let popped = self.entries.pop();
            let ghost len = self.entries@.len() as int;
            proof {
                assert(len == old_len - 1);
                assert(s0.take(old_len).last() == s0[len]);
                assert(s0.take(old_len).drop_last() =~= s0.take(len));
                assert(s0.skip(len)[0] == s0[len]);
                assert(s0.skip(len).drop_first() =~= s0.skip(old_len));
            }
            if let Some(entry) = popped {
                proof {
                    assert(entry == s0[len]);
                }
                let (cluster_id, cd) = entry;
                let in_scope = match crate::catalog::get_managed_cluster_config(
                    catalog,
                    cluster_id,
                ) {
                    None => false,
                    Some(cfg) => !(matches!(cfg.schedule, ClusterSchedule::Manual)),
                };
                proof {
                    assert(in_scope == catalog.in_scheduling_scope(s0[len].0));
                }
                if in_scope {
                    kept.push((cluster_id, cd));
                }
                proof {
                    assert(kept@ =~= scope_filter_rev(s0.skip(len), *catalog));
                }
            }
        }
        proof {
            assert(s0.skip(0) =~= s0);
        }
        self.entries = kept;
        proof {
            let s1 = self.entries@;
            assert(s1 == scope_filter_rev(s0, *catalog));
            lemma_scope_filter_rev_unique(s0, *catalog);
            assert forall|k: int| 0 <= k < s1.len() implies (#[trigger] s1[k]).1.wf() by {
                lemma_scope_filter_rev_sub(s0, *catalog, k);
                let idx = choose|idx: int|
                    0 <= idx < s0.len() && s1[k] == s0[idx] && catalog.in_scheduling_scope(
                        s0[idx].0,
                    );
                assert(s0[idx].1.wf());
            }
            assert(self.wf());
            assert forall|c: u64| #![trigger store_model(s1).contains_key(c)]
                store_model(s1).contains_key(c) == (m0.contains_key(c)
                    && catalog.in_scheduling_scope(c)) by {
                lemma_store_model_key(s1, c);
                lemma_store_model_key(s0, c);
                if store_model(s1).contains_key(c) {
                    let k = choose|k: int| 0 <= k < s1.len() && s1[k].0 == c;
                    lemma_scope_filter_rev_sub(s0, *catalog, k);
                    let idx = choose|idx: int|
                        0 <= idx < s0.len() && s1[k] == s0[idx] && catalog.in_scheduling_scope(
                            s0[idx].0,
                        );
                    assert(s0[idx].0 == c);
                }
                if m0.contains_key(c) && catalog.in_scheduling_scope(c) {
                    let idx = choose|idx: int| 0 <= idx < s0.len() && s0[idx].0 == c;
                    lemma_scope_filter_rev_complete(s0, *catalog, idx);
                    let k = choose|k: int| 0 <= k < s1.len() && s1[k] == s0[idx];
                    assert(s1[k].0 == c);
                }
            }
            assert forall|c: u64| store_model(s1).contains_key(c) implies store_model(s1)[c]
                == m0[c] by {
                lemma_store_model_key(s1, c);
                let k = choose|k: int| 0 <= k < s1.len() && s1[k].0 == c;
                lemma_store_model_value(s1, k);
                lemma_scope_filter_rev_sub(s0, *catalog, k);
                let idx = choose|idx: int|
                    0 <= idx < s0.len() && s1[k] == s0[idx] && catalog.in_scheduling_scope(
                        s0[idx].0,
                    );
                lemma_store_model_value(s0, idx);
                assert(s0[idx].0 == c);
            }
        }
    }
}

/// The value recorded for a cluster, or the empty map when the cluster has
/// no entry.
pub open spec fn or_empty(m: Map<u64, Map<Seq<char>, DecisionView>>, c: u64) -> Map<
    Seq<char>,
    DecisionView,
> {
    if m.contains_key(c) {
        m[c]
    } else {
        Map::empty()
    }
}

/// The store model after merging one policy's `(cluster, decision)` pairs in
/// order.
pub open spec fn merge_pairs(
    m: Map<u64, Map<Seq<char>, DecisionView>>,
    policy: Seq<char>,
    ds: Seq<(u64, SchedulingDecision)>,
) -> Map<u64, Map<Seq<char>, DecisionView>>
    decreases ds.len(),
{
    if ds.len() == 0 {
        m
    } else {
        let m1 = merge_pairs(m, policy, ds.drop_last());
        m1.insert(ds.last().0, or_empty(m1, ds.last().0).insert(policy, ds.last().1@))
    }
}

/// The store model after merging a whole batch, policy by policy in order.
pub open spec fn merge_batch(
    m: Map<u64, Map<Seq<char>, DecisionView>>,
    batch: Seq<(String, Vec<(u64, SchedulingDecision)>)>,
) -> Map<u64, Map<Seq<char>, DecisionView>>
    decreases batch.len(),
{
    if batch.len() == 0 {
        m
    } else {
        merge_pairs(merge_batch(m, batch.drop_last()), batch.last().0@, batch.last().1@)
    }
}

/// The entries that stay in scope of automated scheduling, collected while
/// walking the entry list back to front.
pub open spec fn scope_filter_rev(
    s: Seq<(u64, ClusterDecisions)>,
    catalog: CatalogSnapshot,
) -> Seq<(u64, ClusterDecisions)>
    decreases s.len(),
{
    if s.len() == 0 {
        Seq::empty()
    } else {
        scope_filter_rev(s.drop_first(), catalog) + if catalog.in_scheduling_scope(s[0].0) {
            seq![s[0]]
        } else {
            Seq::empty()
        }
    }
}

/// Every filtered entry is one of the source entries, and is in scope.
pub proof fn lemma_scope_filter_rev_sub(s: Seq<(u64, ClusterDecisions)>, catalog: CatalogSnapshot, k: int)
    requires
        0 <= k < scope_filter_rev(s, catalog).len(),
    ensures
        exists|idx: int|
            0 <= idx < s.len() && scope_filter_rev(s, catalog)[k] == s[idx]
                && catalog.in_scheduling_scope(s[idx].0),
    decreases s.len(),
{
    let f = scope_filter_rev(s, catalog);
    let f1 = scope_filter_rev(s.drop_first(), catalog);
    if k < f1.len() {
        lemma_scope_filter_rev_sub(s.drop_first(), catalog, k);
        let idx = choose|idx: int|
            0 <= idx < s.drop_first().len() && f1[k] == s.drop_first()[idx]
                && catalog.in_scheduling_scope(s.drop_first()[idx].0);
        assert(s.drop_first()[idx] == s[idx + 1]);
        assert(f[k] == f1[k]);
        assert(0 <= idx + 1 < s.len() && f[k] == s[idx + 1] && catalog.in_scheduling_scope(
            s[idx + 1].0,
        ));
    } else {
        assert(catalog.in_scheduling_scope(s[0].0));
        assert(f[k] == s[0]);
    }
}

/// Every source entry that is in scope appears among the filtered entries.
pub proof fn lemma_scope_filter_rev_complete(
    s: Seq<(u64, ClusterDecisions)>,
    catalog: CatalogSnapshot,
    idx: int,
)
    requires
        0 <= idx < s.len(),
        catalog.in_scheduling_scope(s[idx].0),
    ensures
        exists|k: int|
            0 <= k < scope_filter_rev(s, catalog).len() && scope_filter_rev(s, catalog)[k]
                == s[idx],
    decreases s.len(),
{
    let f = scope_filter_rev(s, catalog);
    let f1 = scope_filter_rev(s.drop_first(), catalog);
    if idx == 0 {
        assert(f[f.len() - 1] == s[0]);
    } else {
        assert(s.drop_first()[idx - 1] == s[idx]);
        lemma_scope_filter_rev_complete(s.drop_first(), catalog, idx - 1);
        let k = choose|k: int| 0 <= k < f1.len() && f1[k] == s.drop_first()[idx - 1];
        assert(f[k] == f1[k]);
        assert(0 <= k < f.len() && f[k] == s[idx]);
    }
}

/// Filtering keeps the cluster ids unique.
pub proof fn lemma_scope_filter_rev_unique(s: Seq<(u64, ClusterDecisions)>, catalog: CatalogSnapshot)
    requires
        forall|a: int, b: int| 0 <= a < b < s.len() ==> s[a].0 != s[b].0,
    ensures
        forall|a: int, b: int|
            0 <= a < b < scope_filter_rev(s, catalog).len() ==> scope_filter_rev(s, catalog)[a].0
                != scope_filter_rev(s, catalog)[b].0,
    decreases s.len(),
{
    if s.len() > 0 {
        let st = s.drop_first();
        assert forall|a: int, b: int| 0 <= a < b < st.len() implies st[a].0 != st[b].0 by {
            assert(st[a] == s[a + 1]);
            assert(st[b] == s[b + 1]);
        }
        lemma_scope_filter_rev_unique(st, catalog);
        let f = scope_filter_rev(s, catalog);
        let f1 = scope_filter_rev(st, catalog);
        assert forall|a: int, b: int| 0 <= a < b < f.len() implies f[a].0 != f[b].0 by {
            if b < f1.len() {
                assert(f[a] == f1[a] && f[b] == f1[b]);
            } else {
                assert(catalog.in_scheduling_scope(s[0].0));
                assert(f[b] == s[0]);
                assert(f[a] == f1[a]);
                lemma_scope_filter_rev_sub(st, catalog, a);
                let idx = choose|idx: int|
                    0 <= idx < st.len() && f1[a] == st[idx] && catalog.in_scheduling_scope(
                        st[idx].0,
                    );
                assert(st[idx] == s[idx + 1]);
                assert(s[0].0 != s[idx + 1].0);
            }
        }
    }
}

/// Some pair in the list is for this cluster.
pub open spec fn pairs_mention(ds: Seq<(u64, SchedulingDecision)>, c: u64) -> bool {
    exists|j: int| 0 <= j < ds.len() && (#[trigger] ds[j]).0 == c
}

/// The last decision the list carries for this cluster.
pub open spec fn last_pair(ds: Seq<(u64, SchedulingDecision)>, c: u64) -> DecisionView
    decreases ds.len(),
{
    if ds.len() == 0 {
        arbitrary()
    } else if ds.last().0 == c {
        ds.last().1@
    } else {
        last_pair(ds.drop_last(), c)
    }
}

/// A cluster that the pair list does not mention is untouched by the merge.
pub proof fn lemma_merge_pairs_untouched(
    m: Map<u64, Map<Seq<char>, DecisionView>>,
    policy: Seq<char>,
    ds: Seq<(u64, SchedulingDecision)>,
    c: u64,
)
    requires
        !pairs_mention(ds, c),
    ensures
        merge_pairs(m, policy, ds).contains_key(c) == m.contains_key(c),
        m.contains_key(c) ==> merge_pairs(m, policy, ds)[c] == m[c],
    decreases ds.len(),
{
    if ds.len() > 0 {
        assert(ds[ds.len() - 1].0 != c);
        assert forall|j: int| 0 <= j < ds.drop_last().len() implies (
        #[trigger] ds.drop_last()[j]).0 != c by {
            assert(ds.drop_last()[j] == ds[j]);
        }
        lemma_merge_pairs_untouched(m, policy, ds.drop_last(), c);
    }
}

/// A cluster that the pair list mentions ends up with the policy's last
/// decision for it recorded, on top of whatever the cluster had before.
pub proof fn lemma_merge_pairs_hit(
    m: Map<u64, Map<Seq<char>, DecisionView>>,
    policy: Seq<char>,
    ds: Seq<(u64, SchedulingDecision)>,
    c: u64,
)
    requires
        pairs_mention(ds, c),
    ensures
        merge_pairs(m, policy, ds).contains_key(c),
        merge_pairs(m, policy, ds)[c] == or_empty(m, c).insert(policy, last_pair(ds, c)),
    decreases ds.len(),
{
    let m1 = merge_pairs(m, policy, ds.drop_last());
    if ds.last().0 == c {
        if pairs_mention(ds.drop_last(), c) {
            lemma_merge_pairs_hit(m, policy, ds.drop_last(), c);
            assert(or_empty(m1, c) == or_empty(m, c).insert(policy, last_pair(ds.drop_last(), c)));
            assert(or_empty(m1, c).insert(policy, ds.last().1@) =~= or_empty(m, c).insert(
                policy,
                ds.last().1@,
            ));
        } else {
            lemma_merge_pairs_untouched(m, policy, ds.drop_last(), c);
            assert(or_empty(m1, c) == or_empty(m, c));
        }
    } else {
        assert(pairs_mention(ds.drop_last(), c)) by {
            let j = choose|j: int| 0 <= j < ds.len() && (#[trigger] ds[j]).0 == c;
            assert(j < ds.len() - 1);
            assert(ds.drop_last()[j].0 == c);
        }
        lemma_merge_pairs_hit(m, policy, ds.drop_last(), c);
    }
}

/// Pointwise heart of the order-independence of merging: at each cluster,
/// merging two distinct policies' pair lists in either order records the
/// same decisions.
pub proof fn lemma_merge_policy_order_at(
    m: Map<u64, Map<Seq<char>, DecisionView>>,
    policy1: Seq<char>,
    ds1: Seq<(u64, SchedulingDecision)>,
    policy2: Seq<char>,
    ds2: Seq<(u64, SchedulingDecision)>,
    c: u64,
)
    requires
        policy1 != policy2,
    ensures
        merge_pairs(merge_pairs(m, policy1, ds1), policy2, ds2).contains_key(c) == merge_pairs(
            merge_pairs(m, policy2, ds2),
            policy1,
            ds1,
        ).contains_key(c),
        merge_pairs(merge_pairs(m, policy1, ds1), policy2, ds2).contains_key(c) ==> merge_pairs(
            merge_pairs(m, policy1, ds1),
            policy2,
            ds2,
        )[c] == merge_pairs(merge_pairs(m, policy2, ds2), policy1, ds1)[c],
{
    let l = merge_pairs(merge_pairs(m, policy1, ds1), policy2, ds2);
    let r = merge_pairs(merge_pairs(m, policy2, ds2), policy1, ds1);
    if pairs_mention(ds1, c) && pairs_mention(ds2, c) {
        lemma_merge_pairs_hit(m, policy1, ds1, c);
        lemma_merge_pairs_hit(merge_pairs(m, policy1, ds1), policy2, ds2, c);
        lemma_merge_pairs_hit(m, policy2, ds2, c);
        lemma_merge_pairs_hit(merge_pairs(m, policy2, ds2), policy1, ds1, c);
        assert(l[c] == or_empty(m, c).insert(policy1, last_pair(ds1, c)).insert(
            policy2,
            last_pair(ds2, c),
        ));
        assert(r[c] == or_empty(m, c).insert(policy2, last_pair(ds2, c)).insert(
            policy1,
            last_pair(ds1, c),
        ));
        assert(l[c] =~= r[c]);
    } else if pairs_mention(ds1, c) {
        lemma_merge_pairs_hit(m, policy1, ds1, c);
        lemma_merge_pairs_untouched(merge_pairs(m, policy1, ds1), policy2, ds2, c);
        lemma_merge_pairs_untouched(m, policy2, ds2, c);
        lemma_merge_pairs_hit(merge_pairs(m, policy2, ds2), policy1, ds1, c);
        assert(or_empty(merge_pairs(m, policy2, ds2), c) == or_empty(m, c));
    } else if pairs_mention(ds2, c) {
        lemma_merge_pairs_hit(m, policy2, ds2, c);
        lemma_merge_pairs_untouched(merge_pairs(m, policy2, ds2), policy1, ds1, c);
        lemma_merge_pairs_untouched(m, policy1, ds1, c);
        lemma_merge_pairs_hit(merge_pairs(m, policy1, ds1), policy2, ds2, c);
        assert(or_empty(merge_pairs(m, policy1, ds1), c) == or_empty(m, c));
    } else {
        lemma_merge_pairs_untouched(m, policy1, ds1, c);
        lemma_merge_pairs_untouched(merge_pairs(m, policy1, ds1), policy2, ds2, c);
        lemma_merge_pairs_untouched(m, policy2, ds2, c);
        lemma_merge_pairs_untouched(merge_pairs(m, policy2, ds2), policy1, ds1, c);
    }
}

/// Decision batches of two distinct policies converge to the same store
/// whichever arrives first: the merge is per `(cluster, policy)` key, so
/// the final state does not depend on arrival order.
pub proof fn lemma_merge_policy_order(
    m: Map<u64, Map<Seq<char>, DecisionView>>,
    policy1: Seq<char>,
    ds1: Seq<(u64, SchedulingDecision)>,
    policy2: Seq<char>,
    ds2: Seq<(u64, SchedulingDecision)>,
)
    requires
        policy1 != policy2,
    ensures
        merge_pairs(merge_pairs(m, policy1, ds1), policy2, ds2) == merge_pairs(
            merge_pairs(m, policy2, ds2),
            policy1,
            ds1,
        ),
{
    let l = merge_pairs(merge_pairs(m, policy1, ds1), policy2, ds2);
    let r = merge_pairs(merge_pairs(m, policy2, ds2), policy1, ds1);
    assert forall|c: u64| l.contains_key(c) == r.contains_key(c) by {
        lemma_merge_policy_order_at(m, policy1, ds1, policy2, ds2, c);
    }
    assert forall|c: u64| #[trigger] l.contains_key(c) implies l[c] == r[c] by {
        lemma_merge_policy_order_at(m, policy1, ds1, policy2, ds2, c);
    }
    assert(l =~= r);
}

/// The same, stated of whole one-policy batches as the reconciler takes
/// them: merging batch `b1` then `b2` leaves the same store as merging `b2`
/// then `b1`, as long as the two carry distinct policy names.
pub proof fn lemma_merge_batch_order(
    m: Map<u64, Map<Seq<char>, DecisionView>>,
    b1: (String, Vec<(u64, SchedulingDecision)>),
    b2: (String, Vec<(u64, SchedulingDecision)>),
)
    requires
        b1.0@ != b2.0@,
    ensures
        merge_batch(m, seq![b1, b2]) == merge_batch(m, seq![b2, b1]),
{
    let empty_batch = Seq::<(String, Vec<(u64, SchedulingDecision)>)>::empty();
    assert(merge_batch(m, empty_batch) == m);
    let s1 = seq![b1];
    let s2 = seq![b2];
    assert(s1.drop_last() =~= empty_batch);
    assert(s2.drop_last() =~= empty_batch);
    assert(merge_batch(m, s1) == merge_pairs(m, b1.0@, b1.1@));
    assert(merge_batch(m, s2) == merge_pairs(m, b2.0@, b2.1@));
    let s12 = seq![b1, b2];
    let s21 = seq![b2, b1];
    assert(s12.drop_last() =~= s1);
    assert(s21.drop_last() =~= s2);
    assert(s12.last() == b2 && s21.last() == b1);
    assert(merge_batch(m, s12) == merge_pairs(merge_pairs(m, b1.0@, b1.1@), b2.0@, b2.1@));
    assert(merge_batch(m, s21) == merge_pairs(merge_pairs(m, b2.0@, b2.1@), b1.0@, b1.1@));
    lemma_merge_policy_order(m, b1.0@, b1.1@, b2.0@, b2.1@);
}

} // verus!
