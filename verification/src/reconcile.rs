//! The reconciler: merge freshly arrived decisions into the store, drop the
//! clusters that left the scope of automated scheduling, and, for every
//! remaining cluster about which every registered policy has spoken, compare
//! the combined verdict with the cluster's provisioning and request a change
//! where they disagree.

use vstd::prelude::*;

use crate::catalog::{find_managed, CatalogSnapshot, ClusterSnapshot, ClusterVariant, ManagedConfig};
use crate::decision::{DecisionView, SchedulingDecision};
use crate::store::{
    decisions_model, map_any_on, map_complete, merge_batch, lemma_decisions_model_key,
    lemma_decisions_model_value, lemma_store_model_key, lemma_store_model_value, DecisionStore,
};

verus! {

/// A request to change one cluster's provisioning, with the full set of
/// per-policy decisions that justified it as the audit reason.
pub struct ProvisioningChange {
    pub cluster_id: u64,
    /// 1 to turn the cluster On, 0 to turn it Off.
    pub new_replication_factor: u32,
    /// Every policy's recorded decision for the cluster.
    pub reason: Vec<SchedulingDecision>,
}

/// The decision is among the values recorded for the cluster.
pub open spec fn decision_recorded(mc: Map<Seq<char>, DecisionView>, v: DecisionView) -> bool {
    exists|p: Seq<char>| mc.contains_key(p) && mc[p] == v
}

/// The decision is listed in the reason.
pub open spec fn reason_lists(reason: Seq<SchedulingDecision>, v: DecisionView) -> bool {
    exists|j: int| 0 <= j < reason.len() && (#[trigger] reason[j])@ == v
}

/// The attached reason is exactly the set of recorded decisions: every
/// listed decision is recorded for the cluster, and every recorded decision
/// is listed.
pub open spec fn reason_matches(
    mc: Map<Seq<char>, DecisionView>,
    reason: Seq<SchedulingDecision>,
) -> bool {
    &&& forall|j: int|
        #![trigger reason[j]]
        0 <= j < reason.len() ==> decision_recorded(mc, reason[j]@)
    &&& forall|p: Seq<char>|
        #![trigger mc.contains_key(p)]
        mc.contains_key(p) ==> reason_lists(reason, mc[p])
}

/// A list that copies the recorded decisions in order is a faithful reason.
pub proof fn lemma_reason_matches(
    entries: Seq<(String, SchedulingDecision)>,
    reason: Seq<SchedulingDecision>,
)
    requires
        crate::store::unique_policies(entries),
        reason.len() == entries.len(),
        forall|j: int| 0 <= j < reason.len() ==> (#[trigger] reason[j])@ == entries[j].1@,
    ensures
        reason_matches(decisions_model(entries), reason),
{
    assert forall|j: int| #![trigger reason[j]] 0 <= j < reason.len() implies decision_recorded(
        decisions_model(entries),
        reason[j]@,
    ) by {
        lemma_decisions_model_value(entries, j);
        assert(decisions_model(entries).contains_key(entries[j].0@) && decisions_model(
            entries,
        )[entries[j].0@] == reason[j]@);
    }
    assert forall|p: Seq<char>| #![trigger decisions_model(entries).contains_key(p)]
        decisions_model(entries).contains_key(p) implies reason_lists(
        reason,
        decisions_model(entries)[p],
    ) by {
        lemma_decisions_model_key(entries, p);
        let j = choose|j: int| 0 <= j < entries.len() && entries[j].0@ == p;
        lemma_decisions_model_value(entries, j);
        assert(0 <= j < reason.len() && reason[j]@ == decisions_model(entries)[p]);
    }
}

/// One requested change is justified: its cluster is tracked, every
/// registered policy has reported for it, the cluster is managed, the
/// combined verdict disagrees with the current provisioning, the requested
/// replica count follows the verdict, and the attached reason is exactly the
/// set of recorded decisions.
pub open spec fn change_justified(
    m: Map<u64, Map<Seq<char>, DecisionView>>,
    catalog: CatalogSnapshot,
    policies: Seq<String>,
    a: ProvisioningChange,
) -> bool {
    &&& m.contains_key(a.cluster_id)
    &&& map_complete(m[a.cluster_id], policies)
    &&& catalog.managed_config(a.cluster_id) is Some
    &&& map_any_on(m[a.cluster_id]) != (catalog.managed_config(
        a.cluster_id,
    )->Some_0.replication_factor > 0)
    &&& a.new_replication_factor == (if map_any_on(m[a.cluster_id]) {
        1u32
    } else {
        0u32
    })
    &&& reason_matches(m[a.cluster_id], a.reason@)
}

/// Every requested change is justified.
pub open spec fn changes_sound(
    m: Map<u64, Map<Seq<char>, DecisionView>>,
    catalog: CatalogSnapshot,
    policies: Seq<String>,
    changes: Seq<ProvisioningChange>,
) -> bool {
    forall|k: int|
        0 <= k < changes.len() ==> change_justified(m, catalog, policies, #[trigger] changes[k])
}

/// Every tracked cluster whose combined verdict disagrees with its current
/// provisioning, once every registered policy has reported for it, receives
/// a change request.
pub open spec fn changes_complete(
    m: Map<u64, Map<Seq<char>, DecisionView>>,
    catalog: CatalogSnapshot,
    policies: Seq<String>,
    changes: Seq<ProvisioningChange>,
) -> bool {
    forall|c: u64|
        #[trigger] m.contains_key(c) && map_complete(m[c], policies) && catalog.managed_config(c)
            is Some && map_any_on(m[c]) != (catalog.managed_config(c)->Some_0.replication_factor
            > 0) ==> exists|k: int| 0 <= k < changes.len() && (#[trigger] changes[k]).cluster_id
            == c
}

/// No cluster receives two change requests.
pub open spec fn changes_unique(changes: Seq<ProvisioningChange>) -> bool {
    forall|k: int, l: int|
        0 <= k < l < changes.len() ==> (#[trigger] changes[k]).cluster_id != (
        #[trigger] changes[l]).cluster_id
}

/// Act on the tracked decisions: for every tracked cluster about which every
/// registered policy has reported, combine the verdicts with logical OR,
/// compare against the cluster's current provisioning, and request a change
/// where they disagree. Clusters with an incomplete set of decisions are
/// left untouched.
#[verifier::rlimit(100)]
pub fn compute_changes(
    store: &DecisionStore,
    catalog: &CatalogSnapshot,
    policies: &Vec<String>,
) -> (changes: Vec<ProvisioningChange>)
    requires
        store.wf(),
        forall|c: u64| store.model().contains_key(c) ==> catalog.in_scheduling_scope(c),
    ensures
        changes_sound(store.model(), *catalog, policies@, changes@),
        changes_complete(store.model(), *catalog, policies@, changes@),
        changes_unique(changes@),
{
    let ghost s = store.entries@;
    let ghost m = store.model();
    let mut changes: Vec<ProvisioningChange> = Vec::new();
    let n = store.entries.len();
    let mut i: usize = 0;
    while i < n
        invariant
            i <= n,
            n == s.len(),
            s == store.entries@,
            m == store.model(),
            store.wf(),
            forall|c: u64| m.contains_key(c) ==> catalog.in_scheduling_scope(c),
            changes_sound(m, *catalog, policies@, changes@),
            changes_unique(changes@),
            forall|k: int|
                0 <= k < changes@.len() ==> exists|idx: int|
                    0 <= idx < i && (#[trigger] changes@[k]).cluster_id == s[idx].0,
            forall|idx: int|
                0 <= idx < i && map_complete(decisions_model((#[trigger] s[idx]).1.entries@),
                    policies@) && catalog.managed_config(s[idx].0) is Some && map_any_on(
                    decisions_model(s[idx].1.entries@),
                ) != (catalog.managed_config(s[idx].0)->Some_0.replication_factor > 0)
                    ==> exists|k: int|
                    0 <= k < changes@.len() && (#[trigger] changes@[k]).cluster_id == s[idx].0,
        decreases n - i,
    {
        let cluster_id = store.entries[i].0;
        let cd = &store.entries[i].1;
        proof {
            lemma_store_model_value(s, i as int);
            assert(m.contains_key(cluster_id));
            assert(m[cluster_id] == cd.model());
        }
        // We touch a cluster only when all policies have made a decision
        // about it, so that after a restart every policy gets a chance to
        // run at least once before we turn off a cluster; acting on a subset
        // of opinions could spuriously lose a hydrated state.
        if cd.is_complete(policies) {
            // If any policy says On, then we need a replica.
            let needs_replica = cd.combined_on();
            let cfg_opt = crate::catalog::get_managed_cluster_config(catalog, cluster_id);
            proof {
                assert(catalog.in_scheduling_scope(cluster_id));
            }
            let cfg = match cfg_opt {
                Some(cfg) => cfg,
                None => {
                    // cleaned up non-existing and unmanaged clusters before
                    proof {
                        assert(false);
                    }
                    ManagedConfig {
                        schedule: crate::catalog::ClusterSchedule::Manual,
                        replication_factor: 0,
                    }
                },
            };
            let has_replica = cfg.replication_factor > 0;  // Is it On?
            if needs_replica != has_replica {
                // Turn the cluster On or Off.
                let reason = cd.decisions_list();
                proof {
                    lemma_reason_matches(cd.entries@, reason@);
                    assert(reason_matches(m[cluster_id], reason@));
                }
                let change = ProvisioningChange {
                    cluster_id,
                    new_replication_factor: if needs_replica {
                        1
                    } else {
                        0
                    },
                    reason,
                };
                let ghost old_changes = changes@;
                changes.push(change);
                proof {
                    assert(changes@.drop_last() == old_changes);
                    let a = changes@.last();
                    assert(a.cluster_id == cluster_id && a.reason@ == reason@
                        && a.new_replication_factor == (if needs_replica {
                        1u32
                    } else {
                        0u32
                    }));
                    assert(m.contains_key(a.cluster_id));
                    assert(map_complete(m[a.cluster_id], policies@));
                    assert(catalog.managed_config(a.cluster_id) is Some);
                    assert(map_any_on(m[a.cluster_id]) != (catalog.managed_config(
                        a.cluster_id,
                    )->Some_0.replication_factor > 0));
                    assert(change_justified(m, *catalog, policies@, changes@.last()));
                    assert forall|k: int|
                        0 <= k < changes@.len() implies change_justified(
                        m,
                        *catalog,
                        policies@,
                        #[trigger] changes@[k],
                    ) by {
                        if k < changes@.len() - 1 {
                            assert(changes@[k] == old_changes[k]);
                        }
                    }
                    assert forall|k: int, l: int| 0 <= k < l < changes@.len() implies (
                    #[trigger] changes@[k]).cluster_id != (#[trigger] changes@[l]).cluster_id by {
                        if l == changes@.len() - 1 {
                            let idx = choose|idx: int|
                                0 <= idx < i && old_changes[k].cluster_id == s[idx].0;
                            assert(s[idx].0 != s[i as int].0);
                        }
                    }
                    assert forall|k: int| 0 <= k < changes@.len() implies exists|idx: int|
                        0 <= idx < i + 1 && (#[trigger] changes@[k]).cluster_id == s[idx].0 by {
                        if k < changes@.len() - 1 {
                            let idx = choose|idx: int|
                                0 <= idx < i && old_changes[k].cluster_id == s[idx].0;
                            assert(0 <= idx < i + 1 && changes@[k].cluster_id == s[idx].0);
                        } else {
                            assert(changes@[k].cluster_id == s[i as int].0);
                        }
                    }
                }
            }
        }
        i = i + 1;
    }
    proof {
        assert forall|c: u64|
            #[trigger] m.contains_key(c) && map_complete(m[c], policies@)
                && catalog.managed_config(c) is Some && map_any_on(m[c]) != (
            catalog.managed_config(c)->Some_0.replication_factor > 0) implies exists|k: int|
            0 <= k < changes@.len() && (#[trigger] changes@[k]).cluster_id == c by {
            lemma_store_model_key(s, c);
            let idx = choose|idx: int| 0 <= idx < s.len() && s[idx].0 == c;
            lemma_store_model_value(s, idx);
            assert(decisions_model(s[idx].1.entries@) == m[c]);
        }
    }
    changes
}

/// One reconciliation step, run whenever a batch of scheduling decisions
/// arrives: merge the batch into the store, garbage-collect the clusters
/// that left the scope of automated scheduling, and compute the provisioning
/// changes that the remaining decisions call for.
pub fn reconcile(
    store: &mut DecisionStore,
    batch: &Vec<(String, Vec<(u64, SchedulingDecision)>)>,
    catalog: &CatalogSnapshot,
    policies: &Vec<String>,
) -> (changes: Vec<ProvisioningChange>)
    requires
        old(store).wf(),
    ensures
        final(store).wf(),
        // the store holds the merged decisions of exactly the clusters that
        // are still in scope: a dropped, unmanaged or manually scheduled
        // cluster is absent, even if the batch still carried decisions for it
        forall|c: u64|
            #![trigger final(store).model().contains_key(c)]
            final(store).model().contains_key(c) <==> merge_batch(old(store).model(), batch@)
                .contains_key(c) && catalog.in_scheduling_scope(c),
        forall|c: u64|
            #![trigger final(store).model()[c]]
            final(store).model().contains_key(c) ==> final(store).model()[c] == merge_batch(
                old(store).model(),
                batch@,
            )[c],
        changes_sound(final(store).model(), *catalog, policies@, changes@),
        changes_complete(final(store).model(), *catalog, policies@, changes@),
        changes_unique(changes@),
{
    store.merge(batch);
    let ghost merged = store.model();
    proof {
        assert(merged == merge_batch(old(store).model(), batch@));
    }
    store.cleanup(catalog);
    proof {
        assert forall|c: u64| store.model().contains_key(c) implies catalog.in_scheduling_scope(
            c,
        ) by {}
    }
    compute_changes(store, catalog, policies)
}


/// Some change in the list is for this cluster.
pub open spec fn has_change(changes: Seq<ProvisioningChange>, c: u64) -> bool {
    exists|k: int| 0 <= k < changes.len() && (#[trigger] changes[k]).cluster_id == c
}

/// The replica count that the list requests for this cluster.
pub open spec fn change_factor(changes: Seq<ProvisioningChange>, c: u64) -> u32 {
    changes[choose|k: int|
        0 <= k < changes.len() && (#[trigger] changes[k]).cluster_id == c].new_replication_factor
}

/// The second catalog is the first with every requested replication factor
/// applied, and nothing else changed: same clusters in the same order, same
/// management modes, same schedules.
pub open spec fn changes_applied(
    catalog: CatalogSnapshot,
    changes: Seq<ProvisioningChange>,
    catalog2: CatalogSnapshot,
) -> bool {
    &&& catalog2.clusters@.len() == catalog.clusters@.len()
    &&& forall|k: int|
        #![trigger catalog2.clusters@[k]]
        0 <= k < catalog.clusters@.len() ==> cluster_change_applied(
            catalog.clusters@[k],
            changes,
            catalog2.clusters@[k],
        )
}

/// One cluster after a change list was applied: the replication factor
/// follows the cluster's change if it has one; everything else is as before.
pub open spec fn cluster_change_applied(
    cl: ClusterSnapshot,
    changes: Seq<ProvisioningChange>,
    cl2: ClusterSnapshot,
) -> bool {
    &&& cl2.id == cl.id
    &&& if has_change(changes, cl.id) {
        match cl.variant {
            ClusterVariant::Managed(cfg) => cl2.variant == ClusterVariant::Managed(
                ManagedConfig {
                    schedule: cfg.schedule,
                    replication_factor: change_factor(changes, cl.id),
                },
            ),
            ClusterVariant::Unmanaged => cl2.variant == ClusterVariant::Unmanaged,
        }
    } else {
        cl2.variant == cl.variant
    }
}

/// Applying a change list only rewrites replication factors: a cluster's
/// managed configuration keeps its schedule, and existence and managed-ness
/// are untouched.
pub proof fn lemma_find_managed_applied(
    s1: Seq<ClusterSnapshot>,
    s2: Seq<ClusterSnapshot>,
    changes: Seq<ProvisioningChange>,
    id: u64,
)
    requires
        s1.len() == s2.len(),
        forall|k: int|
            #![trigger s2[k]]
            0 <= k < s1.len() ==> cluster_change_applied(s1[k], changes, s2[k]),
    ensures
        find_managed(s1, id) is None ==> find_managed(s2, id) is None,
        find_managed(s1, id) matches Some(cfg) ==> find_managed(s2, id) == Some(
            ManagedConfig {
                schedule: cfg.schedule,
                replication_factor: if has_change(changes, id) {
                    change_factor(changes, id)
                } else {
                    cfg.replication_factor
                },
            },
        ),
    decreases s1.len(),
{
    if s1.len() > 0 {
        assert(cluster_change_applied(s1[0], changes, s2[0]));
        if s1[0].id == id {
        } else {
            assert forall|k: int|
                #![trigger s2.drop_first()[k]]
                0 <= k < s1.drop_first().len() implies cluster_change_applied(
                s1.drop_first()[k],
                changes,
                s2.drop_first()[k],
            ) by {
                assert(s1.drop_first()[k] == s1[k + 1]);
                assert(s2.drop_first()[k] == s2[k + 1]);
            }
            lemma_find_managed_applied(s1.drop_first(), s2.drop_first(), changes, id);
        }
    }
}

/// Idempotence: once the changes of a reconciliation were applied to the
/// catalog, a second reconciliation with no new decisions and no other state
/// change issues nothing, and the store's content is unchanged. `m` is the
/// store after the first reconciliation, `second_m` after the second;
/// `catalog2` is the catalog with the first run's changes applied.
pub proof fn lemma_reconcile_idempotent(
    m: Map<u64, Map<Seq<char>, DecisionView>>,
    catalog: CatalogSnapshot,
    catalog2: CatalogSnapshot,
    second_m: Map<u64, Map<Seq<char>, DecisionView>>,
    policies: Seq<String>,
    first: Seq<ProvisioningChange>,
    second: Seq<ProvisioningChange>,
)
    requires
        forall|c: u64| #[trigger] m.contains_key(c) ==> catalog.in_scheduling_scope(c),
        changes_sound(m, catalog, policies, first),
        changes_complete(m, catalog, policies, first),
        changes_unique(first),
        changes_applied(catalog, first, catalog2),
        // the second run merged an empty batch and cleaned against catalog2,
        // as reconcile's ensures state of it
        forall|c: u64|
            #[trigger] second_m.contains_key(c) <==> m.contains_key(c)
                && catalog2.in_scheduling_scope(c),
        forall|c: u64| #[trigger] second_m.contains_key(c) ==> second_m[c] == m[c],
        changes_sound(second_m, catalog2, policies, second),
    ensures
        second.len() == 0,
        forall|c: u64| #[trigger] second_m.contains_key(c) <==> m.contains_key(c),
        forall|c: u64| #[trigger] second_m.contains_key(c) ==> second_m[c] == m[c],
{
    assert forall|c: u64| #[trigger] m.contains_key(c) implies catalog2.in_scheduling_scope(
        c,
    ) by {
        lemma_find_managed_applied(catalog.clusters@, catalog2.clusters@, first, c);
    }
    if second.len() > 0 {
        let a = second[0];
        assert(change_justified(second_m, catalog2, policies, a));
        let c = a.cluster_id;
        assert(m.contains_key(c) && second_m[c] == m[c]);
        assert(catalog.in_scheduling_scope(c));
        let cfg1 = catalog.managed_config(c)->Some_0;
        lemma_find_managed_applied(catalog.clusters@, catalog2.clusters@, first, c);
        if has_change(first, c) {
            // the first run set the replica count to the combined verdict,
            // so the second run sees no mismatch
            let k1 = choose|k: int|
                0 <= k < first.len() && (#[trigger] first[k]).cluster_id == c;
            assert(change_justified(m, catalog, policies, first[k1]));
            let kc = choose|k: int|
                0 <= k < first.len() && (#[trigger] first[k]).cluster_id == c;
            assert(kc == k1) by {
                if kc != k1 {
                    assert(first[kc].cluster_id != first[k1].cluster_id);
                }
            }
            assert(change_factor(first, c) == (if map_any_on(m[c]) {
                1u32
            } else {
                0u32
            }));
            assert(catalog2.managed_config(c)->Some_0.replication_factor == change_factor(
                first,
                c,
            ));
            assert(map_any_on(second_m[c]) == (catalog2.managed_config(
                c,
            )->Some_0.replication_factor > 0));
            assert(false);
        } else {
            // the first run saw no mismatch, and the replica count did not
            // change, so the second run sees none either
            assert(map_any_on(m[c]) == (cfg1.replication_factor > 0)) by {
                if map_any_on(m[c]) != (cfg1.replication_factor > 0) {
                    assert(has_change(first, c));
                }
            }
            assert(catalog2.managed_config(c)->Some_0.replication_factor
                == cfg1.replication_factor);
            assert(false);
        }
    }
}

/// The completeness gate: as long as some registered policy has no recorded
/// decision for a tracked cluster, no change request touches that cluster,
/// whatever the policies that did report decided.
pub proof fn lemma_completeness_gate(
    m: Map<u64, Map<Seq<char>, DecisionView>>,
    catalog: CatalogSnapshot,
    policies: Seq<String>,
    changes: Seq<ProvisioningChange>,
    c: u64,
    k: int,
)
    requires
        changes_sound(m, catalog, policies, changes),
        m.contains_key(c),
        0 <= k < policies.len(),
        !m[c].contains_key(policies[k]@),
    ensures
        forall|j: int| 0 <= j < changes.len() ==> (#[trigger] changes[j]).cluster_id != c,
{
    assert forall|j: int| 0 <= j < changes.len() implies (#[trigger] changes[j]).cluster_id
        != c by {
        if changes[j].cluster_id == c {
            assert(map_complete(m[c], policies));
            assert(m[c].contains_key(policies[k]@));
        }
    }
}

/// OR-combination: if any recorded decision for a cluster is On, the
/// combined verdict is On, however many others are Off.
pub proof fn lemma_or_combination(m: Map<Seq<char>, DecisionView>, p: Seq<char>)
    requires
        m.contains_key(p),
        m[p].on(),
    ensures
        map_any_on(m),
{
}

} // verus!
