use cluster_scheduling::catalog::{
    CatalogSnapshot, ClusterSchedule, ClusterSnapshot, ClusterVariant, ManagedConfig, ObjectInfo,
    ObjectKind,
};
use cluster_scheduling::decision::{RefreshDecision, SchedulingDecision};
use cluster_scheduling::reconcile::reconcile;
use cluster_scheduling::refresh::{
    collect_refresh_frontiers, make_refresh_decisions, needs_refresh, refresh_policy_batch,
    registered_policies,
};
use cluster_scheduling::store::DecisionStore;

fn refresh_catalog(id: u64, estimate_ms: u64, replication_factor: u32, frontier: u64) -> CatalogSnapshot {
    CatalogSnapshot {
        clusters: vec![ClusterSnapshot {
            id,
            variant: ClusterVariant::Managed(ManagedConfig {
                schedule: ClusterSchedule::Refresh { rehydration_time_estimate_ms: estimate_ms },
                replication_factor,
            }),
            bound_objects: vec![ObjectInfo {
                id: 7,
                kind: ObjectKind::MaterializedView { has_refresh_schedule: true },
                write_frontier: Some(frontier),
            }],
        }],
    }
}

#[test]
fn deadline_arithmetic_boundary() {
    // needs a refresh iff frontier < read_ts + estimate; equality is "no"
    assert!(needs_refresh(100, 96, 5));
    assert!(!needs_refresh(101, 96, 5));
    assert!(!needs_refresh(102, 96, 5));
}

#[test]
fn refresh_cycle_turns_cluster_on() {
    // cluster with 0 replicas, frontier 100, read ts 96, estimate 5:
    // adjusted deadline 101, 100 < 101 so the verdict is On
    let catalog = refresh_catalog(1, 5, 0, 100);
    let frontiers = collect_refresh_frontiers(&catalog);
    assert_eq!(frontiers.len(), 1);
    let decisions = make_refresh_decisions(frontiers, 96);
    assert_eq!(decisions.len(), 1);
    assert!(decisions[0].1.cluster_on());
    let batch = refresh_policy_batch(decisions);
    assert_eq!(batch[0].0, "refresh");
    let mut store = DecisionStore::new();
    let policies = registered_policies();
    let changes = reconcile(&mut store, &batch, &catalog, &policies);
    assert_eq!(changes.len(), 1);
    assert_eq!(changes[0].cluster_id, 1);
    assert_eq!(changes[0].new_replication_factor, 1);
    assert_eq!(changes[0].reason.len(), 1);
    match &changes[0].reason[0] {
        SchedulingDecision::Refresh(r) => {
            assert!(r.cluster_on);
            assert_eq!(r.objects_needing_refresh, vec![7]);
            assert_eq!(r.rehydration_time_estimate_ms, 5);
        }
    }
}

#[test]
fn later_cycle_turns_cluster_off() {
    // frontier advances past the adjusted deadline: verdict Off, and a
    // provisioned cluster is asked to drop to zero replicas
    let catalog = refresh_catalog(1, 5, 1, 102);
    let frontiers = collect_refresh_frontiers(&catalog);
    let decisions = make_refresh_decisions(frontiers, 96);
    assert!(!decisions[0].1.cluster_on());
    let batch = refresh_policy_batch(decisions);
    let mut store = DecisionStore::new();
    let policies = registered_policies();
    let changes = reconcile(&mut store, &batch, &catalog, &policies);
    assert_eq!(changes.len(), 1);
    assert_eq!(changes[0].new_replication_factor, 0);
}

#[test]
fn completeness_gate_holds_back_partial_reports() {
    // two registered policies, only one has reported: no change, even
    // though the reported verdict disagrees with the cluster state
    let catalog = refresh_catalog(1, 5, 0, 100);
    let decision = SchedulingDecision::Refresh(RefreshDecision {
        cluster_on: true,
        objects_needing_refresh: vec![7],
        rehydration_time_estimate_ms: 5,
    });
    let batch = vec![("refresh".to_string(), vec![(1u64, decision)])];
    let mut store = DecisionStore::new();
    let policies = vec!["refresh".to_string(), "other".to_string()];
    let changes = reconcile(&mut store, &batch, &catalog, &policies);
    assert!(changes.is_empty());
}

#[test]
fn or_combination_any_on_wins() {
    // one policy Off, another On: the combined verdict is On
    let catalog = refresh_catalog(1, 5, 0, 102);
    let off = SchedulingDecision::Refresh(RefreshDecision {
        cluster_on: false,
        objects_needing_refresh: vec![],
        rehydration_time_estimate_ms: 5,
    });
    let on = SchedulingDecision::Refresh(RefreshDecision {
        cluster_on: true,
        objects_needing_refresh: vec![7],
        rehydration_time_estimate_ms: 5,
    });
    let batch = vec![
        ("refresh".to_string(), vec![(1u64, off)]),
        ("other".to_string(), vec![(1u64, on)]),
    ];
    let mut store = DecisionStore::new();
    let policies = vec!["refresh".to_string(), "other".to_string()];
    let changes = reconcile(&mut store, &batch, &catalog, &policies);
    assert_eq!(changes.len(), 1);
    assert_eq!(changes[0].new_replication_factor, 1);
}

#[test]
fn garbage_collection_drops_stale_clusters() {
    // decisions still in flight for a dropped cluster, a cluster switched to
    // unmanaged, and a cluster switched to manual: none may stay tracked
    let decision = || SchedulingDecision::Refresh(RefreshDecision {
        cluster_on: true,
        objects_needing_refresh: vec![7],
        rehydration_time_estimate_ms: 5,
    });
    let batch = vec![(
        "refresh".to_string(),
        vec![(1u64, decision()), (2u64, decision()), (3u64, decision())],
    )];
    // cluster 1 no longer exists, cluster 2 is unmanaged, cluster 3 is manual
    let catalog = CatalogSnapshot {
        clusters: vec![
            ClusterSnapshot { id: 2, variant: ClusterVariant::Unmanaged, bound_objects: vec![] },
            ClusterSnapshot {
                id: 3,
                variant: ClusterVariant::Managed(ManagedConfig {
                    schedule: ClusterSchedule::Manual,
                    replication_factor: 1,
                }),
                bound_objects: vec![],
            },
        ],
    };
    let mut store = DecisionStore::new();
    let policies = registered_policies();
    let changes = reconcile(&mut store, &batch, &catalog, &policies);
    assert!(changes.is_empty());
    assert!(store.entries.is_empty());
}

#[test]
fn reconcile_again_after_apply_is_quiet() {
    // once the requested change is applied to the catalog, a second cycle
    // with no new decisions issues nothing
    let catalog = refresh_catalog(1, 5, 0, 100);
    let frontiers = collect_refresh_frontiers(&catalog);
    let decisions = make_refresh_decisions(frontiers, 96);
    let batch = refresh_policy_batch(decisions);
    let mut store = DecisionStore::new();
    let policies = registered_policies();
    let changes = reconcile(&mut store, &batch, &catalog, &policies);
    assert_eq!(changes.len(), 1);
    let applied = refresh_catalog(1, 5, changes[0].new_replication_factor, 100);
    let changes2 = reconcile(&mut store, &vec![], &applied, &policies);
    assert!(changes2.is_empty());
}

#[test]
fn manual_clusters_are_never_collected() {
    // the snapshot phase skips manual and unmanaged clusters entirely
    let catalog = CatalogSnapshot {
        clusters: vec![
            ClusterSnapshot {
                id: 1,
                variant: ClusterVariant::Managed(ManagedConfig {
                    schedule: ClusterSchedule::Manual,
                    replication_factor: 1,
                }),
                bound_objects: vec![],
            },
            ClusterSnapshot { id: 2, variant: ClusterVariant::Unmanaged, bound_objects: vec![] },
        ],
    };
    let frontiers = collect_refresh_frontiers(&catalog);
    assert!(frontiers.is_empty());
}

#[test]
fn empty_frontier_list_votes_off() {
    // a refresh cluster with no refresh-scheduled materialized views is Off
    let catalog = CatalogSnapshot {
        clusters: vec![ClusterSnapshot {
            id: 1,
            variant: ClusterVariant::Managed(ManagedConfig {
                schedule: ClusterSchedule::Refresh { rehydration_time_estimate_ms: 5 },
                replication_factor: 0,
            }),
            bound_objects: vec![ObjectInfo {
                id: 9,
                kind: ObjectKind::Other,
                write_frontier: None,
            }],
        }],
    };
    let frontiers = collect_refresh_frontiers(&catalog);
    assert_eq!(frontiers.len(), 1);
    assert!(frontiers[0].refresh_mv_write_frontiers.is_empty());
    let decisions = make_refresh_decisions(frontiers, 96);
    assert!(!decisions[0].1.cluster_on());
}

#[test]
fn last_decision_for_a_policy_wins() {
    let catalog = refresh_catalog(1, 5, 0, 100);
    let off = SchedulingDecision::Refresh(RefreshDecision {
        cluster_on: false,
        objects_needing_refresh: vec![],
        rehydration_time_estimate_ms: 5,
    });
    let on = SchedulingDecision::Refresh(RefreshDecision {
        cluster_on: true,
        objects_needing_refresh: vec![7],
        rehydration_time_estimate_ms: 5,
    });
    let batch = vec![("refresh".to_string(), vec![(1u64, on), (1u64, off)])];
    let mut store = DecisionStore::new();
    let policies = registered_policies();
    let changes = reconcile(&mut store, &batch, &catalog, &policies);
    // the later Off decision replaced the earlier On one; state is already Off
    assert!(changes.is_empty());
}

#[test]
fn audit_projection_carries_the_decision() {
    let reasons = vec![SchedulingDecision::Refresh(RefreshDecision {
        cluster_on: true,
        objects_needing_refresh: vec![7, 9],
        rehydration_time_estimate_ms: 300000,
    })];
    let record = SchedulingDecision::reasons_to_audit_log_reasons(&reasons);
    assert!(record.on_refresh.cluster_on);
    assert_eq!(record.on_refresh.objects_needing_refresh, vec![7, 9]);
    assert_eq!(record.on_refresh.rehydration_time_estimate_ms, 300000);
}

#[test]
fn policy_batches_converge_in_either_order() {
    // two policies' batches arrive in opposite orders: once both are
    // merged, the reconciler issues the same change either way
    let catalog = refresh_catalog(1, 5, 0, 102);
    let off = || SchedulingDecision::Refresh(RefreshDecision {
        cluster_on: false,
        objects_needing_refresh: vec![],
        rehydration_time_estimate_ms: 5,
    });
    let on = || SchedulingDecision::Refresh(RefreshDecision {
        cluster_on: true,
        objects_needing_refresh: vec![7],
        rehydration_time_estimate_ms: 5,
    });
    let policies = vec!["refresh".to_string(), "other".to_string()];

    let mut store_a = DecisionStore::new();
    let first_a = reconcile(
        &mut store_a,
        &vec![("refresh".to_string(), vec![(1u64, off())])],
        &catalog,
        &policies,
    );
    assert!(first_a.is_empty());
    let second_a = reconcile(
        &mut store_a,
        &vec![("other".to_string(), vec![(1u64, on())])],
        &catalog,
        &policies,
    );

    let mut store_b = DecisionStore::new();
    let first_b = reconcile(
        &mut store_b,
        &vec![("other".to_string(), vec![(1u64, on())])],
        &catalog,
        &policies,
    );
    assert!(first_b.is_empty());
    let second_b = reconcile(
        &mut store_b,
        &vec![("refresh".to_string(), vec![(1u64, off())])],
        &catalog,
        &policies,
    );

    assert_eq!(second_a.len(), 1);
    assert_eq!(second_b.len(), 1);
    assert_eq!(second_a[0].cluster_id, second_b[0].cluster_id);
    assert_eq!(second_a[0].new_replication_factor, 1);
    assert_eq!(second_b[0].new_replication_factor, 1);
    assert_eq!(store_a.entries.len(), store_b.entries.len());
}
