//! The refresh scheduling policy: it wants a cluster On exactly when some
//! refresh-scheduled materialized view bound to the cluster could not meet
//! its freshness deadline even if the cluster started rehydrating right now.

use vstd::prelude::*;

use crate::catalog::{CatalogSnapshot, ClusterSchedule, ClusterSnapshot, ClusterVariant, ObjectInfo,
    ObjectKind};
use crate::decision::{DecisionView, RefreshDecision, SchedulingDecision};

verus! {

/// Name under which the refresh policy registers itself and tags its
/// decisions.
pub open spec fn refresh_policy_name_spec() -> Seq<char> {
    "refresh"@
}

/// Name under which the refresh policy registers itself and tags its
/// decisions.
pub fn refresh_policy_name() -> (r: &'static str)
    ensures
        r@ == refresh_policy_name_spec(),
{
    "refresh"
}

/// The ordered list of registered policy names; the completeness gate of the
/// reconciler waits until each of them has reported for a cluster.
pub fn registered_policies() -> (r: Vec<String>)
    ensures
        r@.len() == 1,
        r@[0]@ == refresh_policy_name_spec(),
{
    let mut r: Vec<String> = Vec::new();
    r.push(refresh_policy_name().to_owned());
    r
}

/// Whether a cluster is managed with a refresh schedule, so the refresh
/// policy is responsible for turning it On and Off.
pub open spec fn is_refresh_cluster(c: ClusterSnapshot) -> bool {
    match c.variant {
        ClusterVariant::Managed(cfg) => cfg.schedule is Refresh,
        ClusterVariant::Unmanaged => false,
    }
}

/// The rehydration time estimate of a refresh-scheduled managed cluster.
pub open spec fn estimate_of(c: ClusterSnapshot) -> u64
    recommends
        is_refresh_cluster(c),
{
    match c.variant {
        ClusterVariant::Managed(cfg) => match cfg.schedule {
            ClusterSchedule::Refresh { rehydration_time_estimate_ms } => rehydration_time_estimate_ms,
            ClusterSchedule::Manual => 0,
        },
        ClusterVariant::Unmanaged => 0,
    }
}

/// Whether the refresh policy watches this object: a materialized view with
/// a refresh schedule.
pub open spec fn is_refresh_mv(o: ObjectInfo) -> bool {
    match o.kind {
        ObjectKind::MaterializedView { has_refresh_schedule } => has_refresh_schedule,
        ObjectKind::Other => false,
    }
}

/// The refresh-scheduled materialized views among the bound objects, each
/// with its write frontier, in order.
pub open spec fn refresh_mvs(objs: Seq<ObjectInfo>) -> Seq<(u64, u64)>
    decreases objs.len(),
{
    if objs.len() == 0 {
        Seq::empty()
    } else {
        refresh_mvs(objs.drop_last()) + if is_refresh_mv(objs.last()) {
            seq![(objs.last().id, objs.last().write_frontier.unwrap())]
        } else {
            Seq::empty()
        }
    }
}

/// The refresh-scheduled clusters of the catalog, in order.
pub open spec fn refresh_clusters(clusters: Seq<ClusterSnapshot>) -> Seq<ClusterSnapshot>
    decreases clusters.len(),
{
    if clusters.len() == 0 {
        Seq::empty()
    } else {
        refresh_clusters(clusters.drop_last()) + if is_refresh_cluster(clusters.last()) {
            seq![clusters.last()]
        } else {
            Seq::empty()
        }
    }
}

/// The controller must report a write frontier for every refresh-scheduled
/// materialized view the catalog knows; a missing frontier is a logic
/// invariant violation, not a runtime condition.
pub open spec fn frontiers_known(catalog: CatalogSnapshot) -> bool {
    forall|i: int, j: int|
        0 <= i < catalog.clusters@.len() && 0 <= j < catalog.clusters@[i].bound_objects@.len()
            && is_refresh_cluster(#[trigger] catalog.clusters@[i]) && is_refresh_mv(
            #[trigger] catalog.clusters@[i].bound_objects@[j],
        ) ==> catalog.clusters@[i].bound_objects@[j].write_frontier is Some
}

/// Whether an object with the given write frontier needs a refresh: its
/// output could not possibly be ready in time even if the cluster is turned
/// On right now and takes the estimated time to rehydrate.
pub fn needs_refresh(write_frontier: u64, read_ts: u64, rehydration_time_estimate_ms: u64) -> (r:
    bool)
    requires
        read_ts + rehydration_time_estimate_ms <= u64::MAX,
    ensures
        r == (write_frontier < read_ts + rehydration_time_estimate_ms),
{
    write_frontier < read_ts + rehydration_time_estimate_ms
}

/// The ids among `(id, write_frontier)` pairs whose frontier lies strictly
/// before the adjusted deadline, in order.
pub open spec fn needing_refresh(objs: Seq<(u64, u64)>, deadline: int) -> Seq<u64>
    decreases objs.len(),
{
    if objs.len() == 0 {
        Seq::empty()
    } else {
        needing_refresh(objs.drop_last(), deadline) + if objs.last().1 < deadline {
            seq![objs.last().0]
        } else {
            Seq::empty()
        }
    }
}

/// Some object lies strictly before the deadline exactly when the filtered
/// list is nonempty.
pub proof fn lemma_needing_refresh_nonempty(objs: Seq<(u64, u64)>, deadline: int)
    ensures
        needing_refresh(objs, deadline).len() > 0 <==> exists|j: int|
            0 <= j < objs.len() && objs[j].1 < deadline,
    decreases objs.len(),
{
    if objs.len() > 0 {
        lemma_needing_refresh_nonempty(objs.drop_last(), deadline);
        if objs.last().1 < deadline {
            assert(objs[objs.len() - 1].1 < deadline);
        } else if needing_refresh(objs.drop_last(), deadline).len() > 0 {
            let j = choose|j: int|
                0 <= j < objs.drop_last().len() && objs.drop_last()[j].1 < deadline;
            assert(objs[j].1 < deadline);
        } else {
            assert forall|j: int| 0 <= j < objs.len() implies !(objs[j].1 < deadline) by {
                if j < objs.len() - 1 {
                    assert(objs.drop_last()[j] == objs[j]);
                }
            }
        }
    }
}

/// What the snapshot phase of the refresh policy collects for one cluster:
/// its id, its rehydration time estimate in milliseconds, and the
/// `(object id, write frontier)` pairs of its refresh-scheduled materialized
/// views.
pub struct ClusterFrontiers {
    pub cluster_id: u64,
    pub rehydration_time_estimate_ms: u64,
    pub refresh_mv_write_frontiers: Vec<(u64, u64)>,
}

/// Snapshot phase of the refresh policy: for every managed cluster with a
/// refresh schedule, collect the write frontiers of its refresh-scheduled
/// materialized views. Clusters scheduled manually and unmanaged clusters
/// are skipped entirely.
pub fn collect_refresh_frontiers(catalog: &CatalogSnapshot) -> (r: Vec<ClusterFrontiers>)
    requires
        frontiers_known(*catalog),
    ensures
        r@.len() == refresh_clusters(catalog.clusters@).len(),
        forall|k: int|
            0 <= k < r@.len() ==> {
                &&& (#[trigger] r@[k]).cluster_id == refresh_clusters(catalog.clusters@)[k].id
                &&& r@[k].rehydration_time_estimate_ms == estimate_of(
                    refresh_clusters(catalog.clusters@)[k],
                )
                &&& r@[k].refresh_mv_write_frontiers@ == refresh_mvs(
                    refresh_clusters(catalog.clusters@)[k].bound_objects@,
                )
            },
{
    let mut r: Vec<ClusterFrontiers> = Vec::new();
    let n = catalog.clusters.len();
    let mut i: usize = 0;
    proof {
        assert(catalog.clusters@.take(0) =~= Seq::<ClusterSnapshot>::empty());
    }
    while i < n
        invariant
            i <= n,
            n == catalog.clusters@.len(),
            frontiers_known(*catalog),
            r@.len() == refresh_clusters(catalog.clusters@.take(i as int)).len(),
            forall|k: int|
                0 <= k < r@.len() ==> {
                    &&& (#[trigger] r@[k]).cluster_id == refresh_clusters(
                        catalog.clusters@.take(i as int),
                    )[k].id
                    &&& r@[k].rehydration_time_estimate_ms == estimate_of(
                        refresh_clusters(catalog.clusters@.take(i as int))[k],
                    )
                    &&& r@[k].refresh_mv_write_frontiers@ == refresh_mvs(
                        refresh_clusters(catalog.clusters@.take(i as int))[k].bound_objects@,
                    )
                },
        decreases n - i,
    {
        let ghost prefix = catalog.clusters@.take(i as int);
        let ghost next = catalog.clusters@.take(i as int + 1);
        proof {
            assert(next.drop_last() =~= prefix);
            assert(next.last() == catalog.clusters@[i as int]);
        }
        let cluster = &catalog.clusters[i];
        match &cluster.variant {
            ClusterVariant::Managed(config) => {
                match config.schedule {
                    ClusterSchedule::Manual => {
                        // Nothing to do, user manages this cluster manually.
                        proof {
                            assert(refresh_clusters(next) =~= refresh_clusters(prefix));
                        }
                    },
                    ClusterSchedule::Refresh { rehydration_time_estimate_ms } => {
                        proof {
                            assert forall|j: int|
                                0 <= j < cluster.bound_objects@.len() && is_refresh_mv(
                                    #[trigger] cluster.bound_objects@[j],
                                ) implies cluster.bound_objects@[j].write_frontier is Some by {
                                assert(is_refresh_cluster(catalog.clusters@[i as int]));
                                assert(is_refresh_mv(
                                    catalog.clusters@[i as int].bound_objects@[j],
                                ));
                            }
                        }
                        let mvs = collect_refresh_mvs(&cluster.bound_objects);
                        r.push(ClusterFrontiers {
                            cluster_id: cluster.id,
                            rehydration_time_estimate_ms,
                            refresh_mv_write_frontiers: mvs,
                        });
                        proof {
                            assert(refresh_clusters(next) =~= refresh_clusters(prefix) + seq![
                                catalog.clusters@[i as int],
                            ]);
                        }
                    },
                }
            },
            ClusterVariant::Unmanaged => {
                proof {
                    assert(refresh_clusters(next) =~= refresh_clusters(prefix));
                }
            },
        }
        i = i + 1;
    }
    proof {
        assert(catalog.clusters@.take(n as int) =~= catalog.clusters@);
    }
    r
}

/// Collects the `(id, write frontier)` pairs of the refresh-scheduled
/// materialized views among the bound objects of one cluster.
fn collect_refresh_mvs(objs: &Vec<ObjectInfo>) -> (r: Vec<(u64, u64)>)
    requires
        forall|j: int|
            0 <= j < objs@.len() && is_refresh_mv(#[trigger] objs@[j]) ==> objs@[j].write_frontier
                is Some,
    ensures
        r@ == refresh_mvs(objs@),
{
    let mut r: Vec<(u64, u64)> = Vec::new();
    let n = objs.len();
    let mut j: usize = 0;
    proof {
        assert(objs@.take(0) =~= Seq::<ObjectInfo>::empty());
    }
    while j < n
        invariant
            j <= n,
            n == objs@.len(),
            forall|k: int|
                0 <= k < objs@.len() && is_refresh_mv(#[trigger] objs@[k])
                    ==> objs@[k].write_frontier is Some,
            r@ == refresh_mvs(objs@.take(j as int)),
        decreases n - j,
    {
        let ghost prefix = objs@.take(j as int);
        let ghost next = objs@.take(j as int + 1);
        proof {
            assert(next.drop_last() =~= prefix);
            assert(next.last() == objs@[j as int]);
        }
        let o = &objs[j];
        let watched = match o.kind {
            ObjectKind::MaterializedView { has_refresh_schedule } => has_refresh_schedule,
            ObjectKind::Other => false,
        };
        if watched {
            proof {
                assert(is_refresh_mv(objs@[j as int]));
            }
            let frontier = match o.write_frontier {
                Some(f) => f,
                None => {
                    proof {
                        assert(false);
                    }
                    0
                },
            };
            r.push((o.id, frontier));
            proof {
                assert(refresh_mvs(next) =~= refresh_mvs(prefix) + seq![
                    (objs@[j as int].id, objs@[j as int].write_frontier.unwrap()),
                ]);
            }
        } else {
            proof {
                assert(refresh_mvs(next) =~= refresh_mvs(prefix));
            }
        }
        j = j + 1;
    }
    proof {
        assert(objs@.take(n as int) =~= objs@);
    }
    r
}

/// Deferred phase of the refresh policy, run once the logical read timestamp
/// has arrived from the timestamp oracle: for every collected cluster,
/// advance the read timestamp by the cluster's rehydration time estimate and
/// decide On exactly when some watched object's write frontier lies strictly
/// before that adjusted deadline. Emits one decision per collected cluster,
/// carrying the verdict, the objects needing a refresh, and the estimate
/// used.
pub fn make_refresh_decisions(frontiers: Vec<ClusterFrontiers>, read_ts: u64) -> (r: Vec<
    (u64, SchedulingDecision),
>)
    requires
        forall|i: int|
            0 <= i < frontiers@.len() ==> read_ts + (
            #[trigger] frontiers@[i]).rehydration_time_estimate_ms <= u64::MAX,
    ensures
        r@.len() == frontiers@.len(),
        forall|i: int|
            0 <= i < r@.len() ==> {
                let f = frontiers@[i];
                let deadline = read_ts + f.rehydration_time_estimate_ms;
                &&& (#[trigger] r@[i]).0 == f.cluster_id
                &&& r@[i].1@ is Refresh
                &&& r@[i].1@.on() <==> exists|j: int|
                    0 <= j < f.refresh_mv_write_frontiers@.len() && (
                    #[trigger] f.refresh_mv_write_frontiers@[j]).1 < deadline
                &&& r@[i].1@->Refresh_0.objects_needing_refresh == needing_refresh(
                    f.refresh_mv_write_frontiers@,
                    deadline,
                )
                &&& r@[i].1@->Refresh_0.rehydration_time_estimate_ms
                    == f.rehydration_time_estimate_ms
            },
{
    let mut r: Vec<(u64, SchedulingDecision)> = Vec::new();
    let n = frontiers.len();
    let mut i: usize = 0;
    while i < n
        invariant
            i <= n,
            n == frontiers@.len(),
            r@.len() == i,
            forall|k: int|
                0 <= k < n ==> read_ts + (#[trigger] frontiers@[k]).rehydration_time_estimate_ms
                    <= u64::MAX,
            forall|k: int|
                0 <= k < i ==> {
                    let f = frontiers@[k];
                    let deadline = read_ts + f.rehydration_time_estimate_ms;
                    &&& (#[trigger] r@[k]).0 == f.cluster_id
                    &&& r@[k].1@ is Refresh
                    &&& r@[k].1@.on() <==> exists|j: int|
                        0 <= j < f.refresh_mv_write_frontiers@.len() && (
                        #[trigger] f.refresh_mv_write_frontiers@[j]).1 < deadline
                    &&& r@[k].1@->Refresh_0.objects_needing_refresh == needing_refresh(
                        f.refresh_mv_write_frontiers@,
                        deadline,
                    )
                    &&& r@[k].1@->Refresh_0.rehydration_time_estimate_ms
                        == f.rehydration_time_estimate_ms
                },
        decreases n - i,
    {
        let f = &frontiers[i];
        // We are just checking that
        // write_frontier < read_ts + rehydration_time_estimate
        let deadline = read_ts + f.rehydration_time_estimate_ms;
        let mut mvs_needing_refresh: Vec<u64> = Vec::new();
        let m = f.refresh_mv_write_frontiers.len();
        let mut j: usize = 0;
        proof {
            assert(f.refresh_mv_write_frontiers@.take(0) =~= Seq::<(u64, u64)>::empty());
        }
        while j < m
            invariant
                j <= m,
                m == f.refresh_mv_write_frontiers@.len(),
                mvs_needing_refresh@ == needing_refresh(
                    f.refresh_mv_write_frontiers@.take(j as int),
                    deadline as int,
                ),
            decreases m - j,
        {
            let ghost prefix = f.refresh_mv_write_frontiers@.take(j as int);
            let ghost next = f.refresh_mv_write_frontiers@.take(j as int + 1);
            proof {
                assert(next.drop_last() =~= prefix);
                assert(next.last() == f.refresh_mv_write_frontiers@[j as int]);
            }
            let (id, frontier) = f.refresh_mv_write_frontiers[j];
            if frontier < deadline {
                mvs_needing_refresh.push(id);
                proof {
                    assert(needing_refresh(next, deadline as int) =~= needing_refresh(
                        prefix,
                        deadline as int,
                    ) + seq![id]);
                }
            } else {
                proof {
                    assert(needing_refresh(next, deadline as int) =~= needing_refresh(
                        prefix,
                        deadline as int,
                    ));
                }
            }
            j = j + 1;
        }
        proof {
            assert(f.refresh_mv_write_frontiers@.take(m as int) =~= f.refresh_mv_write_frontiers@);
            lemma_needing_refresh_nonempty(f.refresh_mv_write_frontiers@, deadline as int);
        }
        let cluster_on = mvs_needing_refresh.len() > 0;
        r.push(
            (
                f.cluster_id,
                SchedulingDecision::Refresh(
                    RefreshDecision {
                        cluster_on,
                        objects_needing_refresh: mvs_needing_refresh,
                        rehydration_time_estimate_ms: f.rehydration_time_estimate_ms,
                    },
                ),
            ),
        );
        i = i + 1;
    }
    r
}

/// The scheduling-decisions message payload of one refresh evaluation cycle:
/// the cycle's decisions, tagged with the refresh policy's name, as one
/// batch for the reconciler.
pub fn refresh_policy_batch(decisions: Vec<(u64, SchedulingDecision)>) -> (r: Vec<
    (String, Vec<(u64, SchedulingDecision)>),
>)
    ensures
        r@.len() == 1,
        r@[0].0@ == refresh_policy_name_spec(),
        r@[0].1 == decisions,
{
    let mut r: Vec<(String, Vec<(u64, SchedulingDecision)>)> = Vec::new();
    r.push((refresh_policy_name().to_owned(), decisions));
    r
}

} // verus!
