//! Point-in-time view of the cluster configuration that the scheduling
//! policies read: for each cluster its management mode, its scheduling
//! configuration, and the objects bound to it together with the write
//! frontier the controller reports for each.

use vstd::prelude::*;

verus! {

/// The scheduling configuration of a managed cluster.
#[derive(Clone, Copy, Debug)]
pub enum ClusterSchedule {
    /// The user manages the cluster's replica count manually; the scheduling
    /// policies never touch it.
    Manual,
    /// The cluster is turned On and Off automatically based on the freshness
    /// deadlines of its refresh-scheduled objects.
    Refresh {
        /// Budget, in milliseconds, for how long the cluster takes to become
        /// fully operational after being turned On.
        rehydration_time_estimate_ms: u64,
    },
}

/// Configuration of a managed cluster, as far as the scheduling policies
/// read it.
#[derive(Clone, Copy, Debug)]
pub struct ManagedConfig {
    pub schedule: ClusterSchedule,
    /// The cluster is provisioned (On) exactly when this is positive.
    pub replication_factor: u32,
}

/// Whether a cluster's replica count is controlled by configuration and
/// policy, or by direct manual edits.
#[derive(Clone, Copy, Debug)]
pub enum ClusterVariant {
    Managed(ManagedConfig),
    Unmanaged,
}

/// The kind of an object bound to a cluster, as far as the refresh policy
/// cares about it.
#[derive(Clone, Copy, Debug)]
pub enum ObjectKind {
    MaterializedView {
        /// Whether the materialized view has a refresh schedule.
        has_refresh_schedule: bool,
    },
    Other,
}

/// An object bound to a cluster, together with the write frontier the
/// controller reports for it (`None` when the controller has no frontier
/// information for the object).
#[derive(Clone, Copy, Debug)]
pub struct ObjectInfo {
    pub id: u64,
    pub kind: ObjectKind,
    pub write_frontier: Option<u64>,
}

/// One cluster as the catalog describes it.
#[derive(Clone, Debug)]
pub struct ClusterSnapshot {
    pub id: u64,
    pub variant: ClusterVariant,
    pub bound_objects: Vec<ObjectInfo>,
}

/// A consistent point-in-time view of every cluster.
#[derive(Clone, Debug)]
pub struct CatalogSnapshot {
    pub clusters: Vec<ClusterSnapshot>,
}

/// First managed configuration recorded for a cluster id, scanning front to
/// back; `None` when the cluster is absent or unmanaged.
pub open spec fn find_managed(s: Seq<ClusterSnapshot>, id: u64) -> Option<ManagedConfig>
    decreases s.len(),
{
    if s.len() == 0 {
        None
    } else if s[0].id == id {
        match s[0].variant {
            ClusterVariant::Managed(cfg) => Some(cfg),
            ClusterVariant::Unmanaged => None,
        }
    } else {
        find_managed(s.drop_first(), id)
    }
}

impl CatalogSnapshot {
    /// Cluster ids are unique.
    pub open spec fn wf(self) -> bool {
        forall|i: int, j: int|
            0 <= i < j < self.clusters@.len() ==> self.clusters@[i].id != self.clusters@[j].id
    }

    /// The managed configuration of the cluster, if it exists and is managed.
    pub open spec fn managed_config(self, id: u64) -> Option<ManagedConfig> {
        find_managed(self.clusters@, id)
    }

    /// Whether the cluster is still in scope of automated scheduling: it
    /// exists, is managed, and is not scheduled manually.
    pub open spec fn in_scheduling_scope(self, id: u64) -> bool {
        match self.managed_config(id) {
            Some(cfg) => !(cfg.schedule is Manual),
            None => false,
        }
    }
}

/// Returns the managed config for a cluster. Returns `None` if the cluster
/// doesn't exist or if it's an unmanaged cluster.
pub fn get_managed_cluster_config(catalog: &CatalogSnapshot, cluster_id: u64) -> (r: Option<
    ManagedConfig,
>)
    ensures
        r == catalog.managed_config(cluster_id),
{
    let n = catalog.clusters.len();
    let mut i: usize = 0;
    proof {
        assert(catalog.clusters@.skip(0) =~= catalog.clusters@);
    }
    while i < n
        invariant
            i <= n,
            n == catalog.clusters@.len(),
            find_managed(catalog.clusters@, cluster_id) == find_managed(
                catalog.clusters@.skip(i as int),
                cluster_id,
            ),
        decreases n - i,
    {
        let cluster = &catalog.clusters[i];
        proof {
            assert(catalog.clusters@.skip(i as int)[0] == catalog.clusters@[i as int]);
            assert(catalog.clusters@.skip(i as int).drop_first() =~= catalog.clusters@.skip(
                i as int + 1,
            ));
        }
        if cluster.id == cluster_id {
            match cluster.variant {
                ClusterVariant::Managed(cfg) => {
                    return Some(cfg);
                },
                ClusterVariant::Unmanaged => {
                    return None;
                },
            }
        }
        i = i + 1;
    }
    proof {
        assert(catalog.clusters@.skip(n as int) =~= Seq::<ClusterSnapshot>::empty());
    }
    None
}

} // verus!
