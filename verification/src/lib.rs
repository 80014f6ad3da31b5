//! Policy-driven autoscaling decision engine for compute clusters.
//!
//! Scheduling policies render per-cluster On/Off opinions from catalog and
//! controller state; a coordinator-owned decision store collects them, and a
//! reconciler combines the opinions per cluster and computes the provisioning
//! changes needed to make each cluster's replica count agree with the combined
//! verdict.

pub mod audit;
pub mod catalog;
pub mod decision;
pub mod reconcile;
pub mod refresh;
pub mod store;
