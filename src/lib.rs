//! Transactional planning of disk partition layouts.
//!
//! The [`planner::Planner`] models one disk: the partitions it already holds,
//! a usable byte window, and a queue of planned additions and deletions that
//! can be undone. The effective layout after the queued changes is computed
//! without touching the device.
//!
//! A [`strategy::Strategy`] fits size-constrained partition requests into the
//! free space of a planner, and the [`provisioner::Provisioner`] compiles
//! named strategies against a pool of devices into partition plans.
pub mod align;
pub mod describe;
pub mod device;
pub mod planner;
pub mod provisioner;
pub mod region;
pub mod strategy;
pub mod text;
