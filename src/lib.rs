//! Finds git working trees under a directory and reads, from the porcelain
//! status report of each, whether it has local changes.
//!
//! `locate` decides, entry by entry, what a walk of the tree reports and where
//! it does not descend, and states what such a walk finds. `status` reads one
//! status report into a `RepoStatus`. `report` counts over a scan's records.

pub mod locate;
pub mod report;
pub mod status;
