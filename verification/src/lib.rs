//! Finds `node_modules` directories that live under a `.cache` ancestor in a
//! directory tree, and plans their confirm-then-delete remediation.
//!
//! The tree to scan is handed in as a [`scan::DirTree`] value; the scanner
//! returns the matching paths as sequences of path components. The
//! remediation step turns a confirmation line and the match list into a
//! [`remediate::RemediationPlan`] naming exactly the directories to remove.

pub mod remediate;
pub mod scan;
