//! Hunk-based text patching: the line-level difference between an original
//! and a candidate text is partitioned into reviewable hunks, each hunk can
//! be accepted, rejected, split or hand-edited, and the final text is rebuilt
//! from the original and the accepted hunks alone.

pub mod change;
pub mod text;
pub mod diff;
pub mod group;
pub mod apply;
pub mod split;
pub mod edit;
pub mod session;
pub mod laws;
