//! Counts over a classification.
use crate::classify::{kept, picked, ChangeDetail};
use crate::palette::CharChangeType;
use vstd::prelude::*;

verus! {

/// How many records a classification holds, in all and of each kind.
#[derive(Clone, Copy, Debug, PartialEq, Eq, Structural)]
pub struct ChangeStats {
    pub total_changes: usize,
    pub unchanged: usize,
    pub insertions: usize,
    pub deletions: usize,
}

/// Counts the records of `changes`: all of them, the kept ones (of both
/// kinds), the insertions and the deletions.
pub fn calculate_stats(changes: &Vec<ChangeDetail>) -> (r: ChangeStats)
    ensures
        r.total_changes == changes@.len(),
        r.unchanged == kept(changes@).len(),
        r.insertions == picked(changes@, CharChangeType::Insertion).len(),
        r.deletions == picked(changes@, CharChangeType::Deletion).len(),
        r.total_changes == r.unchanged + r.insertions + r.deletions,
{
    let mut stats = ChangeStats { total_changes: 0, unchanged: 0, insertions: 0, deletions: 0 };
    let mut i: usize = 0;
    while i < changes.len()
        invariant
            i <= changes@.len(),
            stats.total_changes == i,
            stats.unchanged == kept(changes@.subrange(0, i as int)).len(),
            stats.insertions == picked(changes@.subrange(0, i as int), CharChangeType::Insertion).len(),
            stats.deletions == picked(changes@.subrange(0, i as int), CharChangeType::Deletion).len(),
            stats.total_changes == stats.unchanged + stats.insertions + stats.deletions,
        decreases changes.len() - i,
    {
        assert(changes@.subrange(0, i + 1).drop_last() =~= changes@.subrange(0, i as int));
        stats.total_changes = stats.total_changes + 1;
        match changes[i].change_type {
            CharChangeType::EqualIndex | CharChangeType::EqualDifferentIndex => {
                stats.unchanged = stats.unchanged + 1;
            },
            CharChangeType::Insertion => {
                stats.insertions = stats.insertions + 1;
            },
            CharChangeType::Deletion => {
                stats.deletions = stats.deletions + 1;
            },
        }
        i = i + 1;
    }
    assert(changes@.subrange(0, i as int) =~= changes@);
    stats
}

} // verus!
