use vstd::prelude::*;

use crate::status::RepoStatus;

verus! {

/// How many of `s` are dirty.
pub open spec fn dirty_count(s: Seq<RepoStatus>) -> nat
    decreases s.len(),
{
    if s.len() == 0 {
        0
    } else {
        dirty_count(s.drop_last()) + if s.last().is_dirty {
            1nat
        } else {
            0nat
        }
    }
}

/// How many of `s` have uncommitted entries.
pub open spec fn uncommitted_count(s: Seq<RepoStatus>) -> nat
    decreases s.len(),
{
    if s.len() == 0 {
        0
    } else {
        uncommitted_count(s.drop_last()) + if s.last().uncommitted_changes > 0 {
            1nat
        } else {
            0nat
        }
    }
}

/// How many of `s` have unpushed commits.
pub open spec fn unpushed_count(s: Seq<RepoStatus>) -> nat
    decreases s.len(),
{
    if s.len() == 0 {
        0
    } else {
        unpushed_count(s.drop_last()) + if s.last().unpushed_commits > 0 {
            1nat
        } else {
            0nat
        }
    }
}

proof fn lemma_counts_bounded(s: Seq<RepoStatus>)
    ensures
        dirty_count(s) <= s.len(),
        uncommitted_count(s) <= s.len(),
        unpushed_count(s) <= s.len(),
    decreases s.len(),
{
    if s.len() > 0 {
        lemma_counts_bounded(s.drop_last());
    }
}

/// The totals over one scan's records.
#[derive(Clone, Copy, Debug, PartialEq, Eq, Structural)]
pub struct ScanTotals {
    pub total: usize,
    pub dirty: usize,
    pub clean: usize,
    pub with_uncommitted: usize,
    pub with_unpushed: usize,
}

/// Counts the records of a scan: all of them, the dirty and the clean ones,
/// those with uncommitted entries and those with unpushed commits.
pub fn scan_totals(statuses: &Vec<RepoStatus>) -> (r: ScanTotals)
    ensures
        r.total == statuses@.len(),
        r.dirty as nat == dirty_count(statuses@),
        r.clean as nat == statuses@.len() - dirty_count(statuses@),
        r.with_uncommitted as nat == uncommitted_count(statuses@),
        r.with_unpushed as nat == unpushed_count(statuses@),
{
    let mut dirty: usize = 0;
    let mut with_uncommitted: usize = 0;
    let mut with_unpushed: usize = 0;
    let mut k: usize = 0;
    while k < statuses.len()
        invariant
            k <= statuses@.len(),
            dirty as nat == dirty_count(statuses@.take(k as int)),
            with_uncommitted as nat == uncommitted_count(statuses@.take(k as int)),
            with_unpushed as nat == unpushed_count(statuses@.take(k as int)),
        decreases statuses@.len() - k,
    {
        let s = &statuses[k];
        assert(statuses@.take(k + 1).drop_last() =~= statuses@.take(k as int));
        proof {
            lemma_counts_bounded(statuses@.take(k as int));
        }
        if s.is_dirty {
            dirty += 1;
        }
        if s.uncommitted_changes > 0 {
            with_uncommitted += 1;
        }
        if s.unpushed_commits > 0 {
            with_unpushed += 1;
        }
        k += 1;
    }
    assert(statuses@.take(k as int) =~= statuses@);
    proof {
        lemma_counts_bounded(statuses@);
    }
    ScanTotals {
        total: statuses.len(),
        dirty,
        clean: statuses.len() - dirty,
        with_uncommitted,
        with_unpushed,
    }
}

/// Whether the scan found a repository with local changes, which makes the
/// process exit with failure.
pub fn any_dirty(statuses: &Vec<RepoStatus>) -> (r: bool)
    ensures
        r == (dirty_count(statuses@) > 0),
{
    scan_totals(statuses).dirty > 0
}

} // verus!
