//! The durable record of source files: which relative paths have been
//! discovered and which have been copied, plus whether the last
//! directory scan ran to completion.
//!
//! A path is tracked at most once, and its status only ever moves from
//! discovered to copied; re-inserting a tracked path is a no-op, which
//! is what makes an interrupted scan safe to redo. The surrounding
//! program persists this record and rebuilds it on start-up.

use vstd::prelude::*;
use crate::paths::{copy_range, suffix_match, suffix_matches};
use crate::compare::bytes_equal;

verus! {

/// One tracked source file.
#[derive(Debug)]
pub struct TrackedFile {
    /// Source path relative to the scan root; unique within a store.
    pub rel_path: Vec<u8>,
    /// Whether the file has been copied (or recognized as a duplicate).
    pub copied: bool,
    /// When it was marked copied; meaningful only once `copied` holds.
    pub copied_at: i64,
}


/// Every path in `files` appears at most once.
pub open spec fn paths_unique(files: Seq<TrackedFile>) -> bool {
    forall|i: int, j: int|
        0 <= i < j < files.len() ==> (#[trigger] files[i]).rel_path@ != (#[trigger] files[
            j
        ]).rel_path@
}

/// The collected paths are pairwise distinct.
pub open spec fn distinct_views(out: Seq<Vec<u8>>) -> bool {
    forall|a: int, b: int| 0 <= a < b < out.len() ==> (#[trigger] out[a])@ != (#[trigger] out[b])@
}

/// Whether `p` is one of the scanned paths and matches the filter.
pub open spec fn among_scanned(scanned: Seq<Vec<u8>>, suffix: Seq<u8>, p: Seq<u8>) -> bool {
    suffix_match(p, suffix) && exists|t: int| 0 <= t < scanned.len() && (#[trigger] scanned[t])@
        == p
}

/// The record of discovered and copied files for one destination root.
#[derive(Debug)]
pub struct StateStore {
    pub files: Vec<TrackedFile>,
    /// Whether the last directory scan ran to completion.
    pub scan_complete: bool,
}

impl StateStore {
    /// Every tracked path appears at most once.
    pub open spec fn wf(self) -> bool {
        paths_unique(self.files@)
    }

    /// Whether `p` has been discovered.
    pub open spec fn tracks(self, p: Seq<u8>) -> bool {
        exists|i: int| 0 <= i < self.files@.len() && self.files@[i].rel_path@ == p
    }

    /// Whether `p` has been copied.
    pub open spec fn is_copied(self, p: Seq<u8>) -> bool {
        exists|i: int|
            0 <= i < self.files@.len() && self.files@[i].rel_path@ == p && self.files@[i].copied
    }

    /// Whether `p` is discovered but not yet copied.
    pub open spec fn is_pending(self, p: Seq<u8>) -> bool {
        self.tracks(p) && !self.is_copied(p)
    }

    /// In a well-formed store, the entry at `i` speaks for its path.
    pub proof fn lemma_status_at(self, i: int)
        requires
            self.wf(),
            0 <= i < self.files@.len(),
        ensures
            self.tracks(self.files@[i].rel_path@),
            self.is_copied(self.files@[i].rel_path@) <==> self.files@[i].copied,
    {
        let p = self.files@[i].rel_path@;
        if self.is_copied(p) {
            let j = choose|j: int|
                0 <= j < self.files@.len() && self.files@[j].rel_path@ == p && self.files@[
                    j
                ].copied;
            if i < j {
                assert(self.files@[i].rel_path@ != self.files@[j].rel_path@);
            } else if j < i {
                assert(self.files@[j].rel_path@ != self.files@[i].rel_path@);
            }
        }
    }

    /// An empty store: nothing tracked, scan not yet run.
    pub fn new() -> (r: StateStore)
        ensures
            r.wf(),
            !r.scan_complete,
            r.files@.len() == 0,
    {
        StateStore { files: Vec::new(), scan_complete: false }
    }

    /// Index of the entry tracking `p`, if any.
    fn find_idx(&self, p: &Vec<u8>) -> (r: Option<usize>)
        ensures
            r matches Some(i) ==> i < self.files@.len() && self.files@[i as int].rel_path@ == p@,
            r is None ==> !self.tracks(p@),
    {
        let n: usize = self.files.len();
        let mut k: usize = 0;
        while k < n
            invariant
                n == self.files@.len(),
                0 <= k <= n,
                forall|t: int| 0 <= t < k ==> self.files@[t].rel_path@ != p@,
            decreases n - k,
        {
            if bytes_equal(&self.files[k].rel_path, p) {
                return Some(k);
            }
            k = k + 1;
        }
        None
    }

    /// Whether `p` has been discovered.
    pub fn is_tracked(&self, p: &Vec<u8>) -> (r: bool)
        ensures
            r == self.tracks(p@),
    {
        match self.find_idx(p) {
            Some(i) => {
                proof {
                    assert(self.files@[i as int].rel_path@ == p@);
                }
                true
            },
            None => false,
        }
    }

    /// Records `p` with the given status if it is not yet tracked; a
    /// tracked path is left exactly as it is.
    pub fn load_entry(&mut self, p: Vec<u8>, copied: bool, copied_at: i64)
        requires
            old(self).wf(),
        ensures
            final(self).wf(),
            final(self).scan_complete == old(self).scan_complete,
            old(self).tracks(p@) ==> *final(self) == *old(self),
            !old(self).tracks(p@) ==> final(self).files@ == old(self).files@.push(
                (TrackedFile { rel_path: p, copied: copied, copied_at: copied_at }),
            ),
    {
        match self.find_idx(&p) {
            Some(_) => {
            },
            None => {
                self.files.push(TrackedFile { rel_path: p, copied, copied_at });
            },
        }
    }

    /// Marks `p` copied at time `ts` and reports whether it did; a path
    /// already copied, or never discovered, is left as it is.
    pub fn mark_copied(&mut self, p: &Vec<u8>, ts: i64) -> (r: bool)
        requires
            old(self).wf(),
        ensures
            final(self).wf(),
            r == old(self).is_pending(p@),
            final(self).scan_complete == old(self).scan_complete,
            !old(self).is_pending(p@) ==> *final(self) == *old(self),
            final(self).files@.len() == old(self).files@.len(),
            forall|j: int|
                0 <= j < old(self).files@.len() && old(self).files@[j].rel_path@ != p@ ==> final(self).files@[j] == old(self).files@[j],
            forall|j: int|
                0 <= j < old(self).files@.len() ==> final(self).files@[j].rel_path@ == old(self).files@[j].rel_path@,
            old(self).is_pending(p@) ==> forall|j: int|
                0 <= j < old(self).files@.len() && old(self).files@[j].rel_path@ == p@ ==> final(self).files@[j].copied && final(self).files@[j].copied_at == ts,
    {
        match self.find_idx(p) {
            None => false,
            Some(i) => {
                proof {
                    self.lemma_status_at(i as int);
                }
                if self.files[i].copied {
                    false
                } else {
                    let len_i: usize = self.files[i].rel_path.len();
                    let path_copy = copy_range(&self.files[i].rel_path, 0, len_i);
                    proof {
                        assert(path_copy@ =~= self.files@[i as int].rel_path@);
                    }
                    self.files.set(i, TrackedFile { rel_path: path_copy, copied: true, copied_at: ts });
                    proof {
                        assert forall|a: int, b: int|
                            0 <= a < b < self.files@.len() implies self.files@[a].rel_path@
                            != self.files@[b].rel_path@ by {
                            assert(old(self).files@[a].rel_path@ != old(self).files@[b].rel_path@);
                        }
                    }
                    true
                }
            },
        }
    }

    /// The paths discovered but not yet copied, each exactly once.
    pub fn pending_list(&self) -> (r: Vec<Vec<u8>>)
        requires
            self.wf(),
        ensures
            distinct_views(r@),
            forall|k: int| 0 <= k < r@.len() ==> self.is_pending((#[trigger] r@[k])@),
            forall|p: Seq<u8>|
                self.is_pending(p) ==> exists|k: int| 0 <= k < r@.len() && (#[trigger] r@[k])@ == p,
    {
        let n: usize = self.files.len();
        let mut out: Vec<Vec<u8>> = Vec::new();
        let ghost mut idxs: Seq<int> = Seq::empty();
        let ghost mut pos: Map<int, int> = Map::empty();
        let mut i: usize = 0;
        while i < n
            invariant
                self.wf(),
                n == self.files@.len(),
                0 <= i <= n,
                idxs.len() == out@.len(),
                forall|k: int| 0 <= k < idxs.len() ==> 0 <= #[trigger] idxs[k] < i,
                forall|k: int| 0 <= k < idxs.len() ==> !self.files@[#[trigger] idxs[k]].copied,
                forall|k: int|
                    0 <= k < idxs.len() ==> (#[trigger] out@[k])@ == self.files@[idxs[k]].rel_path@,
                forall|a: int, b: int| 0 <= a < b < idxs.len() ==> idxs[a] < idxs[b],
                forall|t: int|
                    0 <= t < i && !(#[trigger] self.files@[t]).copied ==> pos.dom().contains(t)
                        && 0 <= pos[t] < out@.len() && idxs[pos[t]] == t,
            decreases n - i,
        {
            if !self.files[i].copied {
                let len_i: usize = self.files[i].rel_path.len();
                let path_copy = copy_range(&self.files[i].rel_path, 0, len_i);
                proof {
                    assert(path_copy@ =~= self.files@[i as int].rel_path@);
                    pos = pos.insert(i as int, idxs.len() as int);
                    idxs = idxs.push(i as int);
                }
                out.push(path_copy);
            }
            i = i + 1;
        }
        proof {
            assert forall|a: int, b: int| 0 <= a < b < out@.len() implies (#[trigger] out@[a])@
                != (#[trigger] out@[b])@ by {
                assert(self.files@[idxs[a]].rel_path@ != self.files@[idxs[b]].rel_path@);
            }
            assert forall|k: int| 0 <= k < out@.len() implies self.is_pending(
                (#[trigger] out@[k])@,
            ) by {
                self.lemma_status_at(idxs[k]);
            }
            assert forall|p: Seq<u8>| self.is_pending(p) implies exists|k: int|
                0 <= k < out@.len() && (#[trigger] out@[k])@ == p by {
                let t = choose|t: int| 0 <= t < self.files@.len() && self.files@[t].rel_path@ == p;
                self.lemma_status_at(t);
                assert(!self.files@[t].copied);
                assert(out@[pos[t]]@ == p);
            }
        }
        out
    }

    /// Reconciles the store with a fresh directory scan: a no-op when
    /// the previous scan completed; otherwise every scanned path whose
    /// name matches the suffix filter is discovered (tracked paths are
    /// left as they are) and the scan is marked complete.
    pub fn reconcile_scan(&mut self, scanned: &Vec<Vec<u8>>, suffix: &Vec<u8>)
        requires
            old(self).wf(),
        ensures
            final(self).wf(),
            final(self).scan_complete,
            old(self).scan_complete ==> *final(self) == *old(self),
            final(self).files@.len() >= old(self).files@.len(),
            forall|j: int|
                0 <= j < old(self).files@.len() ==> final(self).files@[j] == old(self).files@[j],
            forall|j: int|
                old(self).files@.len() <= j < final(self).files@.len() ==> !(#[trigger] final(self).files@[j]).copied,
            forall|p: Seq<u8>| final(self).is_copied(p) <==> old(self).is_copied(p),
            forall|p: Seq<u8>|
                final(self).tracks(p) <==> old(self).tracks(p) || (!old(self).scan_complete
                    && exists|t: int|
                    0 <= t < scanned@.len() && (#[trigger] scanned@[t])@ == p && suffix_match(
                        p,
                        suffix@,
                    )),
    {
        if self.scan_complete {
            return ;
        }
        let n: usize = scanned.len();
        let ghost base = *self;
        let ghost mut loc: Map<int, int> = Map::empty();
        let mut k: usize = 0;
        while k < n
            invariant
                self.wf(),
                !self.scan_complete,
                n == scanned@.len(),
                0 <= k <= n,
                self.files@.len() >= base.files@.len(),
                forall|j: int|
                    0 <= j < base.files@.len() ==> self.files@[j] == base.files@[j],
                forall|j: int|
                    base.files@.len() <= j < self.files@.len() ==> !(#[trigger] self.files@[
                        j
                    ]).copied && among_scanned(scanned@, suffix@, self.files@[j].rel_path@),
                forall|t: int|
                    0 <= t < k && suffix_match((#[trigger] scanned@[t])@, suffix@) ==> loc.dom()
                        .contains(t) && 0 <= loc[t] < self.files@.len() && self.files@[
                        loc[t]
                    ].rel_path@ == scanned@[t]@,
            decreases n - k,
        {
            let len_k: usize = scanned[k].len();
            if suffix_matches(&scanned[k], suffix) {
                let p = copy_range(&scanned[k], 0, len_k);
                proof {
                    assert(p@ =~= scanned@[k as int]@);
                }
                match self.find_idx(&p) {
                    Some(fi) => {
                        proof {
                            loc = loc.insert(k as int, fi as int);
                        }
                    },
                    None => {
                        let ghost prev = self.files@;
                        self.files.push(TrackedFile { rel_path: p, copied: false, copied_at: 0 });
                        proof {
                            loc = loc.insert(k as int, prev.len() as int);
                            assert forall|a: int, b: int|
                                0 <= a < b < self.files@.len() implies (#[trigger] self.files@[
                                a
                            ]).rel_path@ != (#[trigger] self.files@[b]).rel_path@ by {
                                if b < prev.len() {
                                    assert(prev[a].rel_path@ != prev[b].rel_path@);
                                } else {
                                    assert(self.files@[a] == prev[a]);
                                }
                            }
                            assert(scanned@[k as int]@ == p@);
                            assert(among_scanned(scanned@, suffix@, p@));
                            assert forall|j: int|
                                base.files@.len() <= j < self.files@.len() implies !(
                            #[trigger] self.files@[j]).copied && among_scanned(
                                scanned@,
                                suffix@,
                                self.files@[j].rel_path@,
                            ) by {
                                if j < prev.len() {
                                    assert(self.files@[j] == prev[j]);
                                } else {
                                    assert(self.files@[j].rel_path@ == p@);
                                }
                            }
                        }
                    },
                }
            }
            k = k + 1;
        }
        self.scan_complete = true;
        proof {
            assert(base == *old(self));
            let olen = old(self).files@.len() as int;
            assert forall|p: Seq<u8>| self.is_copied(p) <==> old(self).is_copied(p) by {
                if self.is_copied(p) {
                    let j = choose|j: int|
                        0 <= j < self.files@.len() && self.files@[j].rel_path@ == p && self.files@[
                            j
                        ].copied;
                    if j >= olen {
                        assert(!(#[trigger] self.files@[j]).copied);
                    }
                    assert(old(self).files@[j].rel_path@ == p && old(self).files@[j].copied);
                }
                if old(self).is_copied(p) {
                    let j = choose|j: int|
                        0 <= j < olen && old(self).files@[j].rel_path@ == p && old(self).files@[j].copied;
                    assert(self.files@[j].rel_path@ == p && self.files@[j].copied);
                }
            }
            assert forall|p: Seq<u8>|
                self.tracks(p) <==> old(self).tracks(p) || (!old(self).scan_complete && exists|
                t: int,
            | 0 <= t < scanned@.len() && (#[trigger] scanned@[t])@ == p && suffix_match(
                p,
                suffix@,
            )) by {
                if self.tracks(p) {
                    let j = choose|j: int|
                        0 <= j < self.files@.len() && self.files@[j].rel_path@ == p;
                    if j < olen {
                        assert(old(self).files@[j].rel_path@ == p);
                    } else {
                        assert(among_scanned(scanned@, suffix@, p));
                        let t = choose|t: int|
                            0 <= t < scanned@.len() && (#[trigger] scanned@[t])@ == p;
                        assert(scanned@[t]@ == p && suffix_match(p, suffix@));
                    }
                }
                if old(self).tracks(p) {
                    let j = choose|j: int|
                        0 <= j < olen && old(self).files@[j].rel_path@ == p;
                    assert(self.files@[j].rel_path@ == p);
                }
                if !old(self).scan_complete && exists|t: int|
                    0 <= t < scanned@.len() && (#[trigger] scanned@[t])@ == p && suffix_match(
                        p,
                        suffix@,
                    ) {
                    let t = choose|t: int|
                        0 <= t < scanned@.len() && (#[trigger] scanned@[t])@ == p && suffix_match(
                            p,
                            suffix@,
                        );
                    assert(self.files@[loc[t]].rel_path@ == p);
                }
            }
        }
    }
}

} // verus!
