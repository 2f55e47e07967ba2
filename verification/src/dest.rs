//! The destination tree, seen through its content cache: one entry per
//! written file, holding its path relative to the destination root, its
//! size and its content digest. Entries are never changed once written,
//! because the engine never rewrites a destination file.
//!
//! [`DestIndex::resolve`] walks the candidate names for a source file —
//! the base name first, then `stem_1.ext`, `stem_2.ext`, … — and stops
//! at the first candidate that either is free (the file is copied
//! there) or holds identical content (the file is a duplicate and is
//! not copied). The walk provably stops within `entries.len() + 1`
//! steps: candidate names are pairwise distinct, so they cannot all
//! collide with a finite index.

use vstd::prelude::*;
use vstd::seq_lib::seq_to_set_is_finite;
use vstd::set_lib::lemma_len_subset;
use crate::paths::{candidate_seq, joined_seq, candidate_name, join_path,
    lemma_joined_candidate_injective};
use crate::compare::bytes_equal;

verus! {

/// One written destination file: path, size, content digest.
#[derive(Debug)]
pub struct DestEntry {
    /// Path relative to the destination root; unique within an index.
    pub rel_path: Vec<u8>,
    pub size: usize,
    pub digest: Vec<u8>,
}

/// The content cache of a destination tree.
#[derive(Debug)]
pub struct DestIndex {
    pub entries: Vec<DestEntry>,
}

/// The `c`-th destination path tried for a file: directory, slash,
/// `c`-th candidate name.
pub open spec fn cand_path(dir: Seq<u8>, base: Seq<u8>, c: nat) -> Seq<u8> {
    joined_seq(dir, candidate_seq(base, c))
}

/// How a collision walk ends: the file already sits at `rel_path` with
/// identical content, or `rel_path` is free and the file goes there.
#[derive(Debug)]
pub enum Resolution {
    /// An entry at `rel_path` has the source's size and digest: the
    /// source is a duplicate and nothing is copied.
    Duplicate { rel_path: Vec<u8>, count: usize },
    /// `rel_path` is free: the source is copied there.
    Fresh { rel_path: Vec<u8>, count: usize },
}

impl DestIndex {
    /// Every written path appears at most once.
    pub open spec fn wf(self) -> bool {
        forall|i: int, j: int|
            0 <= i < j < self.entries@.len() ==> (#[trigger] self.entries@[i]).rel_path@ != (
            #[trigger] self.entries@[j]).rel_path@
    }

    /// Whether a file has been written at `p`.
    pub open spec fn has_path(self, p: Seq<u8>) -> bool {
        exists|i: int|
            0 <= i < self.entries@.len() && (#[trigger] self.entries@[i]).rel_path@ == p
    }

    /// Whether the file at `p` has the given size and digest.
    pub open spec fn match_at(self, p: Seq<u8>, size: usize, digest: Seq<u8>) -> bool {
        exists|i: int|
            0 <= i < self.entries@.len() && (#[trigger] self.entries@[i]).rel_path@ == p
                && self.entries@[i].size == size && self.entries@[i].digest@ == digest
    }

    /// An empty destination.
    pub fn new() -> (r: DestIndex)
        ensures
            r.wf(),
            r.entries@.len() == 0,
    {
        DestIndex { entries: Vec::new() }
    }

    /// Index of the entry at `p`, if any.
    fn find(&self, p: &Vec<u8>) -> (r: Option<usize>)
        ensures
            r matches Some(i) ==> i < self.entries@.len() && self.entries@[i as int].rel_path@
                == p@,
            r is None ==> !self.has_path(p@),
    {
        let n: usize = self.entries.len();
        let mut k: usize = 0;
        while k < n
            invariant
                n == self.entries@.len(),
                0 <= k <= n,
                forall|t: int| 0 <= t < k ==> (#[trigger] self.entries@[t]).rel_path@ != p@,
            decreases n - k,
        {
            if bytes_equal(&self.entries[k].rel_path, p) {
                return Some(k);
            }
            k = k + 1;
        }
        None
    }

    /// Whether a file has been written at `p`.
    pub fn contains_path(&self, p: &Vec<u8>) -> (r: bool)
        ensures
            r == self.has_path(p@),
    {
        match self.find(p) {
            Some(i) => {
                proof {
                    assert(self.entries@[i as int].rel_path@ == p@);
                }
                true
            },
            None => false,
        }
    }

    /// Records a written file; a path already recorded is left exactly
    /// as it is (entries are immutable once written).
    pub fn record_entry(&mut self, rel_path: Vec<u8>, size: usize, digest: Vec<u8>)
        requires
            old(self).wf(),
        ensures
            final(self).wf(),
            old(self).has_path(rel_path@) ==> *final(self) == *old(self),
            !old(self).has_path(rel_path@) ==> final(self).entries@ == old(self).entries@.push(
                (DestEntry { rel_path: rel_path, size: size, digest: digest }),
            ),
    {
        match self.find(&rel_path) {
            Some(_) => {
            },
            None => {
                self.entries.push(DestEntry { rel_path, size, digest });
            },
        }
    }

    /// Candidate paths are pairwise distinct, so a prefix of them that
    /// all collide with the index cannot outnumber its entries.
    proof fn lemma_candidates_bound(self, dir: Seq<u8>, base: Seq<u8>, m: nat)
        requires
            self.wf(),
            forall|c: int| 0 <= c < m ==> self.has_path(#[trigger] cand_path(dir, base, c as nat)),
        ensures
            m <= self.entries@.len(),
    {
        broadcast use seq_to_set_is_finite;

        let cands = Seq::new(m, |c: int| cand_path(dir, base, c as nat));
        assert forall|a: int, b: int| 0 <= a < b < m implies cands[a] != cands[b] by {
            lemma_joined_candidate_injective(dir, base, a as nat, b as nat);
        }
        assert(cands.no_duplicates());
        cands.unique_seq_to_set();
        let paths = self.entries@.map_values(|e: DestEntry| e.rel_path@);
        paths.lemma_cardinality_of_set();
        assert forall|p: Seq<u8>| cands.to_set().contains(p) implies paths.to_set().contains(
            p,
        ) by {
            let c = choose|c: int| 0 <= c < m && cands[c] == p;
            assert(self.has_path(cand_path(dir, base, c as nat)));
            let i = choose|i: int|
                0 <= i < self.entries@.len() && (#[trigger] self.entries@[i]).rel_path@ == p;
            assert(paths[i] == p);
            assert(paths.contains(p));
        }
        assert(cands.to_set().subset_of(paths.to_set()));
        lemma_len_subset(cands.to_set(), paths.to_set());
    }

    /// Resolves where a source file lands: the first candidate path
    /// that is free, unless an earlier candidate already holds content
    /// of the source's size and digest, which makes the source a
    /// duplicate. Every candidate before the answer collides with
    /// content that differs from the source's.
    pub fn resolve(&self, dir: &Vec<u8>, base: &Vec<u8>, size: usize, digest: &Vec<u8>) -> (r:
        Resolution)
        requires
            self.wf(),
        ensures
            r matches Resolution::Fresh { rel_path, count } ==> rel_path@ == cand_path(
                dir@,
                base@,
                count as nat,
            ) && !self.has_path(rel_path@) && count <= self.entries@.len() && forall|c: int|
                0 <= c < count ==> self.has_path(#[trigger] cand_path(dir@, base@, c as nat))
                    && !self.match_at(cand_path(dir@, base@, c as nat), size, digest@),
            r matches Resolution::Duplicate { rel_path, count } ==> rel_path@ == cand_path(
                dir@,
                base@,
                count as nat,
            ) && self.match_at(rel_path@, size, digest@) && count <= self.entries@.len() && forall|
                c: int,
            |
                0 <= c < count ==> self.has_path(#[trigger] cand_path(dir@, base@, c as nat))
                    && !self.match_at(cand_path(dir@, base@, c as nat), size, digest@),
    {
        let n: usize = self.entries.len();
        let mut count: usize = 0;
        loop
            invariant
                self.wf(),
                n == self.entries@.len(),
                0 <= count <= n,
                forall|c: int|
                    0 <= c < count ==> self.has_path(#[trigger] cand_path(dir@, base@, c as nat))
                        && !self.match_at(cand_path(dir@, base@, c as nat), size, digest@),
            decreases n - count,
        {
            let name = candidate_name(base, count);
            let path = join_path(dir, &name);
            proof {
                assert(path@ == cand_path(dir@, base@, count as nat));
            }
            match self.find(&path) {
                None => {
                    return Resolution::Fresh { rel_path: path, count };
                },
                Some(i) => {
                    proof {
                        assert(self.entries@[i as int].rel_path@ == path@);
                        assert(self.has_path(cand_path(dir@, base@, count as nat)));
                    }
                    if self.entries[i].size == size && bytes_equal(&self.entries[i].digest, digest) {
                        proof {
                            assert(self.match_at(path@, size, digest@));
                        }
                        return Resolution::Duplicate { rel_path: path, count };
                    }
                    proof {
                        assert forall|c: int|
                            0 <= c < count + 1 implies self.has_path(
                            #[trigger] cand_path(dir@, base@, c as nat),
                        ) && !self.match_at(cand_path(dir@, base@, c as nat), size, digest@) by {
                            if c == count {
                                assert(!self.match_at(cand_path(dir@, base@, c as nat), size,
                                    digest@)) by {
                                    if self.match_at(path@, size, digest@) {
                                        let j = choose|j: int|
                                            0 <= j < self.entries@.len() && (
                                            #[trigger] self.entries@[j]).rel_path@ == path@
                                                && self.entries@[j].size == size
                                                && self.entries@[j].digest@ == digest@;
                                        if i as int != j {
                                            assert(self.entries@[i as int].rel_path@
                                                != self.entries@[j].rel_path@);
                                        }
                                    }
                                }
                            }
                        }
                        self.lemma_candidates_bound(dir@, base@, (count + 1) as nat);
                    }
                    count = count + 1;
                },
            }
        }
    }
}

} // verus!
