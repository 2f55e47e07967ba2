//! The copy engine: reconciles the store with a directory scan, then
//! takes every pending source file through capture-date extraction,
//! destination resolution with collision handling, the (modelled) copy,
//! and the copied mark — at most one copy per source path, idempotent
//! across repeated runs, and resumable after an interruption.
//!
//! The engine works on plain values: the surrounding program walks the
//! source tree, reads file bytes, performs the returned copy actions on
//! disk, and persists the store.

use vstd::prelude::*;
use crate::store::StateStore;
use crate::dest::{DestIndex, Resolution, cand_path};
use crate::capture::{capture_dir, dir_ok, capture_unparsable, sentinel_dir};
use crate::compare::{md5_hex, md5_hex_of};
use crate::paths::{base_name, base_name_of, copy_range, suffix_match};

verus! {

/// One source file, as the directory walk hands it over: its path
/// relative to the source root and its bytes.
#[derive(Debug)]
pub struct SourceFile {
    pub rel_path: Vec<u8>,
    pub bytes: Vec<u8>,
}

/// One copy the engine decided on: copy the source file at `src_rel`
/// to `dest_rel` under the destination root, byte for byte.
#[derive(Debug)]
pub struct CopyAction {
    pub src_rel: Vec<u8>,
    pub dest_rel: Vec<u8>,
}

/// Whether some source file in `tree` has the relative path `p`.
pub open spec fn tree_has(tree: Seq<SourceFile>, p: Seq<u8>) -> bool {
    exists|i: int| 0 <= i < tree.len() && (#[trigger] tree[i]).rel_path@ == p
}

/// Every source path appears at most once, as in a directory walk.
pub open spec fn tree_wf(tree: Seq<SourceFile>) -> bool {
    forall|i: int, j: int|
        0 <= i < j < tree.len() ==> (#[trigger] tree[i]).rel_path@ != (#[trigger] tree[
            j
        ]).rel_path@
}

/// Takes one pending source file to its terminal state: resolves its
/// destination, and either recognizes it as a duplicate of a file
/// already written (no copy, no new entry) or claims a fresh
/// destination path for it (one new entry, one returned action). The
/// file is marked copied either way; no other file and no existing
/// destination entry changes.
pub fn process_one(
    store: &mut StateStore,
    dest: &mut DestIndex,
    rel_path: &Vec<u8>,
    bytes: &Vec<u8>,
    now: i64,
) -> (r: Option<CopyAction>)
    requires
        old(store).wf(),
        old(dest).wf(),
        old(store).is_pending(rel_path@),
    ensures
        final(store).wf(),
        final(dest).wf(),
        final(store).scan_complete == old(store).scan_complete,
        final(store).files@.len() == old(store).files@.len(),
        forall|j: int|
            0 <= j < old(store).files@.len() ==> (#[trigger] final(store).files@[j]).rel_path@
                == old(store).files@[j].rel_path@,
        forall|j: int|
            0 <= j < old(store).files@.len() && old(store).files@[j].rel_path@ != rel_path@
                ==> (#[trigger] final(store).files@[j]) == old(store).files@[j],
        final(store).is_copied(rel_path@),
        forall|q: Seq<u8>|
            q != rel_path@ ==> (final(store).is_copied(q) <==> old(store).is_copied(q)),
        forall|i: int|
            0 <= i < old(dest).entries@.len() ==> (#[trigger] final(dest).entries@[i]) == old(dest).entries@[i],
        r is None ==> *final(dest) == *old(dest),
        r is None ==> exists|i: int|
            0 <= i < old(dest).entries@.len() && (#[trigger] old(dest).entries@[i]).size
                == bytes@.len() && old(dest).entries@[i].digest@ == md5_hex_of(bytes@),
        r matches Some(a) ==> a.src_rel@ == rel_path@ && final(dest).entries@.len() == old(dest).entries@.len() + 1 && final(dest).entries@.last().rel_path@ == a.dest_rel@ && final(dest).entries@.last().size == bytes@.len() && final(dest).entries@.last().digest@
            == md5_hex_of(bytes@) && !old(dest).has_path(a.dest_rel@),
        r matches Some(a) ==> exists|d: Seq<u8>, c: nat|
            dir_ok(bytes@, d) && a.dest_rel@ == #[trigger] cand_path(
                d,
                base_name_of(rel_path@),
                c,
            ),
        r matches Some(a) ==> (capture_unparsable(bytes@) ==> exists|c: nat|
            a.dest_rel@ == #[trigger] cand_path(sentinel_dir(), base_name_of(rel_path@), c)),
        capture_unparsable(bytes@) && old(dest).match_at(
            cand_path(sentinel_dir(), base_name_of(rel_path@), 0),
            bytes@.len() as usize,
            md5_hex_of(bytes@),
        ) ==> r is None,
{
    let dir = capture_dir(bytes);
    let base = base_name(rel_path);
    let digest = md5_hex(bytes);
    let size = bytes.len();
    match dest.resolve(&dir, &base, size, &digest) {
        Resolution::Duplicate { rel_path: dup_path, .. } => {
            proof {
                assert(dest.match_at(dup_path@, size, digest@));
            }
            store.mark_copied(rel_path, now);
            proof {
                let i = choose|i: int|
                    0 <= i < dest.entries@.len() && (#[trigger] dest.entries@[i]).rel_path@
                        == dup_path@ && dest.entries@[i].size == size && dest.entries@[i].digest@
                        == digest@;
                assert(dest.entries@[i].size == bytes@.len() && dest.entries@[i].digest@
                    == md5_hex_of(bytes@));
            }
            None
        },
        Resolution::Fresh { rel_path: new_path, count } => {
            proof {
                if capture_unparsable(bytes@) && dest.match_at(
                    cand_path(sentinel_dir(), base_name_of(rel_path@), 0),
                    bytes@.len() as usize,
                    md5_hex_of(bytes@),
                ) {
                    assert(dir@ == sentinel_dir());
                    if count == 0 {
                        let i = choose|i: int|
                            0 <= i < dest.entries@.len() && (#[trigger] dest.entries@[
                                i
                            ]).rel_path@ == cand_path(sentinel_dir(), base_name_of(rel_path@), 0)
                                && dest.entries@[i].size == bytes@.len() && dest.entries@[
                                i
                            ].digest@ == md5_hex_of(bytes@);
                        assert(dest.has_path(new_path@));
                        assert(false);
                    } else {
                        let c0: int = 0;
                        assert(!dest.match_at(cand_path(dir@, base@, c0 as nat), size, digest@));
                        assert(false);
                    }
                }
            }
            let new_len: usize = new_path.len();
            let action_path = copy_range(&new_path, 0, new_len);
            proof {
                assert(action_path@ =~= new_path@);
            }
            let src_len: usize = rel_path.len();
            let src_copy = copy_range(rel_path, 0, src_len);
            proof {
                assert(src_copy@ =~= rel_path@);
            }
            let ghost old_dest = *dest;
            dest.record_entry(new_path, size, digest);
            store.mark_copied(rel_path, now);
            proof {
                assert(dest.entries@ == old_dest.entries@.push(dest.entries@.last()));
                assert(exists|d: Seq<u8>, c: nat|
                    dir_ok(bytes@, d) && action_path@ == #[trigger] cand_path(
                        d,
                        base_name_of(rel_path@),
                        c,
                    )) by {
                    assert(dir_ok(bytes@, dir@) && action_path@ == cand_path(
                        dir@,
                        base_name_of(rel_path@),
                        count as nat,
                    ));
                }
                if capture_unparsable(bytes@) {
                    assert(dir@ == sentinel_dir());
                    assert(action_path@ == cand_path(
                        sentinel_dir(),
                        base_name_of(rel_path@),
                        count as nat,
                    ));
                }
            }
            Some(CopyAction { src_rel: src_copy, dest_rel: action_path })
        },
    }
}

/// The copy `a` is recorded: some destination entry carries its
/// destination path with the size and digest of its source's bytes.
pub open spec fn action_recorded(dest: DestIndex, tree: Seq<SourceFile>, a: CopyAction) -> bool {
    exists|i: int, t: int|
        0 <= i < dest.entries@.len() && 0 <= t < tree.len() && a.dest_rel@ == (
        #[trigger] dest.entries@[i]).rel_path@ && a.src_rel@ == (#[trigger] tree[t]).rel_path@
            && dest.entries@[i].size == tree[t].bytes@.len() && dest.entries@[i].digest@
            == md5_hex_of(tree[t].bytes@)
}

/// A failure that aborts the whole run.
#[derive(Debug)]
pub enum EngineError {
    /// A pending source file is missing from the scanned tree.
    SourceMissing { rel_path: Vec<u8> },
}

/// Index of the source file with relative path `p`, if any.
fn find_source(tree: &Vec<SourceFile>, p: &Vec<u8>) -> (r: Option<usize>)
    ensures
        r matches Some(i) ==> i < tree@.len() && tree@[i as int].rel_path@ == p@,
        r is None ==> !tree_has(tree@, p@),
{
    let n: usize = tree.len();
    let mut k: usize = 0;
    while k < n
        invariant
            n == tree@.len(),
            0 <= k <= n,
            forall|t: int| 0 <= t < k ==> (#[trigger] tree@[t]).rel_path@ != p@,
        decreases n - k,
    {
        if crate::compare::bytes_equal(&tree[k].rel_path, p) {
            return Some(k);
        }
        k = k + 1;
    }
    None
}

/// One full engine run over a scanned source tree: reconcile the store
/// with the scan, then take every pending file to copied — copying it
/// to a collision-free destination path or recognizing it as a
/// duplicate already written. Succeeds exactly when every pending file
/// is present in the tree; aborts on the first one that is not,
/// keeping everything already marked.
#[verifier::rlimit(100)]
pub fn run(
    store: &mut StateStore,
    dest: &mut DestIndex,
    tree: &Vec<SourceFile>,
    suffix: &Vec<u8>,
    now: i64,
) -> (r: Result<Vec<CopyAction>, EngineError>)
    requires
        old(store).wf(),
        old(dest).wf(),
        tree_wf(tree@),
    ensures
        final(store).wf(),
        final(dest).wf(),
        final(dest).entries@.len() >= old(dest).entries@.len(),
        forall|i: int|
            0 <= i < old(dest).entries@.len() ==> (#[trigger] final(dest).entries@[i]) == old(dest).entries@[i],
        forall|j: int|
            0 <= j < old(store).files@.len() && (#[trigger] old(store).files@[j]).copied
                ==> final(store).files@[j] == old(store).files@[j],
        forall|p: Seq<u8>| old(store).is_copied(p) ==> final(store).is_copied(p),
        r is Ok <==> (forall|p: Seq<u8>| old(store).is_pending(p) ==> tree_has(tree@, p)),
        r is Ok ==> final(store).scan_complete,
        r is Ok ==> (forall|p: Seq<u8>|
            final(store).tracks(p) <==> old(store).tracks(p) || (!old(store).scan_complete
                && suffix_match(p, suffix@) && tree_has(tree@, p))),
        r is Ok ==> (forall|p: Seq<u8>| final(store).tracks(p) ==> final(store).is_copied(p)),
        r matches Ok(actions) ==> (forall|x: int|
            0 <= x < actions@.len() ==> !old(store).is_copied((#[trigger] actions@[x]).src_rel@)
                && final(store).is_copied(actions@[x].src_rel@)),
        r matches Ok(actions) ==> (forall|x: int, y: int|
            0 <= x < y < actions@.len() ==> (#[trigger] actions@[x]).src_rel@ != (
            #[trigger] actions@[y]).src_rel@),
        r matches Ok(actions) ==> (forall|x: int|
            0 <= x < actions@.len() ==> action_recorded(
                *final(dest),
                tree@,
                #[trigger] actions@[x],
            )),
        old(store).scan_complete && (forall|p: Seq<u8>|
            old(store).tracks(p) ==> old(store).is_copied(p)) ==> *final(store) == *old(store)
            && *final(dest) == *old(dest) && r is Ok && (r matches Ok(actions) ==> actions@.len()
            == 0),
{
    let ghost st0 = *store;
    let ghost d0 = *dest;
    let tn: usize = tree.len();
    let mut scanned: Vec<Vec<u8>> = Vec::new();
    let mut t: usize = 0;
    while t < tn
        invariant
            tn == tree@.len(),
            0 <= t <= tn,
            scanned@.len() == t,
            forall|x: int| 0 <= x < t ==> (#[trigger] scanned@[x])@ == tree@[x].rel_path@,
        decreases tn - t,
    {
        let ln: usize = tree[t].rel_path.len();
        let c = copy_range(&tree[t].rel_path, 0, ln);
        proof {
            assert(c@ =~= tree@[t as int].rel_path@);
        }
        scanned.push(c);
        t = t + 1;
    }
    store.reconcile_scan(&scanned, suffix);
    let ghost s1 = *store;
    let pl = store.pending_list();
    let pn: usize = pl.len();
    let mut actions: Vec<CopyAction> = Vec::new();
    let ghost mut amap: Seq<int> = Seq::empty();
    let ghost mut tmap: Seq<int> = Seq::empty();
    let ghost mut emap: Seq<int> = Seq::empty();
    let mut k: usize = 0;
    while k < pn
        invariant
            store.wf(),
            dest.wf(),
            tree_wf(tree@),
            st0 == *old(store),
            d0 == *old(dest),
            tn == tree@.len(),
            pn == pl@.len(),
            0 <= k <= pn,
            scanned@.len() == tree@.len(),
            forall|x: int| 0 <= x < tree@.len() ==> (#[trigger] scanned@[x])@ == tree@[x].rel_path@,
            crate::store::distinct_views(pl@),
            forall|t2: int| 0 <= t2 < pn ==> s1.is_pending((#[trigger] pl@[t2])@),
            forall|p: Seq<u8>|
                s1.is_pending(p) ==> exists|t2: int| 0 <= t2 < pn && (#[trigger] pl@[t2])@ == p,
            s1.wf(),
            s1.scan_complete,
            st0.scan_complete ==> s1 == st0,
            s1.files@.len() >= st0.files@.len(),
            forall|j: int| 0 <= j < st0.files@.len() ==> (#[trigger] s1.files@[j]) == st0.files@[j],
            forall|p: Seq<u8>| s1.is_copied(p) <==> st0.is_copied(p),
            forall|p: Seq<u8>|
                s1.tracks(p) <==> st0.tracks(p) || (!st0.scan_complete && exists|t2: int|
                    0 <= t2 < scanned@.len() && (#[trigger] scanned@[t2])@ == p && suffix_match(
                        p,
                        suffix@,
                    )),
            store.scan_complete,
            store.files@.len() == s1.files@.len(),
            forall|j: int|
                0 <= j < s1.files@.len() ==> (#[trigger] store.files@[j]).rel_path@ == s1.files@[
                    j
                ].rel_path@,
            forall|j: int|
                0 <= j < s1.files@.len() && (#[trigger] s1.files@[j]).copied ==> store.files@[j]
                    == s1.files@[j],
            forall|t2: int| 0 <= t2 < k ==> store.is_copied((#[trigger] pl@[t2])@),
            forall|t2: int| k <= t2 < pn ==> store.is_pending((#[trigger] pl@[t2])@),
            forall|t2: int| 0 <= t2 < k ==> tree_has(tree@, (#[trigger] pl@[t2])@),
            dest.entries@.len() >= d0.entries@.len(),
            forall|i: int|
                0 <= i < d0.entries@.len() ==> (#[trigger] dest.entries@[i]) == d0.entries@[i],
            amap.len() == actions@.len(),
            tmap.len() == actions@.len(),
            emap.len() == actions@.len(),
            forall|x: int| 0 <= x < amap.len() ==> 0 <= #[trigger] amap[x] < k,
            forall|x: int|
                0 <= x < amap.len() ==> pl@[amap[x]]@ == (#[trigger] actions@[x]).src_rel@,
            forall|x: int, y: int| 0 <= x < y < amap.len() ==> #[trigger] amap[x] < #[trigger] amap[y],
            forall|x: int| 0 <= x < emap.len() ==> 0 <= #[trigger] emap[x] < dest.entries@.len(),
            forall|x: int| 0 <= x < tmap.len() ==> 0 <= #[trigger] tmap[x] < tree@.len(),
            forall|x: int|
                0 <= x < actions@.len() ==> (#[trigger] dest.entries@[emap[x]]).rel_path@
                    == actions@[x].dest_rel@ && dest.entries@[emap[x]].size == tree@[
                    tmap[x]
                ].bytes@.len() && dest.entries@[emap[x]].digest@ == md5_hex_of(
                    tree@[tmap[x]].bytes@,
                ),
            forall|x: int|
                0 <= x < actions@.len() ==> tree@[tmap[x]].rel_path@ == (#[trigger] actions@[
                    x
                ]).src_rel@,
            k == 0 ==> *store == s1 && *dest == d0 && actions@.len() == 0,
        decreases pn - k,
    {
        let ghost pre = *store;
        let ghost pre_d = *dest;
        let pth_len: usize = pl[k].len();
        match find_source(tree, &pl[k]) {
            None => {
                proof {
                    let p = pl@[k as int]@;
                    assert(s1.is_pending(p));
                    if !st0.tracks(p) {
                        assert(!st0.scan_complete && exists|t2: int|
                            0 <= t2 < scanned@.len() && (#[trigger] scanned@[t2])@ == p
                                && suffix_match(p, suffix@));
                        let t2 = choose|t2: int|
                            0 <= t2 < scanned@.len() && (#[trigger] scanned@[t2])@ == p
                                && suffix_match(p, suffix@);
                        assert(tree@[t2].rel_path@ == p);
                        assert(tree_has(tree@, p));
                        assert(false);
                    }
                    assert(!st0.is_copied(p));
                    assert(st0.is_pending(p) && !tree_has(tree@, p));
                    if st0.scan_complete && (forall|q: Seq<u8>|
                        st0.tracks(q) ==> st0.is_copied(q)) {
                        assert(st0.is_copied(p));
                        assert(false);
                    }
                }
                let miss = copy_range(&pl[k], 0, pth_len);
                proof {
                    assert(miss@ =~= pl@[k as int]@);
                }
                return Err(EngineError::SourceMissing { rel_path: miss });
            },
            Some(ti) => {
                proof {
                    assert(tree@[ti as int].rel_path@ == pl@[k as int]@);
                    assert(store.is_pending(pl@[k as int]@));
                }
                let act = process_one(store, dest, &tree[ti].rel_path, &tree[ti].bytes, now);
                proof {
                    let target = pl@[k as int]@;
                    assert forall|t2: int| 0 <= t2 < k + 1 implies store.is_copied(
                        (#[trigger] pl@[t2])@,
                    ) by {
                        if t2 < k {
                            assert(pl@[t2]@ != target);
                            assert(pre.is_copied(pl@[t2]@));
                        }
                    }
                    assert forall|t2: int| k + 1 <= t2 < pn implies store.is_pending(
                        (#[trigger] pl@[t2])@,
                    ) by {
                        assert(pl@[t2]@ != target);
                        assert(pre.is_pending(pl@[t2]@));
                        let j = choose|j: int|
                            0 <= j < pre.files@.len() && (#[trigger] pre.files@[j]).rel_path@
                                == pl@[t2]@;
                        assert(store.files@[j].rel_path@ == pl@[t2]@);
                        assert(store.tracks(pl@[t2]@));
                    }
                    assert forall|j: int|
                        0 <= j < s1.files@.len() && (#[trigger] s1.files@[j]).copied implies
                        store.files@[j] == s1.files@[j] by {
                        assert(pre.files@[j] == s1.files@[j]);
                        if pre.files@[j].rel_path@ == target {
                            s1.lemma_status_at(j);
                            assert(s1.is_copied(target));
                            assert(false);
                        }
                    }
                }
                match act {
                    Some(a) => {
                        proof {
                            amap = amap.push(k as int);
                            tmap = tmap.push(ti as int);
                            emap = emap.push(pre_d.entries@.len() as int);
                        }
                        actions.push(a);
                        proof {
                            assert(dest.entries@[pre_d.entries@.len() as int]
                                == dest.entries@.last());
                            assert(actions@.last() == a);
                        }
                    },
                    None => {
                    },
                }
                proof {
                    assert forall|t2: int| 0 <= t2 < k + 1 implies tree_has(
                        tree@,
                        (#[trigger] pl@[t2])@,
                    ) by {
                        if t2 == k {
                            assert(tree@[ti as int].rel_path@ == pl@[t2]@);
                        }
                    }
                }
            },
        }
        k = k + 1;
    }
    proof {
        assert forall|p: Seq<u8>| st0.is_pending(p) implies tree_has(tree@, p) by {
            assert(s1.is_pending(p)) by {
                let j = choose|j: int|
                    0 <= j < st0.files@.len() && (#[trigger] st0.files@[j]).rel_path@ == p;
                assert(s1.files@[j].rel_path@ == p);
            }
            let t2 = choose|t2: int| 0 <= t2 < pn && (#[trigger] pl@[t2])@ == p;
            assert(tree_has(tree@, pl@[t2]@));
        }
        assert forall|p: Seq<u8>| store.tracks(p) implies store.is_copied(p) by {
            let j = choose|j: int|
                0 <= j < store.files@.len() && (#[trigger] store.files@[j]).rel_path@ == p;
            if s1.files@[j].copied {
                assert(store.files@[j] == s1.files@[j]);
            } else {
                s1.lemma_status_at(j);
                assert(s1.is_pending(p));
                let t2 = choose|t2: int| 0 <= t2 < pn && (#[trigger] pl@[t2])@ == p;
                assert(store.is_copied(pl@[t2]@));
            }
        }
        assert forall|p: Seq<u8>| st0.is_copied(p) implies store.is_copied(p) by {
            assert(s1.is_copied(p));
            let j = choose|j: int|
                0 <= j < s1.files@.len() && (#[trigger] s1.files@[j]).rel_path@ == p && s1.files@[
                    j
                ].copied;
            assert(store.files@[j] == s1.files@[j]);
        }
        assert forall|p: Seq<u8>|
            store.tracks(p) <==> st0.tracks(p) || (!st0.scan_complete && suffix_match(
                p,
                suffix@,
            ) && tree_has(tree@, p)) by {
            if store.tracks(p) {
                let j = choose|j: int|
                    0 <= j < store.files@.len() && (#[trigger] store.files@[j]).rel_path@ == p;
                assert(s1.files@[j].rel_path@ == p);
                assert(s1.tracks(p));
                if !st0.tracks(p) {
                    let t2 = choose|t2: int|
                        0 <= t2 < scanned@.len() && (#[trigger] scanned@[t2])@ == p && suffix_match(
                            p,
                            suffix@,
                        );
                    assert(tree@[t2].rel_path@ == p);
                    assert(tree_has(tree@, p));
                }
            }
            if st0.tracks(p) {
                assert(s1.tracks(p));
                let j = choose|j: int|
                    0 <= j < s1.files@.len() && (#[trigger] s1.files@[j]).rel_path@ == p;
                assert(store.files@[j].rel_path@ == p);
                assert(store.tracks(p));
            }
            if !st0.scan_complete && suffix_match(p, suffix@) && tree_has(tree@, p) {
                let t2 = choose|t2: int|
                    0 <= t2 < tree@.len() && (#[trigger] tree@[t2]).rel_path@ == p;
                assert(scanned@[t2]@ == p);
                assert(s1.tracks(p));
                let j = choose|j: int|
                    0 <= j < s1.files@.len() && (#[trigger] s1.files@[j]).rel_path@ == p;
                assert(store.files@[j].rel_path@ == p);
                assert(store.tracks(p));
            }
        }
        assert forall|x: int| 0 <= x < actions@.len() implies !st0.is_copied(
            (#[trigger] actions@[x]).src_rel@,
        ) && store.is_copied(actions@[x].src_rel@) by {
            assert(s1.is_pending(pl@[amap[x]]@));
            assert(store.is_copied(pl@[amap[x]]@));
        }
        assert forall|x: int, y: int| 0 <= x < y < actions@.len() implies (#[trigger] actions@[
            x
        ]).src_rel@ != (#[trigger] actions@[y]).src_rel@ by {
            assert(amap[x] < amap[y]);
            assert(pl@[amap[x]]@ != pl@[amap[y]]@);
        }
        assert forall|x: int| 0 <= x < actions@.len() implies action_recorded(
            *dest,
            tree@,
            #[trigger] actions@[x],
        ) by {
            assert(0 <= emap[x] < dest.entries@.len() && 0 <= tmap[x] < tree@.len() && actions@[
                x
            ].dest_rel@ == (#[trigger] dest.entries@[emap[x]]).rel_path@ && actions@[x].src_rel@
                == (#[trigger] tree@[tmap[x]]).rel_path@ && dest.entries@[emap[x]].size == tree@[
                tmap[x]
            ].bytes@.len() && dest.entries@[emap[x]].digest@ == md5_hex_of(tree@[tmap[x]].bytes@));
        }
        if st0.scan_complete && (forall|p: Seq<u8>| st0.tracks(p) ==> st0.is_copied(p)) {
            assert(s1 == st0);
            if pn > 0 {
                assert(s1.is_pending(pl@[0]@));
                assert(st0.is_copied(pl@[0]@));
                assert(false);
            }
            assert(k == 0);
            assert(*store == s1 && *dest == d0 && actions@.len() == 0);
        }
    }
    Ok(actions)
}

} // verus!
