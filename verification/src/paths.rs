//! Destination file naming: base names of relative paths, the
//! `stem_count.ext` candidate names used to resolve collisions, and
//! case-insensitive suffix matching for the scan filter.
//!
//! Candidate names for one source name are pairwise distinct; the
//! collision loop's termination rests on that fact.

use vstd::prelude::*;
use crate::digits::{dec_seq, lemma_dec_seq_len, lemma_dec_seq_injective, push_dec};

verus! {

pub const SLASH: u8 = 47;

pub const DOT: u8 = 46;

pub const UNDERSCORE: u8 = 95;

/// Index of the last occurrence of `b` in `s`, or -1 if absent.
pub open spec fn last_pos(s: Seq<u8>, b: u8) -> int
    decreases s.len(),
{
    if s.len() == 0 {
        -1
    } else if s.last() == b {
        s.len() - 1
    } else {
        last_pos(s.drop_last(), b)
    }
}

pub proof fn lemma_last_pos(s: Seq<u8>, b: u8)
    ensures
        -1 <= last_pos(s, b) < s.len(),
        last_pos(s, b) >= 0 ==> s[last_pos(s, b)] == b,
        forall|k: int| last_pos(s, b) < k < s.len() ==> s[k] != b,
    decreases s.len(),
{
    if s.len() > 0 && s.last() != b {
        lemma_last_pos(s.drop_last(), b);
        assert(forall|k: int| 0 <= k < s.len() - 1 ==> s[k] == s.drop_last()[k]);
    }
}

/// Final path component: everything after the last slash.
pub open spec fn base_name_of(p: Seq<u8>) -> Seq<u8> {
    p.subrange(last_pos(p, SLASH) + 1, p.len() as int)
}

/// Everything before the last dot, or the whole name if it has none.
pub open spec fn stem_of(name: Seq<u8>) -> Seq<u8> {
    if last_pos(name, DOT) >= 0 {
        name.subrange(0, last_pos(name, DOT))
    } else {
        name
    }
}

/// Everything after the last dot; meaningful only when the name has one.
pub open spec fn ext_of(name: Seq<u8>) -> Seq<u8> {
    name.subrange(last_pos(name, DOT) + 1, name.len() as int)
}

/// The `count`-th destination name tried for a source name: the name
/// itself first, then `stem_count.ext` (or `name_count` for a name
/// without a dot).
pub open spec fn candidate_seq(name: Seq<u8>, count: nat) -> Seq<u8> {
    if count == 0 {
        name
    } else if last_pos(name, DOT) >= 0 {
        stem_of(name) + seq![UNDERSCORE] + dec_seq(count) + seq![DOT] + ext_of(name)
    } else {
        name + seq![UNDERSCORE] + dec_seq(count)
    }
}

/// A destination path: directory, slash, file name.
pub open spec fn joined_seq(dir: Seq<u8>, name: Seq<u8>) -> Seq<u8> {
    dir + seq![SLASH] + name
}

pub proof fn lemma_candidate_len(name: Seq<u8>, count: nat)
    requires
        count > 0,
    ensures
        candidate_seq(name, count).len() == name.len() + 1 + dec_seq(count).len(),
{
    if last_pos(name, DOT) >= 0 {
        lemma_last_pos(name, DOT);
    }
}

/// Distinct attempt counts give distinct candidate names.
pub proof fn lemma_candidate_injective(name: Seq<u8>, i: nat, j: nat)
    requires
        i != j,
    ensures
        candidate_seq(name, i) != candidate_seq(name, j),
{
    if i == 0 {
        lemma_candidate_len(name, j);
        lemma_dec_seq_len(j);
    } else if j == 0 {
        lemma_candidate_len(name, i);
        lemma_dec_seq_len(i);
    } else {
        lemma_candidate_len(name, i);
        lemma_candidate_len(name, j);
        if dec_seq(i).len() == dec_seq(j).len() {
            if candidate_seq(name, i) == candidate_seq(name, j) {
                let st: int = if last_pos(name, DOT) >= 0 {
                    stem_of(name).len() as int
                } else {
                    name.len() as int
                };
                let d = dec_seq(i).len() as int;
                assert forall|k: int| 0 <= k < d implies dec_seq(i)[k] == dec_seq(j)[k] by {
                    assert(candidate_seq(name, i)[st + 1 + k] == dec_seq(i)[k]);
                    assert(candidate_seq(name, j)[st + 1 + k] == dec_seq(j)[k]);
                }
                assert(dec_seq(i) =~= dec_seq(j));
                lemma_dec_seq_injective(i, j);
                assert(false);
            }
        }
    }
}

/// Distinct attempt counts give distinct destination paths.
pub proof fn lemma_joined_candidate_injective(dir: Seq<u8>, name: Seq<u8>, i: nat, j: nat)
    requires
        i != j,
    ensures
        joined_seq(dir, candidate_seq(name, i)) != joined_seq(dir, candidate_seq(name, j)),
{
    lemma_candidate_injective(name, i, j);
    let a = candidate_seq(name, i);
    let b = candidate_seq(name, j);
    if joined_seq(dir, a) == joined_seq(dir, b) {
        assert(joined_seq(dir, a).len() == dir.len() + 1 + a.len()) by {
            assert(joined_seq(dir, a) == (dir + seq![SLASH]) + a);
        }
        assert(joined_seq(dir, b).len() == dir.len() + 1 + b.len()) by {
            assert(joined_seq(dir, b) == (dir + seq![SLASH]) + b);
        }
        assert(a.len() == b.len());
        assert forall|k: int| 0 <= k < a.len() implies a[k] == b[k] by {
            assert(joined_seq(dir, a)[dir.len() + 1 + k] == a[k]);
            assert(joined_seq(dir, b)[dir.len() + 1 + k] == b[k]);
        }
        assert(a =~= b);
    }
}

/// ASCII lower-casing of one byte.
pub open spec fn lower_byte(b: u8) -> u8 {
    if 65 <= b <= 90 {
        (b + 32) as u8
    } else {
        b
    }
}

/// Case-insensitive test that `name` ends with `suffix` (the suffix is
/// taken as given, lower case in every caller).
pub open spec fn suffix_match(name: Seq<u8>, suffix: Seq<u8>) -> bool {
    &&& name.len() >= suffix.len()
    &&& forall|k: int|
        0 <= k < suffix.len() ==> lower_byte(
            name[name.len() - suffix.len() + k],
        ) == suffix[k]
}

/// Copies `v[lo..hi]` into a fresh vector.
pub fn copy_range(v: &Vec<u8>, lo: usize, hi: usize) -> (r: Vec<u8>)
    requires
        lo <= hi <= v@.len(),
    ensures
        r@ == v@.subrange(lo as int, hi as int),
{
    let mut out: Vec<u8> = Vec::new();
    let mut k: usize = lo;
    while k < hi
        invariant
            lo <= k <= hi <= v@.len(),
            out@ == v@.subrange(lo as int, k as int),
        decreases hi - k,
    {
        let b: u8 = v[k];
        out.push(b);
        k = k + 1;
        proof {
            assert(out@ =~= v@.subrange(lo as int, k as int));
        }
    }
    out
}

/// Index of the last occurrence of `b` in `v`, if any.
pub fn find_last(v: &Vec<u8>, b: u8) -> (r: Option<usize>)
    ensures
        r matches Some(k) ==> last_pos(v@, b) == k as int,
        r is None ==> last_pos(v@, b) == -1,
{
    let mut k: usize = v.len();
    proof {
        assert(v@.subrange(0, v@.len() as int) =~= v@);
    }
    while k > 0
        invariant
            0 <= k <= v@.len(),
            last_pos(v@, b) == last_pos(v@.subrange(0, k as int), b),
        decreases k,
    {
        k = k - 1;
        if v[k] == b {
            proof {
                lemma_last_pos_extend(v@, b, k as int);
            }
            return Some(k);
        }
        proof {
            lemma_last_pos_shrink(v@, b, k as int);
        }
    }
    proof {
        assert(v@.subrange(0, 0) =~= Seq::<u8>::empty());
    }
    None
}

proof fn lemma_last_pos_extend(s: Seq<u8>, b: u8, k: int)
    requires
        0 <= k < s.len(),
        s[k] == b,
    ensures
        last_pos(s.subrange(0, k + 1), b) == k,
{
    let t = s.subrange(0, k + 1);
    assert(t.last() == b);
}

proof fn lemma_last_pos_shrink(s: Seq<u8>, b: u8, k: int)
    requires
        0 <= k < s.len(),
        s[k] != b,
    ensures
        last_pos(s.subrange(0, k + 1), b) == last_pos(s.subrange(0, k), b),
{
    let t = s.subrange(0, k + 1);
    assert(t.last() != b);
    assert(t.drop_last() =~= s.subrange(0, k));
}

/// Final path component of a relative path.
pub fn base_name(p: &Vec<u8>) -> (r: Vec<u8>)
    ensures
        r@ == base_name_of(p@),
{
    proof {
        lemma_last_pos(p@, SLASH);
    }
    let n: usize = p.len();
    match find_last(p, SLASH) {
        Some(k) => copy_range(p, k + 1, n),
        None => copy_range(p, 0, n),
    }
}

/// The `count`-th destination name tried for `name`.
pub fn candidate_name(name: &Vec<u8>, count: usize) -> (r: Vec<u8>)
    ensures
        r@ == candidate_seq(name@, count as nat),
{
    if count == 0 {
        return copy_range(name, 0, name.len());
    }
    proof {
        lemma_last_pos(name@, DOT);
    }
    let n: usize = name.len();
    match find_last(name, DOT) {
        Some(dot) => {
            let mut out = copy_range(name, 0, dot);
            out.push(UNDERSCORE);
            push_dec(count as u64, &mut out);
            out.push(DOT);
            proof {
                assert(name@.subrange(dot + 1, dot + 1) =~= Seq::<u8>::empty());
                assert(out@ =~= stem_of(name@) + seq![UNDERSCORE] + dec_seq(count as nat)
                    + seq![DOT] + name@.subrange(dot + 1, dot + 1));
            }
            let mut k: usize = dot + 1;
            while k < n
                invariant
                    last_pos(name@, DOT) == dot as int,
                    n == name@.len(),
                    0 <= dot < name@.len(),
                    dot + 1 <= k <= name@.len(),
                    count > 0,
                    out@ == stem_of(name@) + seq![UNDERSCORE] + dec_seq(count as nat)
                        + seq![DOT] + name@.subrange(dot + 1, k as int),
                decreases name@.len() - k,
            {
                let b: u8 = name[k];
                out.push(b);
                k = k + 1;
                proof {
                    assert(out@ =~= stem_of(name@) + seq![UNDERSCORE] + dec_seq(count as nat)
                        + seq![DOT] + name@.subrange(dot + 1, k as int));
                }
            }
            proof {
                assert(out@ =~= candidate_seq(name@, count as nat));
            }
            out
        },
        None => {
            let mut out = copy_range(name, 0, name.len());
            proof {
                assert(out@ =~= name@);
            }
            out.push(UNDERSCORE);
            push_dec(count as u64, &mut out);
            proof {
                assert(out@ =~= candidate_seq(name@, count as nat));
            }
            out
        },
    }
}

/// Joins a directory and a file name with a slash.
pub fn join_path(dir: &Vec<u8>, name: &Vec<u8>) -> (r: Vec<u8>)
    ensures
        r@ == joined_seq(dir@, name@),
{
    let mut out = copy_range(dir, 0, dir.len());
    proof {
        assert(out@ =~= dir@);
    }
    out.push(SLASH);
    proof {
        assert(name@.subrange(0, 0) =~= Seq::<u8>::empty());
        assert(out@ =~= dir@ + seq![SLASH] + name@.subrange(0, 0));
    }
    let mut k: usize = 0;
    while k < name.len()
        invariant
            0 <= k <= name@.len(),
            out@ == dir@ + seq![SLASH] + name@.subrange(0, k as int),
        decreases name@.len() - k,
    {
        let b: u8 = name[k];
        out.push(b);
        k = k + 1;
        proof {
            assert(out@ =~= dir@ + seq![SLASH] + name@.subrange(0, k as int));
        }
    }
    proof {
        assert(out@ =~= joined_seq(dir@, name@));
    }
    out
}

/// Case-insensitive test that `name` ends with `suffix`.
pub fn suffix_matches(name: &Vec<u8>, suffix: &Vec<u8>) -> (r: bool)
    ensures
        r == suffix_match(name@, suffix@),
{
    if name.len() < suffix.len() {
        return false;
    }
    let off: usize = name.len() - suffix.len();
    let slen: usize = suffix.len();
    let mut k: usize = 0;
    while k < slen
        invariant
            0 <= k <= suffix@.len(),
            off == name@.len() - suffix@.len(),
            slen == suffix@.len(),
            suffix@.len() <= name@.len(),
            name@.len() <= usize::MAX,
            forall|t: int| 0 <= t < k ==> lower_byte(name@[off + t]) == suffix@[t],
        decreases suffix@.len() - k,
    {
        let idx: usize = off + k;
        let b: u8 = name[idx];
        let low: u8 = if 65 <= b && b <= 90 {
            b + 32
        } else {
            b
        };
        if low != suffix[k] {
            return false;
        }
        k = k + 1;
    }
    true
}

} // verus!
