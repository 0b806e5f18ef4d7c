//! The fork-choice resolver: rebuilds the block tree from a flat
//! snapshot, selects the canonical root-to-leaf chain, and answers
//! main-chain membership.
//!
//! The canonical chain is the longest root-to-leaf chain; among chains of
//! equal length the one with the smallest cumulative solution move count
//! wins, and a remaining tie goes to the leaf that comes first in the
//! snapshot. A snapshot with zero roots or more than one root yields the
//! empty chain.

use vstd::prelude::*;

use crate::models::Block;
use vstd::set_lib::{lemma_int_range, lemma_len_subset, set_int_range};

verus! {

/// Every block hash occurs once: the snapshot is keyed by hash.
pub open spec fn distinct_hashes(bs: Seq<Block>) -> bool {
    forall|i: int, j: int|
        0 <= i < j < bs.len() ==> (#[trigger] bs[i]).hash@ != (#[trigger] bs[j]).hash@
}

/// Block `i` is a root: it has no parent hash.
pub open spec fn is_root(bs: Seq<Block>, i: int) -> bool {
    0 <= i < bs.len() && bs[i].parent_hash is None
}

/// Block `c` is a child of block `p`: its parent hash is `p`'s hash.
pub open spec fn child_of(bs: Seq<Block>, c: int, p: int) -> bool {
    &&& 0 <= c < bs.len()
    &&& 0 <= p < bs.len()
    &&& bs[c].parent_hash is Some
    &&& bs[c].parent_hash->0@ == bs[p].hash@
}

/// Block `i` is a leaf: no block names it as parent.
pub open spec fn is_leaf(bs: Seq<Block>, i: int) -> bool {
    0 <= i < bs.len() && forall|c: int| !child_of(bs, c, i)
}

/// `p` is a chain of block indices, root first: it starts at a root and
/// every later entry is a child of the one before it.
pub open spec fn is_chain(bs: Seq<Block>, p: Seq<int>) -> bool {
    &&& p.len() > 0
    &&& is_root(bs, p[0])
    &&& forall|k: int| 1 <= k < p.len() ==> child_of(bs, #[trigger] p[k], p[k - 1])
}

/// A root-to-leaf chain.
pub open spec fn is_full_chain(bs: Seq<Block>, p: Seq<int>) -> bool {
    is_chain(bs, p) && is_leaf(bs, p.last())
}

pub open spec fn weight_at(bs: Seq<Block>, i: int) -> int {
    if 0 <= i < bs.len() {
        bs[i].solution_moves as int
    } else {
        0
    }
}

/// The cumulative solution move count along a chain.
pub open spec fn chain_weight(bs: Seq<Block>, p: Seq<int>) -> int
    decreases p.len(),
{
    if p.len() == 0 {
        0
    } else {
        chain_weight(bs, p.drop_last()) + weight_at(bs, p.last())
    }
}

/// The number of roots among the first `k` blocks.
pub open spec fn count_roots_upto(bs: Seq<Block>, k: int) -> int
    decreases k,
{
    if k <= 0 {
        0
    } else {
        count_roots_upto(bs, k - 1) + if bs[k - 1].parent_hash is None {
            1int
        } else {
            0int
        }
    }
}

pub open spec fn count_roots(bs: Seq<Block>) -> int {
    count_roots_upto(bs, bs.len() as int)
}

/// The chain a leaf-first index vector denotes, root first.
pub open spec fn rev_ints(r: Seq<usize>) -> Seq<int> {
    Seq::new(r.len(), |k: int| r[r.len() - 1 - k] as int)
}

/// What the resolver returns: the empty chain on zero or several roots;
/// otherwise a longest root-to-leaf chain, of minimal cumulative move
/// count among the longest, given leaf first.
pub open spec fn spec_canonical(bs: Seq<Block>, r: Seq<usize>) -> bool {
    if count_roots(bs) != 1 {
        r.len() == 0
    } else {
        &&& r.len() > 0
        &&& is_full_chain(bs, rev_ints(r))
        &&& forall|q: Seq<int>| #[trigger] is_full_chain(bs, q) ==> q.len() <= r.len()
        &&& forall|q: Seq<int>|
            #[trigger] is_full_chain(bs, q) && q.len() == r.len() ==> chain_weight(
                bs,
                rev_ints(r),
            ) <= chain_weight(bs, q)
        &&& forall|q: Seq<int>|
            #[trigger] is_full_chain(bs, q) && q.len() == r.len() && chain_weight(bs, q)
                == chain_weight(bs, rev_ints(r)) ==> rev_ints(r).last() <= q.last()
    }
}

proof fn lemma_chain_take(bs: Seq<Block>, p: Seq<int>, k: int)
    requires
        is_chain(bs, p),
        1 <= k <= p.len(),
    ensures
        is_chain(bs, p.take(k)),
{
    assert forall|t: int| 1 <= t < k implies child_of(bs, #[trigger] p.take(k)[t], p.take(k)[t - 1]) by {
        assert(p.take(k)[t] == p[t]);
        assert(p.take(k)[t - 1] == p[t - 1]);
    }
}

/// Two chains that end at the same block are the same chain: a block's
/// parent hash picks out one block, so the walk upward is determined.
proof fn lemma_chain_unique(bs: Seq<Block>, p: Seq<int>, q: Seq<int>)
    requires
        distinct_hashes(bs),
        is_chain(bs, p),
        is_chain(bs, q),
        p.last() == q.last(),
    ensures
        p == q,
    decreases p.len(),
{
    let v = p.last();
    if p.len() == 1 {
        assert(v == p[0]);
        if q.len() > 1 {
            assert(child_of(bs, q[q.len() - 1], q[q.len() - 2]));
            assert(bs[v].parent_hash is Some);
            assert(false);
        }
        assert(p =~= q);
    } else {
        assert(child_of(bs, p[p.len() - 1], p[p.len() - 2]));
        if q.len() == 1 {
            assert(v == q[0]);
            assert(bs[v].parent_hash is None);
            assert(false);
        }
        assert(child_of(bs, q[q.len() - 1], q[q.len() - 2]));
        let a = p[p.len() - 2];
        let b = q[q.len() - 2];
        assert(bs[a].hash@ == bs[v].parent_hash->0@);
        assert(bs[b].hash@ == bs[v].parent_hash->0@);
        assert(a == b) by {
            if a != b {
                if a < b {
                    assert(bs[a].hash@ != bs[b].hash@);
                } else {
                    assert(bs[b].hash@ != bs[a].hash@);
                }
            }
        }
        let p2 = p.take(p.len() - 1);
        let q2 = q.take(q.len() - 1);
        lemma_chain_take(bs, p, p.len() - 1);
        lemma_chain_take(bs, q, q.len() - 1);
        assert(p2.last() == a);
        assert(q2.last() == b);
        lemma_chain_unique(bs, p2, q2);
        assert(p.len() == q.len());
        assert(p =~= q) by {
            assert(forall|t: int| 0 <= t < p.len() - 1 ==> p[t] == p2[t] && q[t] == q2[t]);
        }
    }
}

/// A chain never visits a block twice.
proof fn lemma_chain_no_dup(bs: Seq<Block>, p: Seq<int>)
    requires
        distinct_hashes(bs),
        is_chain(bs, p),
    ensures
        p.no_duplicates(),
{
    assert forall|a: int, b: int| 0 <= a < p.len() && 0 <= b < p.len() && a != b implies p[a]
        != p[b] by {
        if p[a] == p[b] {
            let lo = if a < b {
                a
            } else {
                b
            };
            let hi = if a < b {
                b
            } else {
                a
            };
            lemma_chain_take(bs, p, lo + 1);
            lemma_chain_take(bs, p, hi + 1);
            assert(p.take(lo + 1).last() == p[lo]);
            assert(p.take(hi + 1).last() == p[hi]);
            lemma_chain_unique(bs, p.take(lo + 1), p.take(hi + 1));
            assert(p.take(lo + 1).len() == p.take(hi + 1).len());
            assert(false);
        }
    }
}

/// Every index on a chain is an index into the snapshot.
proof fn lemma_chain_in_range(bs: Seq<Block>, p: Seq<int>)
    requires
        is_chain(bs, p),
    ensures
        forall|k: int| 0 <= k < p.len() ==> 0 <= #[trigger] p[k] < bs.len(),
{
    assert forall|k: int| 0 <= k < p.len() implies 0 <= #[trigger] p[k] < bs.len() by {
        if k == 0 {
            assert(is_root(bs, p[0]));
        } else {
            assert(child_of(bs, p[k], p[k - 1]));
        }
    }
}

/// A chain holds at most as many blocks as the snapshot.
proof fn lemma_chain_len_bound(bs: Seq<Block>, p: Seq<int>)
    requires
        distinct_hashes(bs),
        is_chain(bs, p),
    ensures
        p.len() <= bs.len(),
{
    lemma_chain_no_dup(bs, p);
    lemma_chain_in_range(bs, p);
    p.unique_seq_to_set();
    let range = set_int_range(0, bs.len() as int);
    lemma_int_range(0, bs.len() as int);
    assert(p.to_set().subset_of(range)) by {
        assert forall|x: int| p.to_set().contains(x) implies range.contains(x) by {
            assert(p.contains(x));
            let k = choose|k: int| 0 <= k < p.len() && p[k] == x;
            assert(0 <= p[k] < bs.len());
        }
    }
    lemma_len_subset(p.to_set(), range);
}

/// Any chain extends to a root-to-leaf chain: keep stepping to a child
/// until none is left, which the length bound forces eventually.
proof fn lemma_extend_to_full(bs: Seq<Block>, p: Seq<int>)
    requires
        distinct_hashes(bs),
        is_chain(bs, p),
    ensures
        exists|q: Seq<int>| #[trigger] is_full_chain(bs, q) && q.len() >= p.len(),
    decreases bs.len() + 1 - p.len(),
{
    lemma_chain_len_bound(bs, p);
    lemma_chain_in_range(bs, p);
    let v = p.last();
    if is_leaf(bs, v) {
        assert(is_full_chain(bs, p) && p.len() >= p.len());
    } else {
        let c = choose|c: int| child_of(bs, c, v);
        let p2 = p.push(c);
        assert(is_chain(bs, p2)) by {
            assert(forall|k: int|
                1 <= k < p.len() ==> child_of(bs, #[trigger] p2[k], p2[k - 1]));
            assert(p2[p2.len() - 1] == c && p2[p2.len() - 2] == v);
        }
        lemma_chain_len_bound(bs, p2);
        lemma_extend_to_full(bs, p2);
        let q = choose|q: Seq<int>| #[trigger] is_full_chain(bs, q) && q.len() >= p2.len();
        assert(is_full_chain(bs, q) && q.len() >= p.len());
    }
}

/// Whether any block names block `i` as its parent.
fn is_leaf_at(blocks: &Vec<Block>, i: usize) -> (r: bool)
    requires
        i < blocks@.len(),
    ensures
        r == is_leaf(blocks@, i as int),
{
    let ghost bs = blocks@;
    let mut c: usize = 0;
    while c < blocks.len()
        invariant
            c <= bs.len(),
            bs == blocks@,
            i < bs.len(),
            forall|cc: int| 0 <= cc < c as int ==> !child_of(bs, cc, i as int),
        decreases bs.len() - c,
    {
        if let Some(ph) = &blocks[c].parent_hash {
            if ph.eq(&blocks[i].hash) {
                proof {
                    assert(child_of(bs, c as int, i as int));
                }
                return false;
            }
        }
        c = c + 1;
    }
    proof {
        assert forall|cc: int| !child_of(bs, cc, i as int) by {
            if 0 <= cc < bs.len() {
            }
        }
    }
    true
}

/// The index of the block whose hash is `child`'s parent hash, if any.
fn find_parent(blocks: &Vec<Block>, child: usize) -> (r: Option<usize>)
    requires
        child < blocks@.len(),
        blocks@[child as int].parent_hash is Some,
    ensures
        match r {
            Some(j) => j < blocks@.len() && child_of(blocks@, child as int, j as int),
            None => forall|j: int| !child_of(blocks@, child as int, j),
        },
{
    let ghost bs = blocks@;
    let mut j: usize = 0;
    while j < blocks.len()
        invariant
            j <= bs.len(),
            bs == blocks@,
            child < bs.len(),
            bs[child as int].parent_hash is Some,
            forall|jj: int| 0 <= jj < j as int ==> !child_of(bs, child as int, jj),
        decreases bs.len() - j,
    {
        if let Some(ph) = &blocks[child].parent_hash {
            if blocks[j].hash.eq(ph) {
                proof {
                    assert(child_of(bs, child as int, j as int));
                }
                return Some(j);
            }
        }
        j = j + 1;
    }
    proof {
        assert forall|jj: int| !child_of(bs, child as int, jj) by {
            if 0 <= jj < bs.len() {
            }
        }
    }
    None
}

/// Walks parent pointers upward from a leaf. Returns the full chain the
/// leaf roots, leaf first, or `None` when the leaf reaches no root: then
/// no root-to-leaf chain ends at this leaf.
fn walk_up(blocks: &Vec<Block>, leaf: usize) -> (r: Option<Vec<usize>>)
    requires
        distinct_hashes(blocks@),
        leaf < blocks@.len(),
        is_leaf(blocks@, leaf as int),
    ensures
        match r {
            Some(w) => {
                &&& w@.len() > 0
                &&& w@[0] == leaf
                &&& forall|k: int| 0 <= k < w@.len() ==> (#[trigger] w@[k]) < blocks@.len()
                &&& is_full_chain(blocks@, rev_ints(w@))
                &&& forall|q: Seq<int>|
                    #[trigger] is_full_chain(blocks@, q) && q.last() == leaf as int ==> q
                        == rev_ints(w@)
            },
            None => forall|q: Seq<int>|
                #[trigger] is_full_chain(blocks@, q) ==> q.last() != leaf as int,
        },
{
    let ghost bs = blocks@;
    let n = blocks.len();
    let mut path: Vec<usize> = Vec::new();
    path.push(leaf);
    let mut cur: usize = leaf;
    loop
        invariant
            distinct_hashes(bs),
            bs == blocks@,
            leaf < bs.len(),
            is_leaf(bs, leaf as int),
            n == bs.len(),
            1 <= path@.len() <= n,
            path@[0] == leaf,
            cur == path@.last(),
            forall|k: int| 0 <= k < path@.len() ==> (#[trigger] path@[k]) < bs.len(),
            forall|k: int|
                0 <= k < path@.len() - 1 ==> child_of(bs, #[trigger] path@[k] as int, path@[k + 1] as int),
            forall|q: Seq<int>|
                #[trigger] is_full_chain(bs, q) && q.last() == leaf as int ==> q.len()
                    >= path@.len(),
            forall|q: Seq<int>, k: int|
                #![trigger is_full_chain(bs, q), path@[k]]
                is_full_chain(bs, q) && q.last() == leaf as int && 0 <= k < path@.len() ==> q[q.len()
                    - 1 - k] == path@[k] as int,
        decreases n - path@.len(),
    {
        let has_parent = blocks[cur].parent_hash.is_some();
        if !has_parent {
            proof {
                let w = path@;
                let rv = rev_ints(w);
                assert(rv.len() == w.len());
                assert(is_root(bs, rv[0])) by {
                    assert(rv[0] == w[w.len() - 1] as int);
                }
                assert forall|k: int| 1 <= k < rv.len() implies child_of(
                    bs,
                    #[trigger] rv[k],
                    rv[k - 1],
                ) by {
                    assert(rv[k] == w[w.len() - 1 - k] as int);
                    assert(rv[k - 1] == w[w.len() - k] as int);
                    assert(child_of(bs, w[w.len() - 1 - k] as int, w[w.len() - 1 - k + 1] as int));
                }
                assert(rv.last() == w[0] as int);
                assert(is_full_chain(bs, rv));
                assert forall|q: Seq<int>|
                    #[trigger] is_full_chain(bs, q) && q.last() == leaf as int implies q == rv by {
                    assert(q.len() >= w.len());
                    assert(q[q.len() - 1 - (w.len() - 1)] == w[w.len() - 1] as int);
                    if q.len() > w.len() {
                        let i0 = q.len() - w.len();
                        assert(child_of(bs, q[i0], q[i0 - 1]));
                        assert(bs[cur as int].parent_hash is Some);
                        assert(false);
                    }
                    assert(q.len() == rv.len());
                    assert forall|t: int| 0 <= t < q.len() implies q[t] == rv[t] by {
                        assert(q[q.len() - 1 - (q.len() - 1 - t)] == w[q.len() - 1 - t] as int);
                    }
                    assert(q =~= rv);
                }
            }
            return Some(path);
        }
        let pj = find_parent(blocks, cur);
        match pj {
            None => {
                proof {
                    assert forall|q: Seq<int>| #[trigger] is_full_chain(bs, q) implies q.last()
                        != leaf as int by {
                        if q.last() == leaf as int {
                            let i0 = q.len() - path@.len();
                            assert(q[q.len() - 1 - (path@.len() - 1)] == path@[path@.len() - 1] as int);
                            if i0 == 0 {
                                assert(is_root(bs, q[0]));
                                assert(false);
                            } else {
                                assert(child_of(bs, q[i0], q[i0 - 1]));
                                assert(false);
                            }
                        }
                    }
                }
                return None;
            },
            Some(j) => {
                if path.len() >= n {
                    proof {
                        assert forall|q: Seq<int>| #[trigger] is_full_chain(bs, q) implies q.last()
                            != leaf as int by {
                            if q.last() == leaf as int {
                                let i0 = q.len() - path@.len();
                                assert(q[q.len() - 1 - (path@.len() - 1)] == path@[path@.len()
                                    - 1] as int);
                                if i0 == 0 {
                                    assert(is_root(bs, q[0]));
                                    assert(false);
                                } else {
                                    lemma_chain_len_bound(bs, q);
                                    assert(q.len() <= n);
                                    assert(q.len() >= path@.len() == n);
                                    assert(q.len() == n && i0 == 0);
                                    assert(false);
                                }
                            }
                        }
                    }
                    return None;
                }
                let ghost prev = path@;
                path.push(j);
                proof {
                    assert(path@ == prev.push(j));
                    assert(child_of(bs, cur as int, j as int));
                    assert forall|q: Seq<int>|
                        #[trigger] is_full_chain(bs, q) && q.last() == leaf as int implies q.len()
                        >= path@.len() by {
                        assert(q.len() >= prev.len());
                        assert(q[q.len() - 1 - (prev.len() - 1)] == prev[prev.len() - 1] as int);
                        if q.len() == prev.len() {
                            assert(q[0] == cur as int);
                            assert(is_root(bs, q[0]));
                            assert(false);
                        }
                    }
                    assert forall|q: Seq<int>, k: int|
                        #![trigger is_full_chain(bs, q), path@[k]]
                        is_full_chain(bs, q) && q.last() == leaf as int && 0 <= k
                            < path@.len() implies q[q.len() - 1 - k] == path@[k] as int by {
                        assert(q.len() >= prev.len() + 1);
                        if k < prev.len() {
                            assert(q[q.len() - 1 - k] == prev[k] as int);
                            assert(path@[k] == prev[k]);
                        } else {
                            assert(k == prev.len());
                            let i0 = q.len() - prev.len();
                            assert(q[q.len() - 1 - (prev.len() - 1)] == prev[prev.len() - 1] as int);
                            assert(q[i0] == cur as int);
                            assert(child_of(bs, q[i0], q[i0 - 1]));
                            assert(bs[q[i0 - 1]].hash@ == bs[cur as int].parent_hash->0@);
                            assert(bs[j as int].hash@ == bs[cur as int].parent_hash->0@);
                            assert(q[i0 - 1] == j as int) by {
                                if q[i0 - 1] != j as int {
                                    if q[i0 - 1] < j as int {
                                        assert(bs[q[i0 - 1]].hash@ != bs[j as int].hash@);
                                    } else {
                                        assert(bs[j as int].hash@ != bs[q[i0 - 1]].hash@);
                                    }
                                }
                            }
                        }
                    }
                }
                cur = j;
            },
        }
    }
}

/// The cumulative solution move count of a leaf-first index vector.
fn path_weight(blocks: &Vec<Block>, w: &Vec<usize>) -> (s: u128)
    requires
        forall|k: int| 0 <= k < w@.len() ==> (#[trigger] w@[k]) < blocks@.len(),
    ensures
        s as int == chain_weight(blocks@, rev_ints(w@)),
{
    let ghost bs = blocks@;
    let ghost rv = rev_ints(w@);
    let len = w.len();
    let mut s: u128 = 0;
    let mut t: usize = 0;
    proof {
        assert(rv.take(0) =~= Seq::<int>::empty());
    }
    while t < len
        invariant
            t <= len,
            bs == blocks@,
            len == w@.len(),
            rv == rev_ints(w@),
            forall|k: int| 0 <= k < w@.len() ==> (#[trigger] w@[k]) < bs.len(),
            s as int == chain_weight(bs, rv.take(t as int)),
            s <= t as int * 255,
        decreases len - t,
    {
        let idx = w[len - 1 - t];
        proof {
            assert(rv.take(t + 1).drop_last() =~= rv.take(t as int));
            assert(rv.take(t + 1).last() == rv[t as int]);
            assert(rv[t as int] == w@[len - 1 - t as int] as int);
        }
        s = s + blocks[idx].solution_moves as u128;
        t = t + 1;
    }
    proof {
        assert(rv.take(len as int) =~= rv);
    }
    s
}

/// Selects the canonical chain of the snapshot, newest block first, as
/// indices into the snapshot. Zero roots or several roots yield the
/// empty chain; a full tie between chains goes to the leaf that comes
/// first in the snapshot.
pub fn canonical_chain(blocks: &Vec<Block>) -> (r: Vec<usize>)
    requires
        distinct_hashes(blocks@),
    ensures
        spec_canonical(blocks@, r@),
{
    let ghost bs = blocks@;
    let n = blocks.len();
    let mut roots: usize = 0;
    let mut root_idx: usize = 0;
    let mut i: usize = 0;
    while i < n
        invariant
            i <= n,
            bs == blocks@,
            n == bs.len(),
            roots as int == count_roots_upto(bs, i as int),
            roots <= i,
            roots > 0 ==> is_root(bs, root_idx as int),
        decreases n - i,
    {
        if blocks[i].parent_hash.is_none() {
            roots = roots + 1;
            root_idx = i;
        }
        i = i + 1;
    }
    if roots != 1 {
        return Vec::new();
    }
    let mut has_best = false;
    let mut best: Vec<usize> = Vec::new();
    let mut best_weight: u128 = 0;
    let mut li: usize = 0;
    while li < n
        invariant
            li <= n,
            bs == blocks@,
            n == bs.len(),
            distinct_hashes(bs),
            count_roots(bs) == 1,
            is_root(bs, root_idx as int),
            has_best ==> {
                &&& best@.len() > 0
                &&& forall|k: int| 0 <= k < best@.len() ==> (#[trigger] best@[k]) < bs.len()
                &&& is_full_chain(bs, rev_ints(best@))
                &&& best_weight as int == chain_weight(bs, rev_ints(best@))
                &&& forall|q: Seq<int>|
                    #[trigger] is_full_chain(bs, q) && q.last() < li as int ==> q.len()
                        <= best@.len()
                &&& forall|q: Seq<int>|
                    #[trigger] is_full_chain(bs, q) && q.last() < li as int && q.len()
                        == best@.len() ==> chain_weight(bs, rev_ints(best@)) <= chain_weight(bs, q)
                &&& (best@[0] as int) < li as int
                &&& rev_ints(best@).last() == best@[0] as int
                &&& forall|q: Seq<int>|
                    #[trigger] is_full_chain(bs, q) && q.last() < li as int && q.len()
                        == best@.len() && chain_weight(bs, q) == chain_weight(bs, rev_ints(best@))
                        ==> (best@[0] as int) <= q.last()
            },
            !has_best ==> forall|q: Seq<int>|
                #[trigger] is_full_chain(bs, q) ==> !(q.last() < li as int),
        decreases n - li,
    {
        if is_leaf_at(blocks, li) {
            match walk_up(blocks, li) {
                Some(w) => {
                    let wweight = path_weight(blocks, &w);
                    let take_it = !has_best || w.len() > best.len() || (w.len() == best.len()
                        && wweight < best_weight);
                    proof {
                        assert(rev_ints(w@).last() == w@[0] as int);
                        assert(rev_ints(w@).last() == li as int);
                        assert forall|q: Seq<int>|
                            #[trigger] is_full_chain(bs, q) && q.last() < li + 1 implies {
                            &&& q.last() < li as int || q == rev_ints(w@)
                        } by {
                            if q.last() == li as int {
                            }
                        }
                    }
                    if take_it {
                        best = w;
                        best_weight = wweight;
                        has_best = true;
                    }
                },
                None => {},
            }
        } else {
            proof {
                assert forall|q: Seq<int>| #[trigger] is_full_chain(bs, q) implies q.last()
                    != li as int by {
                    if q.last() == li as int {
                        assert(is_leaf(bs, q.last()));
                    }
                }
            }
        }
        li = li + 1;
    }
    proof {
        if has_best {
            assert(rev_ints(best@).last() == best@[0] as int);
        }
        assert forall|q: Seq<int>| #[trigger] is_full_chain(bs, q) implies q.last() < n as int by {
            lemma_chain_in_range(bs, q);
            assert(q[q.len() - 1] < bs.len());
        }
        if !has_best {
            let p0 = seq![root_idx as int];
            assert(is_chain(bs, p0));
            lemma_extend_to_full(bs, p0);
            let q = choose|q: Seq<int>| #[trigger] is_full_chain(bs, q) && q.len() >= p0.len();
            assert(q.last() < n as int);
            assert(false);
        }
    }
    best
}

impl Block {
    /// The hashes of the canonical chain's blocks, newest first.
    pub fn get_main_chain_hashes(blocks: &Vec<Block>) -> (r: Vec<String>)
        requires
            distinct_hashes(blocks@),
        ensures
            exists|c: Seq<usize>|
                {
                    &&& #[trigger] spec_canonical(blocks@, c)
                    &&& r.len() == c.len()
                    &&& forall|k: int|
                        0 <= k < c.len() ==> (#[trigger] r[k])@ == blocks@[c[k] as int].hash@
                },
    {
        let chain = canonical_chain(blocks);
        let mut out: Vec<String> = Vec::new();
        let mut k: usize = 0;
        proof {
            if chain@.len() > 0 {
                assert(is_full_chain(blocks@, rev_ints(chain@)));
                lemma_chain_in_range(blocks@, rev_ints(chain@));
                assert forall|t: int| 0 <= t < chain@.len() implies (#[trigger] chain@[t])
                    < blocks@.len() by {
                    assert(rev_ints(chain@)[chain@.len() - 1 - t] == chain@[t] as int);
                }
            }
        }
        while k < chain.len()
            invariant
                k <= chain@.len(),
                spec_canonical(blocks@, chain@),
                forall|t: int| 0 <= t < chain@.len() ==> (#[trigger] chain@[t]) < blocks@.len(),
                out@.len() == k as int,
                forall|t: int|
                    0 <= t < k as int ==> (#[trigger] out@[t])@ == blocks@[chain@[t] as int].hash@,
            decreases chain@.len() - k,
        {
            out.push(blocks[chain[k]].hash.clone());
            k = k + 1;
        }
        out
    }
}

/// The snapshot indices whose hash is in the list, in snapshot order.
pub open spec fn filtered_upto(bs: Seq<Block>, hs: Seq<String>, k: int) -> Seq<usize>
    decreases k,
{
    if k <= 0 {
        Seq::empty()
    } else {
        filtered_upto(bs, hs, k - 1) + if crate::models::hash_set_contains(hs, bs[k - 1].hash@) {
            seq![(k - 1) as usize]
        } else {
            Seq::empty()
        }
    }
}

/// Keeps, in order, the indices of the blocks whose hash occurs in the
/// list; the in-process counterpart of a main-chain-only listing.
pub fn filter_by_hashes(blocks: &Vec<Block>, hashes: &Vec<String>) -> (r: Vec<usize>)
    ensures
        r@ == filtered_upto(blocks@, hashes@, blocks@.len() as int),
{
    let mut out: Vec<usize> = Vec::new();
    let mut i: usize = 0;
    while i < blocks.len()
        invariant
            i <= blocks@.len(),
            out@ == filtered_upto(blocks@, hashes@, i as int),
        decreases blocks@.len() - i,
    {
        if crate::models::contains_hash(hashes, &blocks[i].hash) {
            out.push(i);
            proof {
                assert(out@ =~= filtered_upto(blocks@, hashes@, i + 1));
            }
        } else {
            proof {
                assert(out@ =~= filtered_upto(blocks@, hashes@, i + 1));
            }
        }
        i = i + 1;
    }
    out
}

/// Law: a snapshot with zero roots, or with more than one, resolves to
/// the empty canonical chain.
pub proof fn lemma_degenerate_roots_empty(bs: Seq<Block>, r: Seq<usize>)
    requires
        spec_canonical(bs, r),
        count_roots(bs) != 1,
    ensures
        r.len() == 0,
{
}

/// Law: the canonical-chain description picks out one result: any two
/// index vectors that both satisfy it for one snapshot are equal, so the
/// resolver's outcome is a function of the snapshot.
pub proof fn lemma_canonical_unique(bs: Seq<Block>, r1: Seq<usize>, r2: Seq<usize>)
    requires
        distinct_hashes(bs),
        spec_canonical(bs, r1),
        spec_canonical(bs, r2),
    ensures
        r1 == r2,
{
    if count_roots(bs) != 1 {
        assert(r1 =~= r2);
    } else {
        let v1 = rev_ints(r1);
        let v2 = rev_ints(r2);
        assert(v1.len() <= r2.len() && v2.len() <= r1.len());
        assert(chain_weight(bs, v1) <= chain_weight(bs, v2));
        assert(chain_weight(bs, v2) <= chain_weight(bs, v1));
        assert(v1.last() <= v2.last() && v2.last() <= v1.last());
        lemma_chain_unique(bs, v1, v2);
        assert forall|k: int| 0 <= k < r1.len() implies r1[k] == r2[k] by {
            assert(v1[r1.len() - 1 - k] == r1[k] as int);
            assert(v2[r2.len() - 1 - k] == r2[k] as int);
        }
        assert(r1 =~= r2);
    }
}

/// Law: between two sibling root-to-leaf chains of equal length and
/// different cumulative move counts, the resolver selects the one with
/// the smaller count.
pub proof fn lemma_fork_choice_prefers_lighter(
    bs: Seq<Block>,
    r: Seq<usize>,
    p: Seq<int>,
    q: Seq<int>,
)
    requires
        count_roots(bs) == 1,
        spec_canonical(bs, r),
        is_full_chain(bs, p),
        is_full_chain(bs, q),
        p.len() == q.len(),
        chain_weight(bs, p) < chain_weight(bs, q),
        forall|o: Seq<int>| #[trigger] is_full_chain(bs, o) ==> o == p || o == q,
    ensures
        rev_ints(r) == p,
{
    let rv = rev_ints(r);
    assert(is_full_chain(bs, rv));
    assert(p.len() <= r.len());
    assert(rv.len() == r.len());
    if rv == q {
        assert(q.len() == r.len());
        assert(chain_weight(bs, rv) <= chain_weight(bs, p));
        assert(false);
    }
}

} // verus!
