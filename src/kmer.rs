//! Tiling a sequence into k-mers: every window of width `k`, grouped by the
//! k-mer it holds, with its starting offsets.

use vstd::prelude::*;
use crate::text::{chars_of, window_string};
use std::collections::HashMap;

verus! {

broadcast use vstd::std_specs::hash::group_hash_axioms;

/// A k-mer and the offsets at which it starts, as plain sequences.
pub type TileModel = (Seq<char>, Seq<usize>);

/// Number of windows of width `k` in a sequence of length `n`.
pub open spec fn num_windows(n: int, k: int) -> int {
    if k <= n { n - k + 1 } else { 0 }
}

/// The window of width `k` that starts at `w`.
pub open spec fn window(s: Seq<char>, k: int, w: int) -> Seq<char> {
    s.subrange(w, w + k)
}

/// Total number of (offset, k-mer) pairs held by a tiling.
pub open spec fn total_positions(t: Seq<TileModel>) -> nat
    decreases t.len(),
{
    if t.len() == 0 {
        0
    } else {
        total_positions(t.drop_last()) + t.last().1.len()
    }
}

/// Some entry of `t` holds offset `off + v`.
pub open spec fn records_window(t: Seq<TileModel>, off: int, v: int) -> bool {
    exists|i: int, m: int| 0 <= i < t.len() && 0 <= m < t[i].1.len() && #[trigger] t[i].1[m] == off + v
}

/// `t` records exactly the windows that start before `w`: distinct k-mers of
/// width `k`, each with the increasing offsets (shifted by `off`) of the
/// windows that hold it, and every such window recorded once.
pub open spec fn is_partial_tiling(s: Seq<char>, k: int, off: int, t: Seq<TileModel>, w: int) -> bool {
    &&& forall|i: int, j: int| 0 <= i < j < t.len() ==> t[i].0 != t[j].0
    &&& forall|i: int| 0 <= i < t.len() ==> #[trigger] t[i].1.len() > 0 && t[i].0.len() == k
    &&& forall|i: int, m: int|
        0 <= i < t.len() && 0 <= m < t[i].1.len() ==> off <= #[trigger] t[i].1[m] < off + w
            && window(s, k, t[i].1[m] - off) == t[i].0
    &&& forall|i: int, m1: int, m2: int|
        0 <= i < t.len() && 0 <= m1 < m2 < t[i].1.len() ==> #[trigger] t[i].1[m1] < #[trigger] t[i].1[m2]
    &&& forall|v: int| 0 <= v < w ==> #[trigger] records_window(t, off, v)
    &&& total_positions(t) == w
}

/// `t` is the tiling of `s` by windows of width `k`, offsets shifted by `off`.
pub open spec fn is_tiling(s: Seq<char>, k: int, off: int, t: Seq<TileModel>) -> bool {
    is_partial_tiling(s, k, off, t, num_windows(s.len() as int, k))
}

pub open spec fn tiles_model(r: Seq<(String, Vec<usize>)>) -> Seq<TileModel> {
    r.map_values(|e: (String, Vec<usize>)| (e.0@, e.1@))
}

proof fn lemma_total_update(t: Seq<TileModel>, j: int, e: TileModel)
    requires
        0 <= j < t.len(),
    ensures
        total_positions(t.update(j, e)) + t[j].1.len() == total_positions(t) + e.1.len(),
    decreases t.len(),
{
    if j < t.len() - 1 {
        assert(t.update(j, e).drop_last() =~= t.drop_last().update(j, e));
        lemma_total_update(t.drop_last(), j, e);
    } else {
        assert(t.update(j, e).drop_last() =~= t.drop_last());
    }
}

/// A 64-bit polynomial hash of a character sequence, used to bucket k-mers.
pub open spec fn kmer_hash(s: Seq<char>) -> nat
    decreases s.len(),
{
    if s.len() == 0 {
        0
    } else {
        (kmer_hash(s.drop_last()) * 31 + (s.last() as u32) as nat) % 0x1_0000_0000_0000_0000
    }
}

pub proof fn lemma_kmer_hash_bounded(s: Seq<char>)
    ensures
        kmer_hash(s) < 0x1_0000_0000_0000_0000,
{
}

/// `kmer_hash` of `cs[lo..hi]`.
pub(crate) fn hash_range(cs: &Vec<char>, lo: usize, hi: usize) -> (h: u64)
    requires
        lo <= hi <= cs@.len(),
    ensures
        h as nat == kmer_hash(cs@.subrange(lo as int, hi as int)),
{
    let mut h: u64 = 0;
    let mut i: usize = lo;
    assert(cs@.subrange(lo as int, lo as int) =~= Seq::<char>::empty());
    while i < hi
        invariant
            lo <= i <= hi <= cs@.len(),
            h as nat == kmer_hash(cs@.subrange(lo as int, i as int)),
        decreases hi - i,
    {
        assert(cs@.subrange(lo as int, i + 1).drop_last() =~= cs@.subrange(lo as int, i as int));
        let c = cs[i] as u32;
        h = (((h as u128) * 31 + (c as u128)) % 0x1_0000_0000_0000_0000u128) as u64;
        i = i + 1;
    }
    h
}

/// Every entry of `r` is listed in the bucket of its k-mer's hash, and every
/// bucket lists entries of `r` only.
pub open spec fn index_covers(r: Seq<(String, Vec<usize>)>, index: Map<u64, Vec<usize>>) -> bool {
    &&& forall|j: int| 0 <= j < r.len() ==> {
        let h = kmer_hash(#[trigger] r[j].0@) as u64;
        index.contains_key(h) && index[h]@.contains(j as usize)
    }
    &&& forall|h: u64, q: int| #![trigger index[h]@[q]]
        index.contains_key(h) && 0 <= q < index[h]@.len() ==> index[h]@[q] < r.len()
}

/// Index of the entry whose k-mer is `key` (of hash `h`), if there is one.
fn find_key(r: &Vec<(String, Vec<usize>)>, index: &HashMap<u64, Vec<usize>>, key: &String, h: u64) -> (res: Option<usize>)
    requires
        index_covers(r@, index@),
        h as nat == kmer_hash(key@),
    ensures
        match res {
            Some(j) => j < r@.len() && r@[j as int].0@ == key@,
            None => forall|j: int| 0 <= j < r@.len() ==> r@[j].0@ != key@,
        },
{
    let n = r.len();
    proof {
        lemma_kmer_hash_bounded(key@);
    }
    match index.get(&h) {
        Some(bucket) => {
            let mut q: usize = 0;
            while q < bucket.len()
                invariant
                    index_covers(r@, index@),
                    index@.contains_key(h),
                    bucket@ == index@[h]@,
                    q <= bucket@.len(),
                    forall|qq: int| 0 <= qq < q ==> r@[bucket@[qq] as int].0@ != key@,
                decreases bucket@.len() - q,
            {
                let j = bucket[q];
                assert(index@[h]@[q as int] < r@.len());
                if r[j].0 == *key {
                    return Some(j);
                }
                q = q + 1;
            }
            assert forall|j: int| 0 <= j < r@.len() implies r@[j].0@ != key@ by {
                if r@[j].0@ == key@ {
                    assert(kmer_hash(r@[j].0@) as u64 == h);
                    assert(index@[h]@.contains(j as usize));
                    let qq = choose|qq: int| 0 <= qq < bucket@.len() && bucket@[qq] == j as usize;
                    assert(r@[bucket@[qq] as int].0@ != key@);
                }
            }
            None
        },
        None => {
            assert forall|j: int| 0 <= j < r@.len() implies r@[j].0@ != key@ by {
                if r@[j].0@ == key@ {
                    assert(index@.contains_key(kmer_hash(r@[j].0@) as u64));
                }
            }
            None
        },
    }
}

/// Every k-mer of width `kmer_size` in `seq`, with the offsets (plus
/// `start_offset`) at which it starts, in order of first occurrence. A
/// sequence shorter than `kmer_size` gives no k-mer.
pub fn tile_kmers(seq: &str, kmer_size: usize, start_offset: usize) -> (r: Vec<(String, Vec<usize>)>)
    requires
        start_offset > 0 && kmer_size <= seq@.len() ==> start_offset + (seq@.len() - kmer_size) <= usize::MAX,
        kmer_size == 0 ==> seq@.len() < usize::MAX,
    ensures
        is_tiling(seq@, kmer_size as int, start_offset as int, tiles_model(r@)),
        seq@.len() < kmer_size ==> r@.len() == 0,
{
    let cs = chars_of(seq);
    let n = cs.len();
    let mut r: Vec<(String, Vec<usize>)> = Vec::new();
    if kmer_size > n {
        return r;
    }
    let nw = n - kmer_size + 1;
    let ghost s = cs@;
    let ghost k = kmer_size as int;
    let ghost off = start_offset as int;
    let ghost mut wit: Seq<(int, int)> = Seq::empty();
    let mut index: HashMap<u64, Vec<usize>> = HashMap::new();
    let mut w: usize = 0;
    while w < nw
        invariant
            s == cs@,
            s == seq@,
            n == s.len(),
            k == kmer_size,
            off == start_offset,
            kmer_size <= n,
            nw == n - kmer_size + 1,
            start_offset + (n - kmer_size) <= usize::MAX,
            n - kmer_size < usize::MAX,
            n <= usize::MAX,
            w <= nw,
            is_partial_tiling(s, k, off, tiles_model(r@), w as int),
            wit.len() == w,
            index_covers(r@, index@),
            forall|v: int| 0 <= v < w ==> {
                let (i, m) = #[trigger] wit[v];
                0 <= i < r@.len() && 0 <= m < r@[i].1@.len() && r@[i].1@[m] == off + v
            },
        decreases nw - w,
    {
        let key = window_string(&cs, w, w + kmer_size);
        let h = hash_range(&cs, w, w + kmer_size);
        let pos = w + start_offset;
        let ghost t0 = tiles_model(r@);
        let ghost r_before = r@;
        let ghost index_before = index@;
        match find_key(&r, &index, &key, h) {
            Some(j) => {
                let ghost old_len = r@[j as int].1@.len();
                r[j].1.push(pos);
                assert forall|jj: int| 0 <= jj < r@.len() implies #[trigger] r@[jj].0@ == r_before[jj].0@ by {}
                proof {
                    let t1 = tiles_model(r@);
                    assert(t1 =~= t0.update(j as int, (t0[j as int].0, t0[j as int].1.push(pos))));
                    lemma_total_update(t0, j as int, (t0[j as int].0, t0[j as int].1.push(pos)));
                    wit = wit.push((j as int, old_len as int));
                }
            },
            None => {
                let mut ps: Vec<usize> = Vec::new();
                ps.push(pos);
                let j = r.len();
                let mut bucket = match index.remove(&h) {
                    Some(b) => b,
                    None => Vec::new(),
                };
                assert(forall|q: int| 0 <= q < bucket@.len() ==> bucket@[q] < j) by {
                    if index_before.contains_key(h) {
                        assert(bucket@ == index_before[h]@);
                        assert forall|q: int| 0 <= q < bucket@.len() implies bucket@[q] < j by {
                            assert(index_before[h]@[q] < r_before.len());
                        }
                    }
                }
                let ghost b0 = bucket@;
                bucket.push(j);
                index.insert(h, bucket);
                r.push((key, ps));
                proof {
                    assert(index@ == index_before.insert(h, bucket));
                    assert forall|jj: int| 0 <= jj < r@.len() implies {
                        let hh = kmer_hash(#[trigger] r@[jj].0@) as u64;
                        index@.contains_key(hh) && index@[hh]@.contains(jj as usize)
                    } by {
                        let hh = kmer_hash(r@[jj].0@) as u64;
                        if jj == j {
                            assert(bucket@[bucket@.len() - 1] == j);
                        } else {
                            assert(r@[jj] == r_before[jj]);
                            assert(index_before.contains_key(hh) && index_before[hh]@.contains(jj as usize));
                            if hh == h {
                                assert(b0 == index_before[h]@);
                                let q = choose|q: int| 0 <= q < b0.len() && b0[q] == jj as usize;
                                assert(bucket@[q] == jj as usize);
                            }
                        }
                    }
                    assert forall|hh: u64, q: int| #![trigger index@[hh]@[q]]
                        index@.contains_key(hh) && 0 <= q < index@[hh]@.len() implies index@[hh]@[q] < r@.len() by {
                        if hh != h {
                            assert(index_before[hh]@[q] < r_before.len());
                        }
                    }
                }
                proof {
                    let t1 = tiles_model(r@);
                    assert(t1 =~= t0.push((key@, seq![pos])));
                    assert(t1.drop_last() =~= t0);
                    wit = wit.push(((r@.len() - 1) as int, 0int));
                }
            },
        }
        proof {
            let t1 = tiles_model(r@);
            assert forall|v: int| 0 <= v < w + 1 implies #[trigger] records_window(t1, off, v) by {
                let (i, m) = wit[v];
                assert(t1[i].1[m] == off + v);
            }
        }
        w = w + 1;
    }
    r
}

/// A tiling of a sequence at least `k` long holds `|s| - k + 1` (offset,
/// k-mer) pairs, and each of its k-mers is `k` wide.
pub proof fn lemma_tiling_size(s: Seq<char>, k: int, off: int, t: Seq<TileModel>)
    requires
        is_tiling(s, k, off, t),
        0 <= k <= s.len(),
    ensures
        total_positions(t) == s.len() - k + 1,
        forall|i: int| 0 <= i < t.len() ==> (#[trigger] t[i]).0.len() == k,
{
    assert forall|i: int| 0 <= i < t.len() implies (#[trigger] t[i]).0.len() == k by {
        assert(t[i].1.len() > 0);
    }
}

} // verus!
