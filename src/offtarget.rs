//! Off-target screening: the k-mers a batch of probe sets asks about, the
//! merge of per-shard membership answers into one hit table, and the
//! retention of probe sets by hit count.
//!
//! Loading index shards and testing membership happens outside this module;
//! each shard's answers arrive as one flag per queried k-mer.

use vstd::prelude::*;
use crate::probes::{probe_views, summaries, GeneKmers, GeneSummary, ProbeView, Probes};
use crate::kmer::{hash_range, kmer_hash, lemma_kmer_hash_bounded};
use crate::text::{chars_of, strings_view};
use std::collections::HashMap;

verus! {

broadcast use vstd::std_specs::hash::group_hash_axioms;

/// The k-mer of every probe of every set in `sets`.
pub open spec fn batch_has_kmer(sets: Seq<GeneKmers>, x: Seq<char>) -> bool {
    exists|i: int, m: int|
        0 <= i < sets.len() && 0 <= m < sets[i].kmers@.len() && #[trigger] sets[i].kmers@[m].kmer@ == x
}

/// One shard's answers: its identifier and, for each queried k-mer, whether
/// the shard holds it.
pub type ShardModel = (Seq<char>, Seq<bool>);

/// A hit-table entry: a k-mer and the shards that hold it.
pub type HitModel = (Seq<char>, Seq<Seq<char>>);

pub open spec fn shard_views(v: Seq<(String, Vec<bool>)>) -> Seq<ShardModel> {
    v.map_values(|s: (String, Vec<bool>)| (s.0@, s.1@))
}

pub open spec fn hit_views(v: Seq<(String, Vec<String>)>) -> Seq<HitModel> {
    v.map_values(|h: (String, Vec<String>)| (h.0@, strings_view(h.1@)))
}

/// Identifiers of the shards, in order, that hold the `i`-th queried k-mer.
pub open spec fn hit_sources(shards: Seq<ShardModel>, i: int) -> Seq<Seq<char>>
    decreases shards.len(),
{
    if shards.len() == 0 {
        Seq::empty()
    } else {
        let prev = hit_sources(shards.drop_last(), i);
        let s = shards.last();
        if 0 <= i < s.1.len() && s.1[i] {
            prev.push(s.0)
        } else {
            prev
        }
    }
}

/// A k-mer passes when every table entry for it lists at most `max_hits`
/// shards; a k-mer with no entry has no hit and passes.
pub open spec fn kmer_passes(hits: Seq<HitModel>, k: Seq<char>, max_hits: usize) -> bool {
    forall|j: int| 0 <= j < hits.len() && #[trigger] hits[j].0 == k ==> hits[j].1.len() <= max_hits
}

/// A probe set survives when at least one of its k-mers passes.
pub open spec fn set_passes(probes: Seq<ProbeView>, hits: Seq<HitModel>, max_hits: usize) -> bool {
    exists|m: int| 0 <= m < probes.len() && kmer_passes(hits, #[trigger] probes[m].kmer, max_hits)
}

/// The entries of `hits` that list at least one shard.
pub open spec fn entries_with_hits(hits: Seq<HitModel>) -> Seq<HitModel> {
    hits.filter(|h: HitModel| h.1.len() > 0)
}

/// The entries of `hits` with at least one shard whose k-mer is one of
/// `probes`, in table order.
pub open spec fn hits_for(probes: Seq<ProbeView>, hits: Seq<HitModel>) -> Seq<HitModel> {
    entries_with_hits(hits).filter(|h: HitModel| exists|m: int| 0 <= m < probes.len() && #[trigger] probes[m].kmer == h.0)
}

pub open spec fn hit_kmers(hits: Seq<HitModel>) -> Seq<Seq<char>> {
    hits.map_values(|h: HitModel| h.0)
}

pub open spec fn probe_kmers(probes: Seq<ProbeView>) -> Seq<Seq<char>> {
    probes.map_values(|p: ProbeView| p.kmer)
}


/// Every key is listed in the bucket of its hash, and every bucket lists
/// indices of keys only.
pub open spec fn keys_indexed(keys: Seq<Seq<char>>, index: Map<u64, Vec<usize>>) -> bool {
    &&& forall|j: int| 0 <= j < keys.len() ==> {
        let h = kmer_hash(#[trigger] keys[j]) as u64;
        index.contains_key(h) && index[h]@.contains(j as usize)
    }
    &&& forall|h: u64, q: int| #![trigger index[h]@[q]]
        index.contains_key(h) && 0 <= q < index[h]@.len() ==> index[h]@[q] < keys.len()
}

fn hash_string(s: &String) -> (h: u64)
    ensures
        h as nat == kmer_hash(s@),
{
    let cs = chars_of(s.as_str());
    let h = hash_range(&cs, 0, cs.len());
    assert(cs@.subrange(0, cs@.len() as int) =~= s@);
    h
}

/// Appends `j` to the bucket of `h`.
fn add_to_bucket(index: &mut HashMap<u64, Vec<usize>>, h: u64, j: usize)
    ensures
        final(index)@ == old(index)@.insert(
            h,
            final(index)@[h],
        ),
        final(index)@[h]@ == (if old(index)@.contains_key(h) { old(index)@[h]@ } else { Seq::empty() }).push(j),
{
    let mut bucket = match index.remove(&h) {
        Some(b) => b,
        None => Vec::new(),
    };
    bucket.push(j);
    index.insert(h, bucket);
}

proof fn lemma_index_push(keys: Seq<Seq<char>>, old_index: Map<u64, Vec<usize>>, new_index: Map<u64, Vec<usize>>, key: Seq<char>)
    requires
        keys_indexed(keys, old_index),
        keys.len() <= usize::MAX,
        new_index == old_index.insert(kmer_hash(key) as u64, new_index[kmer_hash(key) as u64]),
        new_index[kmer_hash(key) as u64]@ == (if old_index.contains_key(kmer_hash(key) as u64) {
            old_index[kmer_hash(key) as u64]@
        } else {
            Seq::empty()
        }).push(keys.len() as usize),
    ensures
        keys_indexed(keys.push(key), new_index),
{
    let h = kmer_hash(key) as u64;
    let nk = keys.push(key);
    assert forall|j: int| 0 <= j < nk.len() implies {
        let hh = kmer_hash(#[trigger] nk[j]) as u64;
        new_index.contains_key(hh) && new_index[hh]@.contains(j as usize)
    } by {
        let hh = kmer_hash(nk[j]) as u64;
        if j == keys.len() {
            assert(new_index[h]@[new_index[h]@.len() - 1] == j as usize);
        } else {
            assert(nk[j] == keys[j]);
            assert(old_index.contains_key(hh) && old_index[hh]@.contains(j as usize));
            if hh == h {
                let q = choose|q: int| 0 <= q < old_index[h]@.len() && old_index[h]@[q] == j as usize;
                assert(new_index[h]@[q] == j as usize);
            }
        }
    }
    assert forall|hh: u64, q: int| #![trigger new_index[hh]@[q]]
        new_index.contains_key(hh) && 0 <= q < new_index[hh]@.len() implies new_index[hh]@[q] < nk.len() by {
        if hh != h {
            assert(old_index[hh]@[q] < keys.len());
        } else if q < new_index[h]@.len() - 1 {
            assert(old_index[h]@[q] < keys.len());
        }
    }
}

/// An index of `keys`.
fn index_keys(keys: &Vec<String>) -> (index: HashMap<u64, Vec<usize>>)
    ensures
        keys_indexed(strings_view(keys@), index@),
{
    let mut index: HashMap<u64, Vec<usize>> = HashMap::new();
    let mut j: usize = 0;
    while j < keys.len()
        invariant
            j <= keys@.len(),
            keys_indexed(strings_view(keys@).take(j as int), index@),
        decreases keys@.len() - j,
    {
        let h = hash_string(&keys[j]);
        let ghost old_index = index@;
        proof {
            lemma_kmer_hash_bounded(keys@[j as int]@);
        }
        add_to_bucket(&mut index, h, j);
        proof {
            lemma_index_push(strings_view(keys@).take(j as int), old_index, index@, keys@[j as int]@);
            assert(strings_view(keys@).take(j as int).push(keys@[j as int]@) =~= strings_view(keys@).take(j + 1));
        }
        j = j + 1;
    }
    assert(strings_view(keys@).take(keys@.len() as int) =~= strings_view(keys@));
    index
}

/// Whether `key` (of hash `h`) is one of `keys`.
fn has_key(keys: &Vec<String>, index: &HashMap<u64, Vec<usize>>, key: &String, h: u64) -> (r: bool)
    requires
        keys_indexed(strings_view(keys@), index@),
        h as nat == kmer_hash(key@),
    ensures
        r == strings_view(keys@).contains(key@),
{
    let n = keys.len();
    proof {
        lemma_kmer_hash_bounded(key@);
    }
    match index.get(&h) {
        Some(bucket) => {
            let mut q: usize = 0;
            while q < bucket.len()
                invariant
                    keys_indexed(strings_view(keys@), index@),
                    index@.contains_key(h),
                    bucket@ == index@[h]@,
                    q <= bucket@.len(),
                    forall|qq: int| 0 <= qq < q ==> keys@[bucket@[qq] as int]@ != key@,
                decreases bucket@.len() - q,
            {
                let j = bucket[q];
                assert(index@[h]@[q as int] < strings_view(keys@).len());
                if keys[j] == *key {
                    assert(strings_view(keys@)[j as int] == key@);
                    return true;
                }
                q = q + 1;
            }
            proof {
                if strings_view(keys@).contains(key@) {
                    let j = choose|j: int| 0 <= j < strings_view(keys@).len() && strings_view(keys@)[j] == key@;
                    assert(kmer_hash(strings_view(keys@)[j]) as u64 == h);
                    assert(index@[h]@.contains(j as usize));
                    let qq = choose|qq: int| 0 <= qq < bucket@.len() && bucket@[qq] == j as usize;
                    assert(keys@[bucket@[qq] as int]@ != key@);
                }
            }
            false
        },
        None => {
            proof {
                if strings_view(keys@).contains(key@) {
                    let j = choose|j: int| 0 <= j < strings_view(keys@).len() && strings_view(keys@)[j] == key@;
                    assert(index@.contains_key(kmer_hash(strings_view(keys@)[j]) as u64));
                }
            }
            false
        },
    }
}

/// Every distinct k-mer of the batch, each once, in order of first
/// appearance.
#[verifier::spinoff_prover]
#[verifier::rlimit(40)]
pub fn collect_query_kmers(sets: &Vec<GeneKmers>) -> (r: Vec<String>)
    ensures
        strings_view(r@).no_duplicates(),
        forall|x: Seq<char>| strings_view(r@).contains(x) <==> batch_has_kmer(sets@, x),
{
    let mut r: Vec<String> = Vec::new();
    let mut index: HashMap<u64, Vec<usize>> = HashMap::new();
    let mut i: usize = 0;
    while i < sets.len()
        invariant
            i <= sets@.len(),
            keys_indexed(strings_view(r@), index@),
            strings_view(r@).no_duplicates(),
            forall|x: Seq<char>| strings_view(r@).contains(x) <==> batch_has_kmer(sets@.take(i as int), x),
        decreases sets@.len() - i,
    {
        let probes = &sets[i].kmers;
        let mut m: usize = 0;
        while m < probes.len()
            invariant
                i < sets@.len(),
                probes == sets@[i as int].kmers,
                m <= probes@.len(),
                keys_indexed(strings_view(r@), index@),
                strings_view(r@).no_duplicates(),
                forall|x: Seq<char>| strings_view(r@).contains(x) <==> (batch_has_kmer(sets@.take(i as int), x)
                    || exists|mm: int| 0 <= mm < m && #[trigger] probes@[mm].kmer@ == x),
            decreases probes@.len() - m,
        {
            let k = &probes[m].kmer;
            let ghost r0 = r@;
            let h = hash_string(k);
            let present = has_key(&r, &index, k, h);
            if !present {
                let ghost old_index = index@;
                proof {
                    lemma_kmer_hash_bounded(k@);
                }
                add_to_bucket(&mut index, h, r.len());
                proof {
                    lemma_index_push(strings_view(r@), old_index, index@, k@);
                }
                r.push(k.clone());
                assert(strings_view(r@) =~= strings_view(r0).push(k@));
                assert(strings_view(r@)[r@.len() - 1] == k@);
                assert forall|x: Seq<char>| strings_view(r0).contains(x) implies strings_view(r@).contains(x) by {
                    let q = choose|q: int| 0 <= q < strings_view(r0).len() && strings_view(r0)[q] == x;
                    assert(strings_view(r@)[q] == x);
                }
            }
            assert(strings_view(r@).contains(k@));
            assert forall|x: Seq<char>| strings_view(r@).contains(x) <==> (batch_has_kmer(sets@.take(i as int), x)
                || exists|mm: int| 0 <= mm < m + 1 && #[trigger] probes@[mm].kmer@ == x) by {
                if strings_view(r@).contains(x) {
                    if strings_view(r0).contains(x) {
                        if !batch_has_kmer(sets@.take(i as int), x) {
                            let mm = choose|mm: int| 0 <= mm < m && #[trigger] probes@[mm].kmer@ == x;
                            assert(0 <= mm < m + 1 && probes@[mm].kmer@ == x);
                        }
                    } else {
                        assert(probes@[m as int].kmer@ == x);
                    }
                }
                if exists|mm: int| 0 <= mm < m + 1 && #[trigger] probes@[mm].kmer@ == x {
                    let mm = choose|mm: int| 0 <= mm < m + 1 && #[trigger] probes@[mm].kmer@ == x;
                    if mm < m {
                        assert(strings_view(r0).contains(x));
                    } else {
                        assert(x == k@);
                    }
                }
            }
            m = m + 1;
        }
        assert forall|x: Seq<char>| strings_view(r@).contains(x) <==> batch_has_kmer(sets@.take(i + 1), x) by {
            let t0 = sets@.take(i as int);
            let t1 = sets@.take(i + 1);
            if batch_has_kmer(t1, x) {
                let (a, b) = choose|a: int, b: int|
                    0 <= a < t1.len() && 0 <= b < t1[a].kmers@.len() && #[trigger] t1[a].kmers@[b].kmer@ == x;
                if a < i {
                    assert(t0[a].kmers@[b].kmer@ == x);
                } else {
                    assert(probes@[b].kmer@ == x);
                }
            }
            if batch_has_kmer(t0, x) {
                let (a, b) = choose|a: int, b: int|
                    0 <= a < t0.len() && 0 <= b < t0[a].kmers@.len() && #[trigger] t0[a].kmers@[b].kmer@ == x;
                assert(t1[a].kmers@[b].kmer@ == x);
            }
            if exists|mm: int| 0 <= mm < probes@.len() && #[trigger] probes@[mm].kmer@ == x {
                let mm = choose|mm: int| 0 <= mm < probes@.len() && #[trigger] probes@[mm].kmer@ == x;
                assert(t1[i as int].kmers@[mm].kmer@ == x);
            }
        }
        i = i + 1;
    }
    assert(sets@.take(sets@.len() as int) =~= sets@);
    r
}

/// The hit table: for each queried k-mer, in order, the identifiers of the
/// shards whose answer for it is yes (in shard order). The result does not
/// depend on the order in which shards were answered, only on their order
/// in `shards`.
pub fn aggregate_hits(kmers: &Vec<String>, shards: &Vec<(String, Vec<bool>)>) -> (r: Vec<(String, Vec<String>)>)
    ensures
        r@.len() == kmers@.len(),
        forall|i: int| 0 <= i < r@.len() ==> (#[trigger] hit_views(r@)[i]) == (kmers@[i]@, hit_sources(shard_views(shards@), i)),
{
    let ghost sv = shard_views(shards@);
    let mut r: Vec<(String, Vec<String>)> = Vec::new();
    let mut i: usize = 0;
    while i < kmers.len()
        invariant
            i <= kmers@.len(),
            sv == shard_views(shards@),
            r@.len() == i,
            forall|j: int| 0 <= j < i ==> (#[trigger] hit_views(r@)[j]) == (kmers@[j]@, hit_sources(sv, j)),
        decreases kmers@.len() - i,
    {
        let mut sources: Vec<String> = Vec::new();
        let mut s: usize = 0;
        while s < shards.len()
            invariant
                s <= shards@.len(),
                sv == shard_views(shards@),
                strings_view(sources@) == hit_sources(sv.take(s as int), i as int),
            decreases shards@.len() - s,
        {
            let ghost s0 = sources@;
            assert(sv.take(s + 1).drop_last() =~= sv.take(s as int));
            assert(sv.take(s + 1).last() == sv[s as int]);
            let flags = &shards[s].1;
            if i < flags.len() && flags[i] {
                sources.push(shards[s].0.clone());
                assert(strings_view(sources@) =~= strings_view(s0).push(sv[s as int].0));
            }
            s = s + 1;
        }
        assert(sv.take(sv.len() as int) =~= sv);
        let ghost r0 = r@;
        r.push((kmers[i].clone(), sources));
        assert(hit_views(r@) =~= hit_views(r0).push((kmers@[i as int]@, hit_sources(sv, i as int))));
        i = i + 1;
    }
    r
}

/// The k-mers of a hit table, in order.
fn table_kmers(hits: &Vec<(String, Vec<String>)>) -> (r: Vec<String>)
    ensures
        strings_view(r@) == hit_kmers(hit_views(hits@)),
{
    let mut r: Vec<String> = Vec::new();
    let mut j: usize = 0;
    while j < hits.len()
        invariant
            j <= hits@.len(),
            strings_view(r@) == hit_kmers(hit_views(hits@)).take(j as int),
        decreases hits@.len() - j,
    {
        let ghost r0 = r@;
        r.push(hits[j].0.clone());
        assert(strings_view(r@) =~= strings_view(r0).push(hits@[j as int].0@));
        assert(hit_kmers(hit_views(hits@)).take(j + 1) =~= hit_kmers(hit_views(hits@)).take(j as int).push(
            hits@[j as int].0@,
        ));
        j = j + 1;
    }
    assert(hit_kmers(hit_views(hits@)).take(hits@.len() as int) =~= hit_kmers(hit_views(hits@)));
    r
}

/// The k-mers of some probes, in order.
fn kmers_of(probes: &Vec<Probes>) -> (r: Vec<String>)
    ensures
        strings_view(r@) == probe_kmers(probe_views(probes@)),
{
    let mut r: Vec<String> = Vec::new();
    let mut m: usize = 0;
    while m < probes.len()
        invariant
            m <= probes@.len(),
            strings_view(r@) == probe_kmers(probe_views(probes@)).take(m as int),
        decreases probes@.len() - m,
    {
        let ghost r0 = r@;
        r.push(probes[m].kmer.clone());
        assert(strings_view(r@) =~= strings_view(r0).push(probes@[m as int].kmer@));
        assert(probe_kmers(probe_views(probes@)).take(m + 1) =~= probe_kmers(probe_views(probes@)).take(
            m as int,
        ).push(probes@[m as int].kmer@));
        m = m + 1;
    }
    assert(probe_kmers(probe_views(probes@)).take(probes@.len() as int) =~= probe_kmers(probe_views(probes@)));
    r
}

/// Whether `k` (of hash `h`) passes the hit limit, looked up through an
/// index of the table's k-mers.
fn kmer_within_limit(
    hits: &Vec<(String, Vec<String>)>,
    keys: &Vec<String>,
    index: &HashMap<u64, Vec<usize>>,
    k: &String,
    h: u64,
    max_hits: usize,
) -> (r: bool)
    requires
        strings_view(keys@) == hit_kmers(hit_views(hits@)),
        keys_indexed(strings_view(keys@), index@),
        h as nat == kmer_hash(k@),
    ensures
        r == kmer_passes(hit_views(hits@), k@, max_hits),
{
    let ghost hv = hit_views(hits@);
    let n = keys.len();
    proof {
        lemma_kmer_hash_bounded(k@);
    }
    match index.get(&h) {
        Some(bucket) => {
            let mut q: usize = 0;
            while q < bucket.len()
                invariant
                    hv == hit_views(hits@),
                    strings_view(keys@) == hit_kmers(hv),
                    keys_indexed(strings_view(keys@), index@),
                    index@.contains_key(h),
                    bucket@ == index@[h]@,
                    q <= bucket@.len(),
                    forall|qq: int| 0 <= qq < q && #[trigger] hv[bucket@[qq] as int].0 == k@
                        ==> hv[bucket@[qq] as int].1.len() <= max_hits,
                decreases bucket@.len() - q,
            {
                let j = bucket[q];
                assert(index@[h]@[q as int] < strings_view(keys@).len());
                assert(hv[j as int] == (hits@[j as int].0@, strings_view(hits@[j as int].1@)));
                if hits[j].0 == *k && hits[j].1.len() > max_hits {
                    assert(hv[j as int].0 == k@);
                    assert(hv[j as int].1.len() == hits@[j as int].1@.len());
                    assert(j < hv.len());
                    return false;
                }
                q = q + 1;
            }
            proof {
                assert forall|j: int| 0 <= j < hv.len() && #[trigger] hv[j].0 == k@ implies hv[j].1.len() <= max_hits by {
                    assert(strings_view(keys@)[j] == hv[j].0);
                    assert(kmer_hash(strings_view(keys@)[j]) as u64 == h);
                    assert(index@[h]@.contains(j as usize));
                    let qq = choose|qq: int| 0 <= qq < bucket@.len() && bucket@[qq] == j as usize;
                    assert(hv[bucket@[qq] as int].0 == k@);
                }
            }
            true
        },
        None => {
            proof {
                assert forall|j: int| 0 <= j < hv.len() && #[trigger] hv[j].0 == k@ implies hv[j].1.len() <= max_hits by {
                    assert(strings_view(keys@)[j] == hv[j].0);
                    assert(index@.contains_key(kmer_hash(strings_view(keys@)[j]) as u64));
                }
            }
            true
        },
    }
}

fn set_within_limit(
    probes: &Vec<Probes>,
    hits: &Vec<(String, Vec<String>)>,
    keys: &Vec<String>,
    index: &HashMap<u64, Vec<usize>>,
    max_hits: usize,
) -> (r: bool)
    requires
        strings_view(keys@) == hit_kmers(hit_views(hits@)),
        keys_indexed(strings_view(keys@), index@),
    ensures
        r == set_passes(probe_views(probes@), hit_views(hits@), max_hits),
{
    let ghost pv = probe_views(probes@);
    let mut m: usize = 0;
    while m < probes.len()
        invariant
            m <= probes@.len(),
            pv == probe_views(probes@),
            strings_view(keys@) == hit_kmers(hit_views(hits@)),
            keys_indexed(strings_view(keys@), index@),
            forall|mm: int| 0 <= mm < m ==> !kmer_passes(hit_views(hits@), #[trigger] pv[mm].kmer, max_hits),
        decreases probes@.len() - m,
    {
        let h = hash_string(&probes[m].kmer);
        assert(pv[m as int].kmer == probes@[m as int].kmer@);
        if kmer_within_limit(hits, keys, index, &probes[m].kmer, h, max_hits) {
            return true;
        }
        m = m + 1;
    }
    false
}

fn copy_strings(v: &Vec<String>) -> (r: Vec<String>)
    ensures
        strings_view(r@) == strings_view(v@),
{
    let mut r: Vec<String> = Vec::new();
    let mut i: usize = 0;
    while i < v.len()
        invariant
            i <= v@.len(),
            strings_view(r@) == strings_view(v@).take(i as int),
        decreases v@.len() - i,
    {
        let ghost r0 = r@;
        r.push(v[i].clone());
        assert(strings_view(r@) =~= strings_view(r0).push(v@[i as int]@));
        assert(strings_view(v@).take(i + 1) =~= strings_view(v@).take(i as int).push(v@[i as int]@));
        i = i + 1;
    }
    assert(strings_view(v@).take(v@.len() as int) =~= strings_view(v@));
    r
}

/// The entries of a hit table that list at least one shard, in order.
fn with_hits(hits: &Vec<(String, Vec<String>)>) -> (r: Vec<(String, Vec<String>)>)
    ensures
        hit_views(r@) == entries_with_hits(hit_views(hits@)),
{
    let ghost hv = hit_views(hits@);
    let ghost pred = |h: HitModel| h.1.len() > 0;
    let mut r: Vec<(String, Vec<String>)> = Vec::new();
    let mut j: usize = 0;
    while j < hits.len()
        invariant
            j <= hits@.len(),
            hv == hit_views(hits@),
            pred == (|h: HitModel| h.1.len() > 0),
            hit_views(r@) == hv.take(j as int).filter(pred),
        decreases hits@.len() - j,
    {
        let ghost r0 = r@;
        assert(hv.take(j + 1) =~= hv.take(j as int).push(hv[j as int]));
        proof {
            hv.take(j as int).lemma_filter_push(hv[j as int], pred);
        }
        assert(hv[j as int] == (hits@[j as int].0@, strings_view(hits@[j as int].1@)));
        if hits[j].1.len() > 0 {
            r.push((hits[j].0.clone(), copy_strings(&hits[j].1)));
            assert(hit_views(r@) =~= hit_views(r0).push(hv[j as int]));
        }
        j = j + 1;
    }
    assert(hv.take(hv.len() as int) =~= hv);
    r
}

/// The entries of `with_hits` whose k-mer is one of `probes`, in order.
fn hits_of_set(probes: &Vec<Probes>, with_hits: &Vec<(String, Vec<String>)>) -> (r: Vec<(String, Vec<String>)>)
    ensures
        hit_views(r@) == hit_views(with_hits@).filter(
            |h: HitModel| exists|m: int| 0 <= m < probe_views(probes@).len() && #[trigger] probe_views(probes@)[m].kmer == h.0,
        ),
{
    let ghost pv = probe_views(probes@);
    let ghost hv = hit_views(with_hits@);
    let ghost pred = |h: HitModel| exists|m: int| 0 <= m < pv.len() && #[trigger] pv[m].kmer == h.0;
    let keys = kmers_of(probes);
    let index = index_keys(&keys);
    let mut r: Vec<(String, Vec<String>)> = Vec::new();
    let mut j: usize = 0;
    while j < with_hits.len()
        invariant
            j <= with_hits@.len(),
            pv == probe_views(probes@),
            hv == hit_views(with_hits@),
            strings_view(keys@) == probe_kmers(pv),
            keys_indexed(strings_view(keys@), index@),
            pred == (|h: HitModel| exists|m: int| 0 <= m < pv.len() && #[trigger] pv[m].kmer == h.0),
            hit_views(r@) == hv.take(j as int).filter(pred),
        decreases with_hits@.len() - j,
    {
        let ghost r0 = r@;
        assert(hv.take(j + 1) =~= hv.take(j as int).push(hv[j as int]));
        proof {
            hv.take(j as int).lemma_filter_push(hv[j as int], pred);
        }
        assert(hv[j as int] == (with_hits@[j as int].0@, strings_view(with_hits@[j as int].1@)));
        let e = &with_hits[j];
        let h = hash_string(&e.0);
        let found = has_key(&keys, &index, &e.0, h);
        proof {
            if found {
                let m = choose|m: int| 0 <= m < strings_view(keys@).len() && strings_view(keys@)[m] == e.0@;
                assert(pv[m].kmer == e.0@);
            } else {
                assert forall|m: int| 0 <= m < pv.len() implies #[trigger] pv[m].kmer != e.0@ by {
                    assert(strings_view(keys@)[m] == pv[m].kmer);
                }
            }
        }
        if found {
            r.push((e.0.clone(), copy_strings(&e.1)));
            assert(hit_views(r@) =~= hit_views(r0).push(hv[j as int]));
        }
        j = j + 1;
    }
    assert(hv.take(hv.len() as int) =~= hv);
    r
}

/// The probe sets of `sets` with at least one k-mer within `max_hits` (see
/// `set_passes`), in their order, each carrying the hit-table entries of
/// its own k-mers.
pub fn retain_off_target(sets: Vec<GeneKmers>, hits: &Vec<(String, Vec<String>)>, max_hits: usize) -> (r: Vec<GeneKmers>)
    ensures
        summaries(r@) == summaries(sets@).filter(|g: GeneSummary| set_passes(g.4, hit_views(hits@), max_hits)),
        forall|i: int| 0 <= i < r@.len() ==> hit_views((#[trigger] r@[i]).kmer_hits@) == hits_for(
            probe_views(r@[i].kmers@),
            hit_views(hits@),
        ),
{
    let ghost hv = hit_views(hits@);
    let ghost pred = |g: GeneSummary| set_passes(g.4, hv, max_hits);
    let ghost sm = summaries(sets@);
    let keys = table_kmers(hits);
    let index = index_keys(&keys);
    let hit_entries = with_hits(hits);
    let mut r: Vec<GeneKmers> = Vec::new();
    for g in it: sets.into_iter()
        invariant
            it.seq() == sets@,
            hv == hit_views(hits@),
            strings_view(keys@) == hit_kmers(hv),
            keys_indexed(strings_view(keys@), index@),
            hit_views(hit_entries@) == entries_with_hits(hv),
            sm == summaries(sets@),
            pred == (|g: GeneSummary| set_passes(g.4, hv, max_hits)),
            summaries(r@) == sm.take(it.index() as int).filter(pred),
            forall|i: int| 0 <= i < r@.len() ==> hit_views((#[trigger] r@[i]).kmer_hits@) == hits_for(
                probe_views(r@[i].kmers@),
                hv,
            ),
    {
        let ghost i = it.index() as int;
        let ghost r0 = r@;
        assert(g == sets@[i]);
        assert(sm.take(i + 1) =~= sm.take(i).push(sm[i]));
        proof {
            sm.take(i).lemma_filter_push(sm[i], pred);
        }
        if set_within_limit(&g.kmers, hits, &keys, &index, max_hits) {
            let kmer_hits = hits_of_set(&g.kmers, &hit_entries);
            let kept = GeneKmers {
                gene: g.gene,
                start: g.start,
                end: g.end,
                kmers: g.kmers,
                strand: g.strand,
                kmer_hits,
            };
            r.push(kept);
            assert(summaries(r@) =~= summaries(r0).push(sm[i]));
        }
    }
    assert(sm.take(sm.len() as int) =~= sm);
    r
}

/// A probe set none of whose k-mers is held by any shard survives, whatever
/// the hit limit, provided it has a k-mer at all.
pub proof fn lemma_unhit_set_survives(probes: Seq<ProbeView>, hits: Seq<HitModel>, max_hits: usize)
    requires
        probes.len() > 0,
        forall|m: int, j: int|
            0 <= m < probes.len() && 0 <= j < hits.len() && hits[j].0 == #[trigger] probes[m].kmer
                ==> #[trigger] hits[j].1.len() == 0,
    ensures
        set_passes(probes, hits, max_hits),
{
    assert(kmer_passes(hits, probes[0].kmer, max_hits));
}

/// One k-mer without hits is enough for a probe set to survive, even when
/// another of its k-mers is held by more shards than the limit allows.
pub proof fn lemma_one_clean_kmer_suffices(
    probes: Seq<ProbeView>,
    hits: Seq<HitModel>,
    max_hits: usize,
    crowded: int,
    clean: int,
)
    requires
        0 <= crowded < probes.len(),
        0 <= clean < probes.len(),
        exists|j: int| 0 <= j < hits.len() && hits[j].0 == probes[crowded].kmer && #[trigger] hits[j].1.len() == max_hits + 1,
        forall|j: int| 0 <= j < hits.len() && #[trigger] hits[j].0 == probes[clean].kmer ==> hits[j].1.len() == 0,
    ensures
        set_passes(probes, hits, max_hits),
        !kmer_passes(hits, probes[crowded].kmer, max_hits),
{
    assert(kmer_passes(hits, probes[clean].kmer, max_hits));
}

} // verus!
