//! Scored probes, per-region probe sets, and the region and quality filters
//! applied to them.

use vstd::prelude::*;
use crate::kmer::{is_tiling, tile_kmers, TileModel};
use crate::seq::{first_half, gc_halves, gc_percent, lemma_longest_run_bounded, longest_run, longest_run_in, second_half};
use crate::text::chars_of;
use crate::cli::KmerOptions;
use crate::seq::{reverse_complement, revcomp_bytes_spec};
use vstd::utf8::encode_utf8;

verus! {

/// A candidate probe: one k-mer, the offsets at which it occurs, and the
/// attributes it is scored by.
pub struct Probes {
    pub kmer: String,
    pub locations: Vec<usize>,
    /// GC percentage of the first `k / 2` bases.
    pub first_half_gc: usize,
    /// GC percentage of the last `k / 2` bases.
    pub second_half_gc: usize,
    /// Longest run of one repeated base; the homopolymer complexity of the
    /// probe is `1 - longest_run / k`.
    pub longest_run: usize,
    /// The base at index `k / 2 - 1`.
    pub junction_base: char,
}

/// What a probe holds, as plain values.
pub struct ProbeView {
    pub kmer: Seq<char>,
    pub locations: Seq<usize>,
    pub first_half_gc: usize,
    pub second_half_gc: usize,
    pub longest_run: usize,
    pub junction_base: char,
}

impl View for Probes {
    type V = ProbeView;

    open spec fn view(&self) -> ProbeView {
        ProbeView {
            kmer: self.kmer@,
            locations: self.locations@,
            first_half_gc: self.first_half_gc,
            second_half_gc: self.second_half_gc,
            longest_run: self.longest_run,
            junction_base: self.junction_base,
        }
    }
}

impl ProbeView {
    /// The attributes are those of the k-mer.
    pub open spec fn is_scored(self) -> bool {
        let s = self.kmer;
        let k = s.len() as int;
        &&& k >= 2
        &&& self.first_half_gc == gc_percent(first_half(s, k))
        &&& self.second_half_gc == gc_percent(second_half(s, k))
        &&& self.longest_run == longest_run(s)
        &&& self.junction_base == s[k / 2 - 1]
    }

    pub open spec fn tile(self) -> TileModel {
        (self.kmer, self.locations)
    }
}

pub open spec fn probe_views(v: Seq<Probes>) -> Seq<ProbeView> {
    v.map_values(|p: Probes| p@)
}

pub open spec fn probe_tiles(v: Seq<Probes>) -> Seq<TileModel> {
    v.map_values(|p: Probes| p@.tile())
}

fn copy_positions(v: &Vec<usize>) -> (r: Vec<usize>)
    ensures
        r@ == v@,
{
    let mut r: Vec<usize> = Vec::new();
    let mut i: usize = 0;
    while i < v.len()
        invariant
            i <= v@.len(),
            r@ == v@.take(i as int),
        decreases v@.len() - i,
    {
        r.push(v[i]);
        i = i + 1;
    }
    assert(v@.take(i as int) =~= v@);
    r
}

impl Probes {
    /// A probe for `kmer` at `locations`, scored from its bases.
    pub fn new(kmer: String, locations: Vec<usize>) -> (r: Probes)
        requires
            kmer@.len() >= 2,
        ensures
            r.kmer@ == kmer@,
            r.locations@ == locations@,
            r@.is_scored(),
    {
        let cs = chars_of(kmer.as_str());
        let k = cs.len();
        let (first_half_gc, second_half_gc) = gc_halves(&cs, k);
        let longest_run = longest_run_in(&cs);
        let junction_base = cs[k / 2 - 1];
        Probes { kmer, locations, first_half_gc, second_half_gc, longest_run, junction_base }
    }

    /// A copy of this probe.
    pub fn duplicate(&self) -> (r: Probes)
        ensures
            r@ == self@,
    {
        Probes {
            kmer: self.kmer.clone(),
            locations: copy_positions(&self.locations),
            first_half_gc: self.first_half_gc,
            second_half_gc: self.second_half_gc,
            longest_run: self.longest_run,
            junction_base: self.junction_base,
        }
    }

    /// The homopolymer complexity `1 - longest_run / k`, as the numerator
    /// and the denominator of that fraction.
    pub fn complexity(&self) -> (r: (usize, usize))
        requires
            self@.is_scored(),
        ensures
            r.1 == self.kmer@.len(),
            r.0 == self.kmer@.len() - longest_run(self.kmer@),
    {
        proof {
            lemma_longest_run_bounded(self.kmer@);
        }
        let k = self.kmer.unicode_len();
        (k - self.longest_run, k)
    }

    /// One scored probe for each distinct k-mer of width `kmer_size` in
    /// `seq`, located at its offsets plus `start_offset`.
    pub fn generate_probes(seq: &str, kmer_size: usize, start_offset: usize) -> (r: Vec<Probes>)
        requires
            kmer_size >= 2,
            start_offset > 0 && kmer_size <= seq@.len() ==> start_offset + (seq@.len() - kmer_size) <= usize::MAX,
        ensures
            seq@.len() < kmer_size ==> r@.len() == 0,
            is_tiling(seq@, kmer_size as int, start_offset as int, probe_tiles(r@)),
            forall|i: int| 0 <= i < r@.len() ==> (#[trigger] r@[i])@.is_scored(),
    {
        let tiles = tile_kmers(seq, kmer_size, start_offset);
        let ghost t = crate::kmer::tiles_model(tiles@);
        let mut r: Vec<Probes> = Vec::new();
        for e in it: tiles.into_iter()
            invariant
                it.seq() == tiles@,
                kmer_size >= 2,
                t == crate::kmer::tiles_model(tiles@),
                is_tiling(seq@, kmer_size as int, start_offset as int, t),
                probe_tiles(r@) == t.take(it.index() as int),
                forall|i: int| 0 <= i < r@.len() ==> (#[trigger] r@[i])@.is_scored(),
        {
            let ghost i = it.index() as int;
            assert(e == tiles@[i]);
            assert(t[i].1.len() > 0);
            assert(t[i] == (tiles@[i].0@, tiles@[i].1@));
            assert(e.0@.len() == kmer_size);
            let ghost r0 = r@;
            let p = Probes::new(e.0, e.1);
            r.push(p);
            assert(p@.tile() == t[i]);
            assert(probe_tiles(r@) =~= probe_tiles(r0).push(t[i]));
            assert(t.take(i + 1) =~= t.take(i).push(t[i]));
        }
        assert(t.take(t.len() as int) =~= t);
        r
    }
}

/// Whether a probe found at `locations` is kept for the region
/// `[start, end]`: with `all_inside` every location must lie in it,
/// otherwise at least one.
pub open spec fn region_keeps(locations: Seq<usize>, start: u64, end: u64, all_inside: bool) -> bool {
    if all_inside {
        forall|m: int| 0 <= m < locations.len() ==> start <= #[trigger] locations[m] <= end
    } else {
        exists|m: int| 0 <= m < locations.len() && start <= #[trigger] locations[m] <= end
    }
}

/// Whether a probe passes the quality filter: its junction base is the
/// required one, if one is required, and both half-GC percentages lie in
/// `[min_gc, max_gc]` unless GC filtering is skipped.
pub open spec fn quality_keeps(p: ProbeView, center_base: Option<char>, min_gc: usize, max_gc: usize, skip_gc: bool) -> bool {
    &&& match center_base {
        Some(b) => p.junction_base == b,
        None => true,
    }
    &&& (skip_gc || (min_gc <= p.first_half_gc <= max_gc && min_gc <= p.second_half_gc <= max_gc))
}

fn locations_in_region(locations: &Vec<usize>, start: u64, end: u64, all_inside: bool) -> (r: bool)
    ensures
        r == region_keeps(locations@, start, end, all_inside),
{
    let mut i: usize = 0;
    while i < locations.len()
        invariant
            i <= locations@.len(),
            forall|m: int| 0 <= m < i ==> (all_inside <==> start <= #[trigger] locations@[m] <= end),
        decreases locations@.len() - i,
    {
        let pos = locations[i] as u64;
        let inside = start <= pos && pos <= end;
        if inside != all_inside {
            return !all_inside;
        }
        i = i + 1;
    }
    all_inside
}

/// The probes of `probes` that the region `[start, end]` keeps (see
/// `region_keeps`), in their order.
pub fn filter_hashmap(probes: Vec<Probes>, start: u64, end: u64, all_inside: bool) -> (r: Vec<Probes>)
    ensures
        probe_views(r@) == probe_views(probes@).filter(
            |p: ProbeView| region_keeps(p.locations, start, end, all_inside),
        ),
{
    let ghost pred = |p: ProbeView| region_keeps(p.locations, start, end, all_inside);
    let ghost pv = probe_views(probes@);
    let mut r: Vec<Probes> = Vec::new();
    for p in it: probes.into_iter()
        invariant
            it.seq() == probes@,
            pv == probe_views(probes@),
            pred == (|p: ProbeView| region_keeps(p.locations, start, end, all_inside)),
            probe_views(r@) == pv.take(it.index() as int).filter(pred),
    {
        let ghost i = it.index() as int;
        let ghost r0 = r@;
        assert(pv.take(i + 1) =~= pv.take(i).push(pv[i]));
        proof {
            pv.take(i).lemma_filter_push(pv[i], pred);
        }
        assert(p@ == pv[i]);
        if locations_in_region(&p.locations, start, end, all_inside) {
            r.push(p);
            assert(probe_views(r@) =~= probe_views(r0).push(pv[i]));
        }
    }
    assert(pv.take(pv.len() as int) =~= pv);
    r
}

/// The probes designed for one region: a gene, or a graph segment.
pub struct GeneKmers {
    pub gene: String,
    /// 1-based inclusive coordinates of the region.
    pub start: u64,
    pub end: u64,
    pub kmers: Vec<Probes>,
    /// `"+"` or `"-"`.
    pub strand: String,
    /// For each k-mer found off target, the sources that hold it.
    pub kmer_hits: Vec<(String, Vec<String>)>,
}

impl GeneKmers {
    /// The probes of this set that pass the quality filter (see
    /// `quality_keeps`), in their order; the off-target hits are cleared.
    pub fn filter_kmers(&self, center_base: Option<char>, min_gc: usize, max_gc: usize, skip_gc: bool) -> (r: GeneKmers)
        ensures
            r.is_quality_filtered(*self, center_base, min_gc, max_gc, skip_gc),
    {
        let ghost pred = |p: ProbeView| quality_keeps(p, center_base, min_gc, max_gc, skip_gc);
        let ghost pv = probe_views(self.kmers@);
        let mut kept: Vec<Probes> = Vec::new();
        let mut i: usize = 0;
        while i < self.kmers.len()
            invariant
                i <= self.kmers@.len(),
                pv == probe_views(self.kmers@),
                pred == (|p: ProbeView| quality_keeps(p, center_base, min_gc, max_gc, skip_gc)),
                probe_views(kept@) == pv.take(i as int).filter(pred),
            decreases self.kmers@.len() - i,
        {
            let p = &self.kmers[i];
            let ghost k0 = kept@;
            assert(pv.take(i + 1) =~= pv.take(i as int).push(pv[i as int]));
            proof {
                pv.take(i as int).lemma_filter_push(pv[i as int], pred);
            }
            let junction_ok = match center_base {
                Some(b) => p.junction_base == b,
                None => true,
            };
            let gc_ok = skip_gc || (min_gc <= p.first_half_gc && p.first_half_gc <= max_gc
                && min_gc <= p.second_half_gc && p.second_half_gc <= max_gc);
            if junction_ok && gc_ok {
                kept.push(p.duplicate());
                assert(probe_views(kept@) =~= probe_views(k0).push(pv[i as int]));
            }
            i = i + 1;
        }
        assert(pv.take(pv.len() as int) =~= pv);
        GeneKmers {
            gene: self.gene.clone(),
            start: self.start,
            end: self.end,
            kmers: kept,
            strand: self.strand.clone(),
            kmer_hits: Vec::new(),
        }
    }
}

/// A region's probe set as plain values: gene, start, end, strand, probes.
pub type GeneSummary = (Seq<char>, u64, u64, Seq<char>, Seq<ProbeView>);

/// Where a gene lies, as found in an annotation: start, end and strand.
pub type GeneCoords = (u64, u64, String);

impl GeneKmers {
    pub open spec fn summary(self) -> GeneSummary {
        (self.gene@, self.start, self.end, self.strand@, probe_views(self.kmers@))
    }

    /// `self` is `orig` after the quality filter: same region, the probes
    /// that pass in their order, and no off-target hits.
    pub open spec fn is_quality_filtered(
        self,
        orig: GeneKmers,
        center_base: Option<char>,
        min_gc: usize,
        max_gc: usize,
        skip_gc: bool,
    ) -> bool {
        &&& self.gene@ == orig.gene@
        &&& self.start == orig.start
        &&& self.end == orig.end
        &&& self.strand@ == orig.strand@
        &&& self.kmer_hits@.len() == 0
        &&& probe_views(self.kmers@) == probe_views(orig.kmers@).filter(
            |p: ProbeView| quality_keeps(p, center_base, min_gc, max_gc, skip_gc),
        )
    }
}

pub open spec fn summaries(v: Seq<GeneKmers>) -> Seq<GeneSummary> {
    v.map_values(|g: GeneKmers| g.summary())
}

/// The probe sets of the genes that were found and keep at least one probe
/// of `probes` under the region filter, in the order of `genes`.
pub open spec fn gene_sets_spec(
    genes: Seq<String>,
    coords: Seq<Option<GeneCoords>>,
    probes: Seq<ProbeView>,
    all_inside: bool,
) -> Seq<GeneSummary>
    decreases genes.len(),
{
    if genes.len() == 0 || coords.len() != genes.len() {
        Seq::empty()
    } else {
        let prev = gene_sets_spec(genes.drop_last(), coords.drop_last(), probes, all_inside);
        match coords.last() {
            Some(c) => {
                let kept = probes.filter(|p: ProbeView| region_keeps(p.locations, c.0, c.1, all_inside));
                if kept.len() > 0 {
                    prev.push((genes.last()@, c.0, c.1, c.2@, kept))
                } else {
                    prev
                }
            },
            None => prev,
        }
    }
}

fn copy_probes(v: &Vec<Probes>) -> (r: Vec<Probes>)
    ensures
        probe_views(r@) == probe_views(v@),
{
    let mut r: Vec<Probes> = Vec::new();
    let mut i: usize = 0;
    while i < v.len()
        invariant
            i <= v@.len(),
            probe_views(r@) == probe_views(v@).take(i as int),
        decreases v@.len() - i,
    {
        let ghost r0 = r@;
        r.push(v[i].duplicate());
        assert(probe_views(r@) =~= probe_views(r0).push(v@[i as int]@));
        assert(probe_views(v@).take(i + 1) =~= probe_views(v@).take(i as int).push(v@[i as int]@));
        i = i + 1;
    }
    assert(probe_views(v@).take(v@.len() as int) =~= probe_views(v@));
    r
}

/// For each gene that its annotation lookup found (`coords[i]`), the probes
/// of `unfiltered_kmers` that the gene's region keeps; genes left with no
/// probe are dropped.
pub fn generate_gene_kmers(
    genes: &Vec<String>,
    coords: &Vec<Option<GeneCoords>>,
    unfiltered_kmers: &Vec<Probes>,
    all_inside: bool,
) -> (r: Vec<GeneKmers>)
    requires
        coords@.len() == genes@.len(),
    ensures
        summaries(r@) == gene_sets_spec(genes@, coords@, probe_views(unfiltered_kmers@), all_inside),
        forall|i: int| 0 <= i < r@.len() ==> (#[trigger] r@[i]).kmer_hits@.len() == 0,
{
    let ghost pv = probe_views(unfiltered_kmers@);
    let mut r: Vec<GeneKmers> = Vec::new();
    let mut i: usize = 0;
    while i < genes.len()
        invariant
            i <= genes@.len() == coords@.len(),
            pv == probe_views(unfiltered_kmers@),
            summaries(r@) == gene_sets_spec(genes@.take(i as int), coords@.take(i as int), pv, all_inside),
            forall|j: int| 0 <= j < r@.len() ==> (#[trigger] r@[j]).kmer_hits@.len() == 0,
        decreases genes@.len() - i,
    {
        let ghost g1 = genes@.take(i + 1);
        let ghost c1 = coords@.take(i + 1);
        assert(g1.drop_last() =~= genes@.take(i as int));
        assert(c1.drop_last() =~= coords@.take(i as int));
        match &coords[i] {
            Some(c) => {
                let kept = filter_hashmap(copy_probes(unfiltered_kmers), c.0, c.1, all_inside);
                if kept.len() > 0 {
                    let ghost r0 = r@;
                    let g = GeneKmers {
                        gene: genes[i].clone(),
                        start: c.0,
                        end: c.1,
                        kmers: kept,
                        strand: c.2.clone(),
                        kmer_hits: Vec::new(),
                    };
                    r.push(g);
                    assert(summaries(r@) =~= summaries(r0).push(g.summary()));
                }
            },
            None => {},
        }
        i = i + 1;
    }
    assert(genes@.take(genes@.len() as int) =~= genes@);
    assert(coords@.take(coords@.len() as int) =~= coords@);
    r
}

/// Each probe set after the quality filter of `kmer_options`.
pub fn apply_kmer_filters(gene_kmers: Vec<GeneKmers>, kmer_options: &KmerOptions) -> (r: Vec<GeneKmers>)
    ensures
        r@.len() == gene_kmers@.len(),
        forall|i: int|
            0 <= i < r@.len() ==> (#[trigger] r@[i]).is_quality_filtered(
                gene_kmers@[i],
                kmer_options.center_base,
                kmer_options.min_gc,
                kmer_options.max_gc,
                kmer_options.skip_gc,
            ),
{
    let mut r: Vec<GeneKmers> = Vec::new();
    let mut i: usize = 0;
    while i < gene_kmers.len()
        invariant
            i <= gene_kmers@.len(),
            r@.len() == i,
            forall|j: int|
                0 <= j < i ==> (#[trigger] r@[j]).is_quality_filtered(
                    gene_kmers@[j],
                    kmer_options.center_base,
                    kmer_options.min_gc,
                    kmer_options.max_gc,
                    kmer_options.skip_gc,
                ),
        decreases gene_kmers@.len() - i,
    {
        let f = gene_kmers[i].filter_kmers(
            kmer_options.center_base,
            kmer_options.min_gc,
            kmer_options.max_gc,
            kmer_options.skip_gc,
        );
        r.push(f);
        i = i + 1;
    }
    r
}

/// Whether a strand string denotes the reverse strand.
pub open spec fn is_reverse_strand(strand: Seq<char>) -> bool {
    strand.len() == 1 && strand[0] == '-'
}

impl GeneKmers {
    /// The probe set as it is reported: on the reverse strand each k-mer is
    /// replaced by its reverse complement; everything else is kept.
    pub fn oriented_for_report(&self) -> (r: GeneKmers)
        ensures
            r.gene@ == self.gene@,
            r.start == self.start,
            r.end == self.end,
            r.strand@ == self.strand@,
            r.kmer_hits@.len() == 0,
            r.kmers@.len() == self.kmers@.len(),
            forall|i: int| 0 <= i < r.kmers@.len() ==> {
                let p = #[trigger] r.kmers@[i];
                let q = self.kmers@[i];
                &&& p.locations@ == q.locations@
                &&& p.first_half_gc == q.first_half_gc
                &&& p.second_half_gc == q.second_half_gc
                &&& p.longest_run == q.longest_run
                &&& p.junction_base == q.junction_base
                &&& p.kmer@ == if is_reverse_strand(self.strand@) {
                    revcomp_bytes_spec(encode_utf8(q.kmer@))
                } else {
                    q.kmer@
                }
            },
    {
        let reverse = self.strand.unicode_len() == 1 && self.strand.as_str().get_char(0) == '-';
        let mut kmers: Vec<Probes> = Vec::new();
        let mut i: usize = 0;
        while i < self.kmers.len()
            invariant
                i <= self.kmers@.len(),
                kmers@.len() == i,
                reverse == is_reverse_strand(self.strand@),
                forall|j: int| 0 <= j < i ==> {
                    let p = #[trigger] kmers@[j];
                    let q = self.kmers@[j];
                    &&& p.locations@ == q.locations@
                    &&& p.first_half_gc == q.first_half_gc
                    &&& p.second_half_gc == q.second_half_gc
                    &&& p.longest_run == q.longest_run
                    &&& p.junction_base == q.junction_base
                    &&& p.kmer@ == if reverse {
                        revcomp_bytes_spec(encode_utf8(q.kmer@))
                    } else {
                        q.kmer@
                    }
                },
            decreases self.kmers@.len() - i,
        {
            let mut p = self.kmers[i].duplicate();
            if reverse {
                p.kmer = reverse_complement(self.kmers[i].kmer.as_str());
            }
            kmers.push(p);
            i = i + 1;
        }
        GeneKmers {
            gene: self.gene.clone(),
            start: self.start,
            end: self.end,
            kmers,
            strand: self.strand.clone(),
            kmer_hits: Vec::new(),
        }
    }
}

} // verus!
