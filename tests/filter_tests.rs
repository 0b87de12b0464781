use visiogen::cli::KmerOptions;
use visiogen::probes::{apply_kmer_filters, filter_hashmap, generate_gene_kmers, GeneKmers, Probes};

fn set_of(gene: &str, strand: &str, kmers: Vec<Probes>) -> GeneKmers {
    GeneKmers {
        gene: gene.to_string(),
        start: 1,
        end: 100,
        kmers,
        strand: strand.to_string(),
        kmer_hits: Vec::new(),
    }
}

#[test]
fn strict_region_needs_every_location_inside() {
    let probes = vec![Probes::new("ACGT".to_string(), vec![5, 120])];
    let kept = filter_hashmap(probes, 0, 100, true);
    assert!(kept.is_empty());
}

#[test]
fn lenient_region_needs_one_location_inside() {
    let probes = vec![Probes::new("ACGT".to_string(), vec![5, 120])];
    let kept = filter_hashmap(probes, 0, 100, false);
    assert_eq!(kept.len(), 1);
    assert_eq!(kept[0].locations, vec![5, 120]);
}

#[test]
fn region_bounds_are_inclusive() {
    let probes = vec![
        Probes::new("AAAA".to_string(), vec![10, 20]),
        Probes::new("CCCC".to_string(), vec![9]),
        Probes::new("GGGG".to_string(), vec![21]),
    ];
    let kept = filter_hashmap(probes, 10, 20, true);
    let kmers: Vec<&str> = kept.iter().map(|p| p.kmer.as_str()).collect();
    assert_eq!(kmers, vec!["AAAA"]);
}

#[test]
fn quality_filter_checks_center_base_and_gc() {
    let g = set_of("g", "+", vec![
        Probes::new("GGCCAATT".to_string(), vec![1]),
        Probes::new("GCGCGCGC".to_string(), vec![2]),
    ]);
    let by_center = g.filter_kmers(Some('C'), 0, 100, false);
    let kmers: Vec<&str> = by_center.kmers.iter().map(|p| p.kmer.as_str()).collect();
    assert_eq!(kmers, vec!["GGCCAATT", "GCGCGCGC"]);

    let by_g = g.filter_kmers(Some('G'), 0, 100, false);
    assert!(by_g.kmers.is_empty());

    let by_gc = g.filter_kmers(None, 44, 100, false);
    let kmers: Vec<&str> = by_gc.kmers.iter().map(|p| p.kmer.as_str()).collect();
    assert_eq!(kmers, vec!["GCGCGCGC"]);

    let skipped = g.filter_kmers(None, 44, 72, true);
    assert_eq!(skipped.kmers.len(), 2);
    assert_eq!(skipped.gene, "g");
    assert_eq!((skipped.start, skipped.end), (1, 100));
}

#[test]
fn gc_bounds_are_inclusive() {
    let g = set_of("g", "+", vec![Probes::new("GAGAGCGC".to_string(), vec![1])]);
    assert_eq!(g.filter_kmers(None, 50, 100, false).kmers.len(), 1);
    assert_eq!(g.filter_kmers(None, 51, 100, false).kmers.len(), 0);
    assert_eq!(g.filter_kmers(None, 0, 99, false).kmers.len(), 0);
}

#[test]
fn options_apply_to_every_set() {
    let sets = vec![
        set_of("a", "+", vec![Probes::new("GCGCGCGC".to_string(), vec![1])]),
        set_of("b", "+", vec![Probes::new("AAAAAAAA".to_string(), vec![1])]),
    ];
    let opts = KmerOptions {
        kmer_size: 8,
        center_base: None,
        min_gc: 44,
        max_gc: 100,
        allow_outside: true,
        skip_gc: false,
    };
    let out = apply_kmer_filters(sets, &opts);
    assert_eq!(out.len(), 2);
    assert_eq!(out[0].kmers.len(), 1);
    assert_eq!(out[1].kmers.len(), 0);
    assert_eq!(out[1].gene, "b");
}

#[test]
fn gene_sets_drop_missing_and_empty_genes() {
    let probes = vec![
        Probes::new("AAAA".to_string(), vec![5]),
        Probes::new("CCCC".to_string(), vec![50, 500]),
    ];
    let genes = vec!["g1".to_string(), "g2".to_string(), "g3".to_string()];
    let coords = vec![
        Some((1, 60, "+".to_string())),
        None,
        Some((1000, 2000, "-".to_string())),
    ];
    let strict = generate_gene_kmers(&genes, &coords, &probes, true);
    assert_eq!(strict.len(), 1);
    assert_eq!(strict[0].gene, "g1");
    assert_eq!(strict[0].kmers.len(), 1);
    assert_eq!(strict[0].kmers[0].kmer, "AAAA");

    let lenient = generate_gene_kmers(&genes, &coords, &probes, false);
    assert_eq!(lenient.len(), 1);
    assert_eq!(lenient[0].kmers.len(), 2);
    assert_eq!(lenient[0].strand, "+");
    assert_eq!((lenient[0].start, lenient[0].end), (1, 60));
}

#[test]
fn reverse_strand_sets_are_reported_reverse_complemented() {
    let minus = set_of("g", "-", vec![Probes::new("AACG".to_string(), vec![7])]);
    let out = minus.oriented_for_report();
    assert_eq!(out.kmers[0].kmer, "CGTT");
    assert_eq!(out.kmers[0].locations, vec![7]);

    let plus = set_of("g", "+", vec![Probes::new("AACG".to_string(), vec![7])]);
    assert_eq!(plus.oriented_for_report().kmers[0].kmer, "AACG");
}
