use visiogen::annotation::{coords_for_gene, AnnotationRecord};
use visiogen::cli::{required_off_target_directory, Args, BuildArgs, Commands, KmerOptions};
use visiogen::error::VisiogenError;
use visiogen::offtarget::{aggregate_hits, collect_query_kmers, retain_off_target};
use visiogen::probes::{GeneKmers, Probes};

fn set_of(gene: &str, kmers: &[&str]) -> GeneKmers {
    GeneKmers {
        gene: gene.to_string(),
        start: 1,
        end: 100,
        kmers: kmers.iter().map(|k| Probes::new(k.to_string(), vec![1])).collect(),
        strand: "+".to_string(),
        kmer_hits: Vec::new(),
    }
}

fn entry(kmer: &str, shards: &[&str]) -> (String, Vec<String>) {
    (kmer.to_string(), shards.iter().map(|s| s.to_string()).collect())
}

#[test]
fn a_set_without_hits_always_survives() {
    for max_hits in [0, 1, 5] {
        let sets = vec![set_of("g", &["AAAA", "CCCC"])];
        let table = vec![entry("AAAA", &[]), entry("TTTT", &["s1", "s2"])];
        let kept = retain_off_target(sets, &table, max_hits);
        assert_eq!(kept.len(), 1);
        assert!(kept[0].kmer_hits.is_empty());
    }
}

#[test]
fn one_clean_kmer_keeps_a_set() {
    let max_hits = 1;
    let sets = vec![set_of("g", &["AAAA", "CCCC"])];
    let table = vec![entry("AAAA", &["s1", "s2"]), entry("CCCC", &[])];
    let kept = retain_off_target(sets, &table, max_hits);
    assert_eq!(kept.len(), 1);
    assert_eq!(kept[0].kmer_hits, vec![entry("AAAA", &["s1", "s2"])]);
}

#[test]
fn a_set_whose_kmers_all_exceed_the_limit_is_dropped() {
    let sets = vec![set_of("g1", &["GGGG"]), set_of("g2", &["TTTT"])];
    let table = vec![entry("GGGG", &["s1", "s2", "s3"]), entry("TTTT", &["s1", "s2"])];
    let kept = retain_off_target(sets, &table, 2);
    assert_eq!(kept.len(), 1);
    assert_eq!(kept[0].gene, "g2");
    assert_eq!(kept[0].kmer_hits, vec![entry("TTTT", &["s1", "s2"])]);
}

#[test]
fn a_set_without_kmers_does_not_survive() {
    let kept = retain_off_target(vec![set_of("g", &[])], &Vec::new(), 5);
    assert!(kept.is_empty());
}

#[test]
fn shard_answers_merge_in_shard_order() {
    let kmers = vec!["AAAA".to_string(), "CCCC".to_string(), "GGGG".to_string()];
    let shards = vec![
        ("b.cbl".to_string(), vec![true, false, true]),
        ("a.cbl".to_string(), vec![true, false, false]),
        ("short.cbl".to_string(), vec![false]),
    ];
    let table = aggregate_hits(&kmers, &shards);
    assert_eq!(
        table,
        vec![
            entry("AAAA", &["b.cbl", "a.cbl"]),
            entry("CCCC", &[]),
            entry("GGGG", &["b.cbl"]),
        ]
    );
}

#[test]
fn query_kmers_are_distinct() {
    let sets = vec![set_of("g1", &["AAAA", "CCCC", "AAAA"]), set_of("g2", &["CCCC", "GGGG"])];
    let kmers = collect_query_kmers(&sets);
    assert_eq!(kmers, vec!["AAAA".to_string(), "CCCC".to_string(), "GGGG".to_string()]);
}

fn args_with(dir: Option<&str>) -> Args {
    Args {
        threads: 0,
        off_target_directory: dir.map(|d| d.to_string()),
        max_hits: 5,
        recursive: false,
        kmer_options: KmerOptions {
            kmer_size: 50,
            center_base: None,
            min_gc: 44,
            max_gc: 72,
            allow_outside: true,
            skip_gc: false,
        },
        command: Commands::Build(BuildArgs { canonical: true }),
    }
}

#[test]
fn building_needs_an_off_target_directory() {
    match required_off_target_directory(&args_with(None)) {
        Err(VisiogenError::MissingArgument(_)) => {}
        _ => panic!("expected a missing argument"),
    }
    match required_off_target_directory(&args_with(Some("refs"))) {
        Ok(d) => assert_eq!(d, "refs"),
        _ => panic!("expected the directory"),
    }
}

#[test]
fn gene_lookup_takes_the_first_named_record() {
    let rec = |name: Option<&str>, start: u64, end: u64, strand: &str| AnnotationRecord {
        name: name.map(|n| n.to_string()),
        start,
        end,
        strand: strand.to_string(),
    };
    let records = vec![
        rec(None, 1, 5, "+"),
        rec(Some("abc"), 10, 20, "-"),
        rec(Some("abc"), 30, 40, "+"),
    ];
    assert_eq!(coords_for_gene(&records, &"abc".to_string()), Some((10, 20, "-".to_string())));
    assert_eq!(coords_for_gene(&records, &"xyz".to_string()), None);
}
