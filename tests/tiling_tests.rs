use visiogen::kmer::tile_kmers;
use visiogen::probes::Probes;

fn sorted(mut t: Vec<(String, Vec<usize>)>) -> Vec<(String, Vec<usize>)> {
    t.sort();
    t
}

#[test]
fn tiling_groups_repeated_kmers() {
    let t = sorted(tile_kmers("ACGTACGT", 3, 0));
    let expected = vec![
        ("ACG".to_string(), vec![0, 4]),
        ("CGT".to_string(), vec![1, 5]),
        ("GTA".to_string(), vec![2]),
        ("TAC".to_string(), vec![3]),
    ];
    assert_eq!(t, expected);
}

#[test]
fn tiling_yields_one_pair_per_window() {
    for (s, k) in [("ACGTACGT", 3), ("AAAAAAAA", 2), ("ACGTTGCAAT", 10), ("ACGTTGCAAT", 1), ("GATTACA", 4)] {
        let t = tile_kmers(s, k, 0);
        let pairs: usize = t.iter().map(|e| e.1.len()).sum();
        assert_eq!(pairs, s.len() - k + 1);
        for (kmer, positions) in &t {
            assert_eq!(kmer.len(), k);
            for &p in positions {
                assert_eq!(&s[p..p + k], kmer.as_str());
            }
        }
    }
}

#[test]
fn tiling_a_short_sequence_gives_nothing() {
    assert!(tile_kmers("ACG", 4, 0).is_empty());
    assert!(tile_kmers("", 1, 7).is_empty());
}

#[test]
fn tiling_shifts_offsets() {
    let t = sorted(tile_kmers("AAAT", 2, 10));
    assert_eq!(t, vec![("AA".to_string(), vec![10, 11]), ("AT".to_string(), vec![12])]);
}

#[test]
fn generated_probes_are_scored() {
    let probes = Probes::generate_probes("GGGGAAAA", 8, 0);
    assert_eq!(probes.len(), 1);
    let p = &probes[0];
    assert_eq!(p.kmer, "GGGGAAAA");
    assert_eq!(p.locations, vec![0]);
    assert_eq!(p.first_half_gc, 100);
    assert_eq!(p.second_half_gc, 0);
    assert_eq!(p.longest_run, 4);
    assert_eq!(p.junction_base, 'G');
    assert_eq!(p.complexity(), (4, 8));
}

#[test]
fn generated_probes_cover_every_window() {
    let probes = Probes::generate_probes("ACGTACGT", 3, 5);
    let mut got: Vec<(String, Vec<usize>)> = probes.iter().map(|p| (p.kmer.clone(), p.locations.clone())).collect();
    got.sort();
    assert_eq!(
        got,
        vec![
            ("ACG".to_string(), vec![5, 9]),
            ("CGT".to_string(), vec![6, 10]),
            ("GTA".to_string(), vec![7]),
            ("TAC".to_string(), vec![8]),
        ]
    );
    let acg = probes.iter().find(|p| p.kmer == "ACG").unwrap();
    assert_eq!(acg.junction_base, 'A');
    assert_eq!((acg.first_half_gc, acg.second_half_gc), (0, 100));
}

#[test]
fn probe_new_scores_its_kmer() {
    let p = Probes::new("GGCCAATT".to_string(), vec![3]);
    assert_eq!((p.first_half_gc, p.second_half_gc), (100, 0));
    assert_eq!(p.junction_base, 'C');
    assert_eq!(p.longest_run, 2);
    assert_eq!(p.complexity(), (6, 8));
}

#[test]
fn probes_of_a_short_sequence_are_none() {
    assert!(Probes::generate_probes("ACG", 4, 0).is_empty());
    assert!(Probes::generate_probes("", 2, 0).is_empty());
}

#[test]
fn probes_cover_every_window_once() {
    let s = "ACGTTTACGTAAC";
    let k = 4;
    let probes = Probes::generate_probes(s, k, 0);
    let pairs: usize = probes.iter().map(|p| p.locations.len()).sum();
    assert_eq!(pairs, s.len() - k + 1);
    for p in &probes {
        assert_eq!(p.kmer.len(), k);
        assert!(!p.locations.is_empty());
    }
}
