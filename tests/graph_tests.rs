use visiogen::graph::{parse_line, Gfa, GfaLine};

fn lines(ls: &[&str]) -> Vec<String> {
    ls.iter().map(|l| l.to_string()).collect()
}

fn two_path_graph() -> Gfa {
    Gfa::from_lines(&lines(&[
        "H\tVN:Z:1.0",
        "S\tA\tACGTACGT",
        "S\tB\tTTTT",
        "S\tC\tGGGCCC",
        "S\tD\tAAAA",
        "# a comment",
        "",
        "L\tA\t+\tB\t+\t0M",
        "P\thap1\tA+,B+,C+\t*",
        "P\thap2\tA+,D+,C+\t*",
    ]))
}

#[test]
fn parse_line_reads_each_record_kind() {
    match parse_line("S\ts1\tACGT\tSO:i:0") {
        Some(GfaLine::Segment(s)) => {
            assert_eq!(s.name, "s1");
            assert_eq!(s.sequence, "ACGT");
        }
        _ => panic!("expected a segment"),
    }
    match parse_line("L\ts1\t+\ts2\t-\t4M") {
        Some(GfaLine::Link(l)) => {
            assert_eq!(l.from, "s1");
            assert_eq!(l.from_orient, '+');
            assert_eq!(l.to, "s2");
            assert_eq!(l.to_orient, '-');
            assert_eq!(l.overlap, "4M");
        }
        _ => panic!("expected a link"),
    }
    match parse_line("P\thap\ts1+,s22-\t4M,*") {
        Some(GfaLine::Path(p)) => {
            assert_eq!(p.name, "hap");
            assert_eq!(p.segments, vec![("s1".to_string(), '+'), ("s22".to_string(), '-')]);
            assert_eq!(p.overlaps, vec!["4M".to_string(), "*".to_string()]);
        }
        _ => panic!("expected a path"),
    }
    match parse_line("W\tx") {
        Some(GfaLine::Other(o)) => assert_eq!(o, "W\tx"),
        _ => panic!("expected another record"),
    }
}

#[test]
fn parse_line_rejects_incomplete_records() {
    assert!(parse_line("S\ts1").is_none());
    assert!(parse_line("L\ts1\t\ts2\t-\t0M").is_none());
    assert!(parse_line("P\thap\ts1+").is_none());
    assert!(parse_line("P\thap\ts1+,,s2+\t*").is_none());
}

#[test]
fn from_lines_keeps_records_in_order() {
    let g = two_path_graph();
    let names: Vec<&str> = g.segments.iter().map(|s| s.name.as_str()).collect();
    assert_eq!(names, vec!["A", "B", "C", "D"]);
    assert_eq!(g.links.len(), 1);
    assert_eq!(g.paths.len(), 2);
    assert_eq!(g.paths[1].name, "hap2");
}

#[test]
fn core_segments_are_unique_in_every_path() {
    let g = two_path_graph();
    let mut core = g.core_segments();
    core.sort();
    assert_eq!(core, vec!["A".to_string(), "C".to_string()]);
}

#[test]
fn repeated_segments_are_not_core() {
    let g = Gfa::from_lines(&lines(&[
        "S\tA\tAC",
        "S\tB\tGT",
        "P\thap1\tA+,B+,A-\t*",
        "P\thap2\tA+,B+\t*",
    ]));
    assert_eq!(g.core_segments(), vec!["B".to_string()]);
}

#[test]
fn a_graph_without_paths_has_no_core() {
    let g = Gfa::from_lines(&lines(&["S\tA\tACGT"]));
    assert!(g.core_segments().is_empty());
    assert!(g.core_segment_structs().is_empty());
}

#[test]
fn core_segment_structs_follow_graph_order() {
    let g = two_path_graph();
    let segs = g.core_segment_structs();
    let names: Vec<&str> = segs.iter().map(|s| s.name.as_str()).collect();
    assert_eq!(names, vec!["A", "C"]);
    assert_eq!(segs[1].sequence, "GGGCCC");
}

#[test]
fn segment_probe_sets_tile_core_segments() {
    let g = two_path_graph();
    let sets = g.segment_probe_sets(3);
    assert_eq!(sets.len(), 2);
    assert_eq!(sets[0].gene, "A");
    assert_eq!((sets[0].start, sets[0].end), (1, 9));
    assert_eq!(sets[0].strand, "+");
    assert_eq!(sets[0].kmers.len(), 4);
    let acg = sets[0].kmers.iter().find(|p| p.kmer == "ACG").unwrap();
    assert_eq!(acg.locations, vec![0, 4]);
    assert_eq!(sets[1].gene, "C");
    assert_eq!(sets[1].kmers.len(), 4);
}

#[test]
fn segment_tilings_use_one_based_offsets() {
    let g = two_path_graph();
    let t = g.segment_tilings(3);
    assert_eq!(t.len(), 2);
    let mut first = t[0].kmers.clone();
    first.sort();
    assert_eq!(first[0], ("ACG".to_string(), vec![1, 5]));
    assert_eq!(t[1].end, 7);
}

#[test]
fn segment_offset_tag_is_read() {
    match parse_line("S\ts1\tACGT\tLN:i:4\tSO:i:1200\tSO:i:7") {
        Some(GfaLine::Segment(s)) => assert_eq!(s.offset, 1200),
        _ => panic!("expected a segment"),
    }
    match parse_line("S\ts1\tACGT\tSO:i:12x") {
        Some(GfaLine::Segment(s)) => assert_eq!(s.offset, 0),
        _ => panic!("expected a segment"),
    }
    match parse_line("S\ts1\tACGT") {
        Some(GfaLine::Segment(s)) => assert_eq!(s.offset, 0),
        _ => panic!("expected a segment"),
    }
    assert!(parse_line("S\ts1\tACGT\tSO:i:99999999999999999999999").is_none());
}

#[test]
fn segment_probes_are_located_from_the_segment_offset() {
    let g = Gfa::from_lines(&lines(&[
        "S\tA\tACGTACGT\tSO:i:100",
        "P\thap1\tA+\t*",
    ]));
    let sets = g.segment_probe_sets(3);
    assert_eq!(sets.len(), 1);
    let acg = sets[0].kmers.iter().find(|p| p.kmer == "ACG").unwrap();
    assert_eq!(acg.locations, vec![100, 104]);
    let t = g.segment_tilings(3);
    let mut first = t[0].kmers.clone();
    first.sort();
    assert_eq!(first[0], ("ACG".to_string(), vec![101, 105]));
}

#[test]
fn link_overlap_is_optional() {
    match parse_line("L\tA\t+\tB\t-") {
        Some(GfaLine::Link(l)) => {
            assert_eq!(l.from, "A");
            assert_eq!(l.from_orient, '+');
            assert_eq!(l.to, "B");
            assert_eq!(l.to_orient, '-');
            assert_eq!(l.overlap, "");
        }
        _ => panic!("expected a link"),
    }
    assert!(parse_line("L\tA\t+\tB").is_none());
}
