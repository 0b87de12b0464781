use visiogen::seq::{calculate_gc, gc_content_on_each_half, longest_homopolymer_run, reverse_complement};

#[test]
fn test_reverse_complement() {
    let sequence = "ATCG";
    let result = reverse_complement(sequence);
    assert_eq!(result, "CGAT");

    let sequence = "AAGCTT";
    let result = reverse_complement(sequence);
    assert_eq!(result, "AAGCTT");

    let sequence = "GGCC";
    let result = reverse_complement(sequence);
    assert_eq!(result, "GGCC");
}

#[test]
fn test_calculate_gc() {
    let sequence = "ATGC";
    let result = calculate_gc(sequence);
    assert_eq!(result, 50);

    let sequence = "GGGG";
    let result = calculate_gc(sequence);
    assert_eq!(result, 100);

    let sequence = "ATAT";
    let result = calculate_gc(sequence);
    assert_eq!(result, 0);
}

#[test]
fn test_gc_content_on_each_half() {
    let kmer = "ATGTCAT";
    let result = gc_content_on_each_half(kmer, kmer.len());
    assert_eq!(result, (33, 33));

    let kmer = "GGCCGG";
    let result = gc_content_on_each_half(kmer, kmer.len());
    assert_eq!(result, (100, 100));

    let kmer = "ATATAT";
    let result = gc_content_on_each_half(kmer, kmer.len());
    assert_eq!(result, (0, 0));
}

#[test]
fn reverse_complement_keeps_case_and_iupac_codes() {
    assert_eq!(reverse_complement("NaCgT"), "AcGtN");
    assert_eq!(reverse_complement("GaTtaCA"), "TGtaAtC");
    assert_eq!(reverse_complement("AGCTYRWSKMDVHBN"), "NVDBHKMSWYRAGCT");
    assert_eq!(reverse_complement(""), "");
}

#[test]
fn reverse_complement_twice_gives_back_the_input() {
    for s in ["ACGTTGCA", "AAAAC", "gattaca", "RYKMBDHVN", "A-C.G"] {
        let once = reverse_complement(s);
        assert_eq!(reverse_complement(&once), s);
    }
}

#[test]
fn gc_percentage_rounds_down_and_ignores_other_bases() {
    assert_eq!(calculate_gc("AAAA"), 0);
    assert_eq!(calculate_gc("gcat"), 50);
    assert_eq!(calculate_gc("GAA"), 33);
    assert_eq!(calculate_gc("GGA"), 66);
    assert_eq!(calculate_gc("NNNG"), 25);
    assert_eq!(calculate_gc("C"), 100);
}

#[test]
fn gc_halves_of_an_even_kmer_split_in_the_middle() {
    assert_eq!(gc_content_on_each_half("GGAA", 4), (100, 0));
    assert_eq!(gc_content_on_each_half("AATTGCGC", 8), (0, 100));
    assert_eq!(gc_content_on_each_half("GA", 2), (100, 0));
}

#[test]
fn longest_run_counts_repeated_bases() {
    assert_eq!(longest_homopolymer_run("AAACCG"), 3);
    assert_eq!(longest_homopolymer_run("ACGT"), 1);
    assert_eq!(longest_homopolymer_run("ACGGGGT"), 4);
    assert_eq!(longest_homopolymer_run("TTTTT"), 5);
    assert_eq!(longest_homopolymer_run(""), 1);
}
