use bracken::classify::{convert_line, expand, parse_kmer_line, parse_seqid2taxid_line};
use bracken::taxonomy::NCBITaxonomy;

fn dmp_line(taxid: &str, parent: &str, rank: &str) -> Vec<u8> {
    let mut fields: Vec<String> = vec![taxid.to_string(), parent.to_string(), rank.to_string()];
    for _ in 0..7 {
        fields.push("x".to_string());
    }
    fields.join("\t|\t").into_bytes()
}

fn sample_taxonomy() -> NCBITaxonomy {
    let lines: Vec<Vec<u8>> = vec![
        dmp_line("1", "1", "no rank"),
        dmp_line("2", "1", "superkingdom"),
        dmp_line("10", "2", "species"),
        dmp_line("11", "2", "species"),
    ];
    NCBITaxonomy::load_ncbi_dmp(&lines).expect("load")
}

#[test]
fn kmer_line_parses_seqid_and_pairs() {
    let parsed = parse_kmer_line(b"C\tread1\t562\t150\t10:3 11:2").expect("parse");
    assert_eq!(parsed.0, b"read1".to_vec());
    assert_eq!(parsed.1, vec![(10, 3), (11, 2)]);
}

#[test]
fn kmer_line_with_few_fields_is_skipped() {
    assert!(parse_kmer_line(b"C\tread1\t562").is_none());
}

#[test]
fn malformed_pairs_are_skipped_or_zeroed() {
    let parsed = parse_kmer_line(b"C\tread1\t562\t150\t10:3 nocolon x:y 11:2").expect("parse");
    assert_eq!(parsed.1, vec![(10, 3), (0, 0), (11, 2)]);
}

#[test]
fn long_runs_contribute_directly_and_leave_boundary_labels() {
    // With a window of 3, a run of 5 k-mers gives 3 unambiguous calls
    // and 2 boundary labels; a run of 2 gives labels only.
    let pairs = vec![(10u32, 5usize), (11u32, 2usize)];
    let (direct, labels) = expand(&pairs, 3);
    assert_eq!(direct, vec![(10, 3)]);
    assert_eq!(labels, vec![10, 10, 11, 11]);
}

#[test]
fn window_tie_between_siblings_resolves_to_their_lca() {
    // One window holds one k-mer of each sibling: the scores tie and the
    // call goes to their common parent, taxid 2.
    let taxo = sample_taxonomy();
    let pairs = vec![(10u32, 1usize), (11u32, 1usize)];
    let out = convert_line(b"read1", 10, &pairs, 2, &taxo);
    assert_eq!(out, b"read1\t10\t\t2:1\n".to_vec());
}

#[test]
fn repeated_window_takes_the_cached_classification() {
    // Three identical labels make two identical windows; the second goes
    // through the cache and must classify exactly as a full rescore.
    let taxo = sample_taxonomy();
    let pairs = vec![(10u32, 1usize), (10u32, 1usize), (10u32, 1usize)];
    let out = convert_line(b"r", 7, &pairs, 2, &taxo);
    assert_eq!(out, b"r\t7\t\t10:2\n".to_vec());
}

#[test]
fn ancestor_counts_weight_the_scores() {
    // Window of 3: labels are one parent (2) and two of species 10. The
    // species' score counts its ancestor, so it beats the parent.
    let taxo = sample_taxonomy();
    let pairs = vec![(2u32, 1usize), (10u32, 2usize)];
    let out = convert_line(b"r", 2, &pairs, 3, &taxo);
    assert_eq!(out, b"r\t2\t\t10:1\n".to_vec());
}

#[test]
fn empty_mapping_yields_no_tally() {
    let taxo = sample_taxonomy();
    let pairs: Vec<(u32, usize)> = Vec::new();
    let out = convert_line(b"r", 0, &pairs, 3, &taxo);
    assert_eq!(out, b"r\t0\t\t\n".to_vec());
}

#[test]
fn seqid2taxid_line_parses_first_two_tokens() {
    let (id, taxid) = parse_seqid2taxid_line(b"  seqA \t 562 extra").expect("parse");
    assert_eq!(id, b"seqA".to_vec());
    assert_eq!(taxid, 562);
}

#[test]
fn seqid2taxid_line_without_two_usable_tokens_is_skipped() {
    assert!(parse_seqid2taxid_line(b"").is_none());
    assert!(parse_seqid2taxid_line(b"   ").is_none());
    assert!(parse_seqid2taxid_line(b"onlyid").is_none());
    assert!(parse_seqid2taxid_line(b"seqA notanumber").is_none());
}
