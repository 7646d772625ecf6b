use bracken::kraken::{
    check_and_parse, check_report_first_line, dfs_iterative, finalize_abundance, main_lvl_index,
    parse_kraken_report, read_kmer_distribution, Node, Stats,
};

fn lines(rows: &[&str]) -> Vec<Vec<u8>> {
    rows.iter().map(|r| r.as_bytes().to_vec()).collect()
}

#[test]
fn report_line_parses_into_a_node() {
    let node = Node::from_str(b"80.00\t50\t50\tS\t10\t    Species one").expect("parse");
    assert_eq!(node.taxid, 10);
    assert_eq!(node.all_reads, 50);
    assert_eq!(node.lvl_reads, 50);
    assert_eq!(node.level_id, b"S".to_vec());
    assert_eq!(node.level_num, 2);
    assert_eq!(node.name, b"Species one".to_vec());
    assert!(node.children.is_empty());
    assert!(node.parent.is_none());
}

#[test]
fn short_report_line_is_rejected() {
    assert!(Node::from_str(b"only\tfour\tfields\there").is_err());
    assert!(Node::from_str(b"a\tb\tc\t10\tname").is_err());
}

#[test]
fn blank_rank_code_becomes_dash() {
    let node = Node::from_str(b"10.0\t5\t5\t \t42\t  thing").expect("parse");
    assert_eq!(node.level_id, b"-".to_vec());
}

#[test]
fn requested_level_splits_into_branch_depth() {
    assert_eq!(check_and_parse(b"S").expect("bare"), 0);
    assert_eq!(check_and_parse(b"S2").expect("depth"), 2);
    assert!(check_and_parse(b"").is_err());
    assert!(check_and_parse(b"2S").is_err());
    assert!(check_and_parse(b"Sx").is_err());
}

#[test]
fn rank_order_indexes_shallow_to_deep() {
    assert_eq!(main_lvl_index(b"R"), 0);
    assert_eq!(main_lvl_index(b"D"), 2);
    assert_eq!(main_lvl_index(b"G1"), 7);
    assert_eq!(main_lvl_index(b"S"), 8);
    assert_eq!(main_lvl_index(b"-"), 9);
}

#[test]
fn raw_classifier_and_mpa_reports_are_rejected() {
    assert!(check_report_first_line(b"C\tread1\t562\t150\t...").is_err());
    assert!(check_report_first_line(b"U\tread2\t0\t150").is_err());
    assert!(check_report_first_line(b"d__Bacteria\t4996").is_err());
    assert!(check_report_first_line(b"100.00\t60\t0\tR\t1\troot").is_ok());
}

#[test]
fn three_level_tree_keeps_species_above_threshold() {
    // Root, one domain (taxid 2), one species (taxid 10) with 50 reads:
    // with threshold 10 the species row is kept with 50 assigned reads.
    let report = lines(&[
        "100.00\t60\t0\tR\t1\troot",
        "90.00\t55\t5\tD\t2\t  Bacteria",
        "80.00\t50\t50\tS\t10\t    Species one",
    ]);
    let mut stats = Stats::default();
    parse_kraken_report(&report, b"S", 10, 0, 8, &mut stats).expect("parse");
    assert_eq!(stats.total_reads, 55);
    assert_eq!(stats.n_lvl_total, 1);
    assert_eq!(stats.n_lvl_est, 1);
    assert_eq!(stats.kept_reads, 50);
    let kept = stats.lvl_taxids.get(10).expect("species kept");
    assert_eq!(kept.0, b"Species one".to_vec());
    assert_eq!(kept.1, 50);

    let rows = finalize_abundance(&mut stats).expect("rows");
    assert_eq!(rows.len(), 1);
    assert_eq!(rows[0].taxid, 10);
    assert_eq!(rows[0].kraken_assigned_reads, 50);
    assert_eq!(rows[0].added_reads, 0);
    assert_eq!(rows[0].new_est_reads, 50);
    assert_eq!(rows[0].fraction_100k, 100000);
}

#[test]
fn species_below_threshold_is_dropped() {
    let report = lines(&[
        "100.00\t60\t0\tR\t1\troot",
        "90.00\t55\t5\tD\t2\t  Bacteria",
        "80.00\t5\t5\tS\t10\t    Species one",
    ]);
    let mut stats = Stats::default();
    parse_kraken_report(&report, b"S", 10, 0, 8, &mut stats).expect("parse");
    assert_eq!(stats.n_lvl_del, 1);
    assert_eq!(stats.ignored_reads, 5);
    assert!(stats.lvl_taxids.get(10).is_none());
    assert!(finalize_abundance(&mut stats).is_err());
}

#[test]
fn unclassified_line_only_records_its_count() {
    let report = lines(&[
        "10.00\t7\t7\tU\t0\tunclassified",
        "100.00\t60\t0\tR\t1\troot",
        "80.00\t50\t50\tS\t10\t  Species one",
    ]);
    let mut stats = Stats::default();
    parse_kraken_report(&report, b"S", 10, 0, 8, &mut stats).expect("parse");
    assert_eq!(stats.u_reads, 7);
    assert_eq!(stats.total_reads, 57);
    assert_eq!(stats.nodes.len(), 2);
}

#[test]
fn rank_gap_synthesizes_sub_rank_codes_and_folds_reads() {
    // A genus followed by unranked descendants: the builder synthesizes
    // G1 and G2 and level selection folds their reads into the genus.
    let report = lines(&[
        "100.00\t100\t0\tR\t1\troot",
        "90.00\t100\t10\tG\t22\t  GenusA",
        "80.00\t60\t60\t-\t33\t    SubA",
        "70.00\t20\t20\t-\t44\t      SubB",
    ]);
    let mut stats = Stats::default();
    parse_kraken_report(&report, b"G", 1, 0, 7, &mut stats).expect("parse");
    assert_eq!(stats.nodes[2].level_id, b"G1".to_vec());
    assert_eq!(stats.nodes[3].level_id, b"G2".to_vec());
    let folded_a = stats.map2lvl_taxids.get(33).expect("SubA folded");
    assert_eq!(folded_a.0, 22);
    assert_eq!(folded_a.1, 60);
    let folded_b = stats.map2lvl_taxids.get(44).expect("SubB folded");
    assert_eq!(folded_b.0, 22);
    assert_eq!(folded_b.1, 20);
}

#[test]
fn comment_and_malformed_lines_are_skipped() {
    let report = lines(&[
        "# a comment",
        "% another",
        "",
        "not a report line",
        "100.00\t60\t0\tR\t1\troot",
        "80.00\t50\t50\tS\t10\t  Species one",
    ]);
    let mut stats = Stats::default();
    parse_kraken_report(&report, b"S", 10, 0, 8, &mut stats).expect("parse");
    assert_eq!(stats.nodes.len(), 2);
}

#[test]
fn conservation_of_redistributed_reads() {
    // Two genomes under one ambiguous node, k-mer fractions 0.8 and 0.5
    // (8/10 and 5/10), unique reads 100 and 50: the added reads sum to
    // the node's 30 assigned reads within one per genome.
    let report = lines(&[
        "100.00\t180\t0\tR\t1\troot",
        "90.00\t180\t30\tD\t5\t  Ambiguous",
        "50.00\t100\t100\tS\t10\t    Genome one",
        "25.00\t50\t50\tS\t11\t    Genome two",
    ]);
    let mut stats = Stats::default();
    parse_kraken_report(&report, b"S", 1, 0, 8, &mut stats).expect("parse");

    let distr_lines = lines(&[
        "mapped_taxid\tgenome_taxids:kmers_mapped:total_genome_kmers",
        "5\t10:8:10 11:5:10",
    ]);
    let kmer_distr = read_kmer_distribution(&distr_lines, &stats);
    dfs_iterative(0, &mut stats, b"S", kmer_distr);

    assert_eq!(stats.distributed_reads, 30);
    let g1 = stats.map2lvl_taxids.get(10).expect("genome one");
    let g2 = stats.map2lvl_taxids.get(11).expect("genome two");
    assert_eq!(g1.2, 22);
    assert_eq!(g2.2, 7);
    let total_added = g1.2 + g2.2;
    assert!(total_added <= 30 && 30 - total_added <= 2);
}

#[test]
fn fractions_sum_to_one_within_tolerance() {
    let report = lines(&[
        "100.00\t180\t0\tR\t1\troot",
        "90.00\t180\t30\tD\t5\t  Ambiguous",
        "50.00\t100\t100\tS\t10\t    Genome one",
        "25.00\t50\t50\tS\t11\t    Genome two",
    ]);
    let mut stats = Stats::default();
    parse_kraken_report(&report, b"S", 1, 0, 8, &mut stats).expect("parse");
    let distr_lines = lines(&[
        "mapped_taxid\tgenome_taxids:kmers_mapped:total_genome_kmers",
        "5\t10:8:10 11:5:10",
    ]);
    let kmer_distr = read_kmer_distribution(&distr_lines, &stats);
    dfs_iterative(0, &mut stats, b"S", kmer_distr);
    let rows = finalize_abundance(&mut stats).expect("rows");
    assert_eq!(rows.len(), 2);
    assert_eq!(rows[0].new_est_reads, 122);
    assert_eq!(rows[1].new_est_reads, 57);
    let frac_total: u64 = rows.iter().map(|r| r.fraction_100k).sum();
    let n = rows.len() as u64;
    assert!(frac_total >= 100000 - n && frac_total <= 100000 + n);
    assert_eq!(frac_total, 100000);
}

#[test]
fn reads_not_covered_by_the_distribution_stay_undistributed() {
    let report = lines(&[
        "100.00\t60\t0\tR\t1\troot",
        "90.00\t55\t5\tD\t2\t  Bacteria",
        "80.00\t50\t50\tS\t10\t    Species one",
    ]);
    let mut stats = Stats::default();
    parse_kraken_report(&report, b"S", 10, 0, 8, &mut stats).expect("parse");
    let distr_lines = lines(&["mapped_taxid\tgenome_taxids:kmers_mapped:total_genome_kmers"]);
    let kmer_distr = read_kmer_distribution(&distr_lines, &stats);
    dfs_iterative(0, &mut stats, b"S", kmer_distr);
    assert_eq!(stats.nondistributed_reads, 5);
    assert_eq!(stats.distributed_reads, 0);
}
