use bracken::taxonomy::NCBITaxonomy;

fn dmp_line(taxid: &str, parent: &str, rank: &str) -> Vec<u8> {
    let mut fields: Vec<String> = vec![taxid.to_string(), parent.to_string(), rank.to_string()];
    for _ in 0..7 {
        fields.push("x".to_string());
    }
    fields.join("\t|\t").into_bytes()
}

fn sample_taxonomy() -> NCBITaxonomy {
    let lines: Vec<Vec<u8>> = vec![
        dmp_line("1", "1", "no rank"),
        dmp_line("2", "1", "superkingdom"),
        dmp_line("10", "2", "species"),
        dmp_line("11", "2", "species"),
        dmp_line("20", "1", "phylum"),
        dmp_line("30", "999", "species"),
    ];
    NCBITaxonomy::load_ncbi_dmp(&lines).expect("load")
}

#[test]
fn lca_of_a_taxon_with_itself_is_itself() {
    let t = sample_taxonomy();
    assert_eq!(t.lca(10, 10), 10);
    assert_eq!(t.lca(1, 1), 1);
}

#[test]
fn lca_with_zero_is_the_other_taxon() {
    let t = sample_taxonomy();
    assert_eq!(t.lca(0, 10), 10);
    assert_eq!(t.lca(10, 0), 10);
    assert_eq!(t.lca(0, 0), 0);
}

#[test]
fn lca_is_symmetric() {
    let t = sample_taxonomy();
    assert_eq!(t.lca(10, 11), t.lca(11, 10));
    assert_eq!(t.lca(10, 11), 2);
    assert_eq!(t.lca(10, 20), t.lca(20, 10));
    assert_eq!(t.lca(10, 20), 1);
}

#[test]
fn lca_of_disjoint_root_paths_is_zero() {
    // Taxid 30 hangs from a dangling parent, so its root path never
    // meets the real root's descendants.
    let t = sample_taxonomy();
    assert_eq!(t.lca(30, 10), 0);
    assert_eq!(t.lca(10, 30), 0);
}

#[test]
fn depths_and_paths_follow_parent_links() {
    let t = sample_taxonomy();
    let root = t.get_node(&1).expect("root");
    assert_eq!(root.depth, 1);
    assert!(root.path_to_root.is_empty());
    assert!(root.is_root());

    let sk = t.get_node(&2).expect("superkingdom");
    assert_eq!(sk.depth, 2);
    assert_eq!(sk.path_to_root, vec![1]);

    let sp = t.get_node(&10).expect("species");
    assert_eq!(sp.depth, 3);
    assert_eq!(sp.path_to_root, vec![1, 2]);
    assert_eq!(sp.rank, b"species".to_vec());

    let parent = t.get_parent(&10).expect("parent of species");
    assert_eq!(parent.taxid, 2);
}

#[test]
fn dmp_line_with_too_few_fields_is_fatal() {
    let lines: Vec<Vec<u8>> = vec![b"1\t|\t1\t|\tno rank".to_vec()];
    assert!(NCBITaxonomy::load_ncbi_dmp(&lines).is_err());
}

#[test]
fn dmp_line_with_non_numeric_taxid_is_fatal() {
    let lines: Vec<Vec<u8>> = vec![dmp_line("abc", "1", "no rank")];
    assert!(NCBITaxonomy::load_ncbi_dmp(&lines).is_err());
}

#[test]
fn non_root_node_naming_itself_as_parent_is_fatal() {
    let lines: Vec<Vec<u8>> = vec![dmp_line("1", "1", "no rank"), dmp_line("7", "7", "genus")];
    let err = NCBITaxonomy::load_ncbi_dmp(&lines);
    assert!(err.is_err());
}

#[test]
fn unknown_taxid_resolves_to_no_node() {
    let t = sample_taxonomy();
    assert!(t.get_node(&12345).is_none());
}

#[test]
fn snapshot_round_trip_reproduces_the_taxonomy() {
    // Dump -> in-memory tree -> snapshot -> reload: identical node set,
    // depths, root paths and id maps.
    let t = sample_taxonomy();
    let snapshot = t.save_to_snapshot();
    let r = NCBITaxonomy::load_snapshot(&snapshot).expect("reload");
    assert_eq!(r.nodes.len(), t.nodes.len());
    for (a, b) in t.nodes.iter().zip(r.nodes.iter()) {
        assert_eq!(a.taxid, b.taxid);
        assert_eq!(a.parent, b.parent);
        assert_eq!(a.rank, b.rank);
        assert_eq!(a.depth, b.depth);
        assert_eq!(a.path_to_root, b.path_to_root);
    }
    for taxid in [1u32, 2, 10, 11, 20, 30] {
        let a = t.get_node(&taxid).expect("original");
        let b = r.get_node(&taxid).expect("reloaded");
        assert_eq!(a.taxid, b.taxid);
        assert_eq!(a.depth, b.depth);
    }
    assert_eq!(r.lca(10, 11), 2);
}

#[test]
fn empty_snapshot_is_an_empty_taxonomy() {
    let r = NCBITaxonomy::load_snapshot(b"").expect("empty");
    assert!(r.nodes.is_empty());
}

#[test]
fn malformed_snapshot_is_rejected() {
    assert!(NCBITaxonomy::load_snapshot(b"not a snapshot line").is_err());
    assert!(NCBITaxonomy::load_snapshot(b"1\tx\t1\t\tno rank").is_err());
}

#[test]
fn snapshot_round_trip_keeps_a_rank_with_raw_tabs_and_backslashes() {
    // A dump field can hold an interior tab or backslash; the snapshot
    // escapes the rank, so reload reproduces it byte for byte.
    let lines: Vec<Vec<u8>> = vec![dmp_line("1", "1", "no rank"), dmp_line("2", "1", "odd\trank\\x")];
    let t = NCBITaxonomy::load_ncbi_dmp(&lines).expect("load");
    assert_eq!(t.get_node(&2).expect("node").rank, b"odd\trank\\x".to_vec());
    let snapshot = t.save_to_snapshot();
    let r = NCBITaxonomy::load_snapshot(&snapshot).expect("reload");
    assert_eq!(r.nodes.len(), t.nodes.len());
    for (a, b) in t.nodes.iter().zip(r.nodes.iter()) {
        assert_eq!(a.rank, b.rank);
        assert_eq!(a.taxid, b.taxid);
        assert_eq!(a.parent, b.parent);
        assert_eq!(a.depth, b.depth);
        assert_eq!(a.path_to_root, b.path_to_root);
    }
}
