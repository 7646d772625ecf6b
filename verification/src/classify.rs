//! The sliding-window majority-vote read classifier: expands per-genome
//! k-mer runs into window labels, scores each window with
//! ancestor-weighted counts, breaks ties through the lowest common
//! ancestor, and tallies one call per window. The per-read tally lives in
//! a `dashmap::DashMap`, as the surrounding parallel driver shares it.

use vstd::prelude::*;
use crate::kraken::{find_idx, lemma_find_idx_bounds, sat_add, sat_add_usize};
use crate::taxonomy::NCBITaxonomy;
use crate::text::{split_pat, split_spec, trim, trim_spec};
use crate::digits::{dec_of, is_numeral, numeral_value, parse_u32, parse_usize, u32_to_dec,
    usize_to_dec};

verus! {

/// Window label counts: an insertion-ordered association list. Counts
/// may reach zero and stay listed, so that refilling a label keeps its
/// place and window replays are exact.
pub struct CountMap {
    entries: Vec<(u32, usize)>,
}

/// Count filed for `x`, or zero.
pub open spec fn count_of(s: Seq<(u32, usize)>, x: u32) -> nat {
    let i = find_idx(s, x);
    if i >= 0 {
        s[i].1 as nat
    } else {
        0
    }
}

/// The list after one arrival of `x`.
pub open spec fn inc_spec(s: Seq<(u32, usize)>, x: u32) -> Seq<(u32, usize)> {
    let i = find_idx(s, x);
    if i >= 0 {
        s.update(i, (x, sat_add(s[i].1 as nat, 1) as usize))
    } else {
        s.push((x, 1))
    }
}

/// The list after one eviction of `x`: its count drops by one, stopping
/// at zero; an unlisted label changes nothing.
pub open spec fn dec_spec(s: Seq<(u32, usize)>, x: u32) -> Seq<(u32, usize)> {
    let i = find_idx(s, x);
    if i >= 0 {
        s.update(i, (x, if s[i].1 > 0 {
            (s[i].1 - 1) as usize
        } else {
            0
        }))
    } else {
        s
    }
}

impl CountMap {
    pub closed spec fn view_counts(self) -> Seq<(u32, usize)> {
        self.entries@
    }

    pub fn new() -> (r: Self)
        ensures
            r.view_counts() == Seq::<(u32, usize)>::empty(),
    {
        CountMap { entries: Vec::new() }
    }

    fn find(&self, k: u32) -> (r: Option<usize>)
        ensures
            match r {
                Some(i) => i == find_idx(self.view_counts(), k),
                None => find_idx(self.view_counts(), k) == -1,
            },
    {
        let n = self.entries.len();
        let mut i: usize = 0;
        while i < n
            invariant
                i <= n,
                n == self.entries@.len(),
                forall|j: int| 0 <= j < i ==> (#[trigger] self.entries@[j]).0 != k,
            decreases n - i,
        {
            if self.entries[i].0 == k {
                proof {
                    crate::kraken::lemma_find_idx_at(self.entries@, k, i as int);
                }
                return Some(i);
            }
            i += 1;
        }
        proof {
            crate::kraken::lemma_find_idx_at(self.entries@, k, n as int);
        }
        None
    }

    pub fn len(&self) -> (r: usize)
        ensures
            r == self.view_counts().len(),
    {
        self.entries.len()
    }

    pub fn entry_at(&self, i: usize) -> (r: (u32, usize))
        requires
            i < self.view_counts().len(),
        ensures
            r == self.view_counts()[i as int],
    {
        self.entries[i]
    }

    pub fn count(&self, k: u32) -> (r: usize)
        ensures
            r == count_of(self.view_counts(), k),
    {
        match self.find(k) {
            Some(i) => {
                proof {
                    lemma_find_idx_bounds(self.entries@, k);
                }
                self.entries[i].1
            },
            None => 0,
        }
    }

    pub fn inc(&mut self, k: u32)
        ensures
            final(self).view_counts() == inc_spec(old(self).view_counts(), k),
    {
        match self.find(k) {
            Some(i) => {
                proof {
                    lemma_find_idx_bounds(self.entries@, k);
                }
                let c = self.entries[i].1;
                self.entries[i] = (k, sat_add_usize(c, 1));
            },
            None => {
                self.entries.push((k, 1));
            },
        }
    }

    pub fn dec(&mut self, k: u32)
        ensures
            final(self).view_counts() == dec_spec(old(self).view_counts(), k),
    {
        match self.find(k) {
            Some(i) => {
                proof {
                    lemma_find_idx_bounds(self.entries@, k);
                }
                let c = self.entries[i].1;
                self.entries[i] = (k, if c > 0 { c - 1 } else { 0 });
            },
            None => {},
        }
    }
}

/// Refilling the label just evicted restores the window exactly,
/// provided the label was still counted.
pub proof fn lemma_evict_refill(s: Seq<(u32, usize)>, x: u32)
    requires
        count_of(s, x) >= 1,
    ensures
        inc_spec(dec_spec(s, x), x) == s,
{
    lemma_find_idx_bounds(s, x);
    let i = find_idx(s, x);
    let d = dec_spec(s, x);
    crate::kraken::lemma_find_idx_same_keys(s, d, x);
    assert(inc_spec(d, x) =~= s);
}

/// Score of label `x` in a window: its own count plus the counts of its
/// ancestors present, summed saturating.
pub open spec fn path_score(counts: Seq<(u32, usize)>, path: Seq<u32>) -> nat
    decreases path.len(),
{
    if path.len() == 0 {
        0
    } else {
        sat_add(path_score(counts, path.drop_last()), count_of(counts, path.last()))
    }
}

pub open spec fn score_spec(taxo: NCBITaxonomy, counts: Seq<(u32, usize)>, x: u32) -> nat {
    match taxo.spec_get_node(x) {
        Some(nd) => sat_add(path_score(counts, nd.path_to_root@), count_of(counts, x)),
        None => count_of(counts, x),
    }
}

/// The classification fold: labels are scored in window order; a higher
/// score takes the lead, and a tie replaces the leader with the lowest
/// common ancestor of leader and challenger. Zero labels and emptied
/// counts are passed over.
pub open spec fn win_fold(
    taxo: NCBITaxonomy,
    counts: Seq<(u32, usize)>,
    i: int,
    max_score: nat,
    max_taxid: u32,
) -> u32
    decreases counts.len() - i,
{
    if i < 0 || i >= counts.len() {
        max_taxid
    } else {
        let (tx, c) = counts[i];
        if tx == 0 || c == 0 {
            win_fold(taxo, counts, i + 1, max_score, max_taxid)
        } else {
            let s = score_spec(taxo, counts, tx);
            if s > max_score {
                win_fold(taxo, counts, i + 1, s, tx)
            } else if s == max_score && max_taxid != 0 {
                win_fold(taxo, counts, i + 1, max_score, taxo.spec_lca(max_taxid, tx))
            } else {
                win_fold(taxo, counts, i + 1, max_score, max_taxid)
            }
        }
    }
}

/// The window's winning taxid.
pub open spec fn win_spec(taxo: NCBITaxonomy, counts: Seq<(u32, usize)>) -> u32 {
    win_fold(taxo, counts, 0, 0, 0)
}

/// Scores one label.
fn score_exec(taxo: &NCBITaxonomy, counts: &CountMap, x: u32) -> (r: usize)
    ensures
        r == score_spec(*taxo, counts.view_counts(), x),
{
    let own = counts.count(x);
    match taxo.get_node(&x) {
        Some(nd) => {
            let path = &nd.path_to_root;
            let n = path.len();
            let mut acc: usize = 0;
            let mut i: usize = 0;
            while i < n
                invariant
                    i <= n,
                    n == path@.len(),
                    acc == path_score(counts.view_counts(), path@.take(i as int)),
                decreases n - i,
            {
                let c = counts.count(path[i]);
                proof {
                    assert(path@.take(i + 1).drop_last() =~= path@.take(i as int));
                }
                acc = sat_add_usize(acc, c);
                i += 1;
            }
            proof {
                assert(path@.take(n as int) =~= path@);
            }
            sat_add_usize(acc, own)
        },
        None => own,
    }
}

/// Classifies one full window: the label with the highest
/// ancestor-weighted score wins, ties resolving to the lowest common
/// ancestor of the tied labels.
pub fn get_classification(counts: &CountMap, taxo: &NCBITaxonomy) -> (r: u32)
    ensures
        r == win_spec(*taxo, counts.view_counts()),
{
    let n = counts.len();
    let mut max_score: usize = 0;
    let mut max_taxid: u32 = 0;
    let mut i: usize = 0;
    while i < n
        invariant
            i <= n,
            n == counts.view_counts().len(),
            win_fold(*taxo, counts.view_counts(), i as int, max_score as nat, max_taxid)
                == win_spec(*taxo, counts.view_counts()),
        decreases n - i,
    {
        let e = counts.entry_at(i);
        if e.0 != 0 && e.1 != 0 {
            let s = score_exec(taxo, counts, e.0);
            if s > max_score {
                max_score = s;
                max_taxid = e.0;
            } else if s == max_score && max_taxid != 0 {
                max_taxid = taxo.lca(max_taxid, e.0);
            }
        }
        i += 1;
    }
    max_taxid
}

/// A tie between two sibling taxa resolves to their lowest common
/// ancestor: in a window of exactly two distinct, unrelated labels with
/// equal scores, the classification is their LCA.
pub proof fn lemma_tie_resolves_to_lca(taxo: NCBITaxonomy, a: u32, b: u32, ca: usize, cb: usize)
    requires
        a != 0,
        b != 0,
        a != b,
        ca > 0,
        score_spec(taxo, seq![(a, ca), (b, cb)], a) == score_spec(taxo, seq![(a, ca), (b, cb)], b),
        cb > 0,
    ensures
        win_spec(taxo, seq![(a, ca), (b, cb)]) == taxo.spec_lca(a, b),
{
    let counts = seq![(a, ca), (b, cb)];
    let s = score_spec(taxo, counts, a);
    assert(s >= count_of(counts, a));
    assert(find_idx(counts, a) == 0);
    assert(count_of(counts, a) == ca);
    assert(win_fold(taxo, counts, 0, 0, 0) == win_fold(taxo, counts, 1, s, a));
    assert(win_fold(taxo, counts, 1, s, a) == win_fold(taxo, counts, 2, s, taxo.spec_lca(a, b)));
}

/// The window-label state after the first `upto` labels: each label is
/// counted on arrival, and once `n` labels are in hand the oldest is
/// evicted after every classification.
pub open spec fn counts_state(labels: Seq<u32>, n: int, upto: int) -> Seq<(u32, usize)>
    decreases upto,
{
    if upto <= 0 {
        Seq::empty()
    } else {
        let c = inc_spec(counts_state(labels, n, upto - 1), labels[upto - 1]);
        if upto - 1 >= n - 1 {
            dec_spec(c, labels[upto - n])
        } else {
            c
        }
    }
}

/// The winner of the window ending at label `j`.
pub open spec fn winner_at(taxo: NCBITaxonomy, labels: Seq<u32>, n: int, j: int) -> u32 {
    win_spec(taxo, inc_spec(counts_state(labels, n, j), labels[j]))
}

/// Slides a window of `n_kmers` labels over the boundary labels and
/// classifies every full window, reusing the previous call when the
/// arriving label provably restores the previous window. The result
/// equals rescoring every window from scratch.
pub fn classify_windows(labels: &Vec<u32>, n_kmers: usize, taxo: &NCBITaxonomy) -> (winners: Vec<
    u32,
>)
    requires
        n_kmers >= 1,
    ensures
        winners@.len() == if labels@.len() >= n_kmers {
            labels@.len() - n_kmers + 1
        } else {
            0int
        },
        forall|k: int| 0 <= k < winners@.len() ==> #[trigger] winners@[k] == winner_at(
            *taxo,
            labels@,
            n_kmers as int,
            n_kmers - 1 + k,
        ),
{
    let total = labels.len();
    let mut winners: Vec<u32> = Vec::new();
    let mut window = CountMap::new();
    let mut pre_mer: Option<u32> = None;
    let mut pre_taxid: u32 = 0;
    let mut j: usize = 0;
    while j < total
        invariant
            j <= total,
            total == labels@.len(),
            n_kmers >= 1,
            window.view_counts() == counts_state(labels@, n_kmers as int, j as int),
            winners@.len() == if j >= n_kmers {
                j - n_kmers + 1
            } else {
                0int
            },
            forall|k: int| 0 <= k < winners@.len() ==> #[trigger] winners@[k] == winner_at(
                *taxo,
                labels@,
                n_kmers as int,
                n_kmers - 1 + k,
            ),
            j < n_kmers ==> pre_mer is None,
            j >= n_kmers ==> pre_mer == Some(labels@[j - n_kmers]),
            j >= n_kmers ==> pre_taxid == winner_at(*taxo, labels@, n_kmers as int, j - 1),
        decreases total - j,
    {
        let kmer = labels[j];
        window.inc(kmer);
        if j + 1 >= n_kmers {
            let use_cache = match pre_mer {
                Some(p) => p == kmer && window.count(kmer) >= 2,
                None => false,
            };
            let w: u32 = if use_cache {
                proof {
                    let n = n_kmers as int;
                    assert(j >= n_kmers);
                    let prev_cc = inc_spec(counts_state(labels@, n, j - 1), labels@[j - 1]);
                    assert(counts_state(labels@, n, j as int) == dec_spec(
                        prev_cc,
                        labels@[j - n_kmers],
                    ));
                    assert(kmer == labels@[j - n_kmers]);
                    let m = count_of(prev_cc, kmer);
                    lemma_find_idx_bounds(prev_cc, kmer);
                    if m >= 1 {
                        lemma_evict_refill(prev_cc, kmer);
                        assert(window.view_counts() == prev_cc);
                        assert(winner_at(*taxo, labels@, n, j as int) == winner_at(
                            *taxo,
                            labels@,
                            n,
                            j - 1,
                        ));
                    } else {
                        let d = dec_spec(prev_cc, kmer);
                        let cur = window.view_counts();
                        if find_idx(prev_cc, kmer) >= 0 {
                            crate::kraken::lemma_find_idx_same_keys(prev_cc, d, kmer);
                            lemma_find_idx_bounds(d, kmer);
                            crate::kraken::lemma_find_idx_same_keys(d, cur, kmer);
                            lemma_find_idx_bounds(cur, kmer);
                            assert(count_of(cur, kmer) == 1);
                        } else {
                            assert(d == prev_cc);
                            crate::kraken::lemma_find_idx_at(
                                d.push((kmer, 1usize)),
                                kmer,
                                d.len() as int,
                            );
                            assert(cur == d.push((kmer, 1usize)));
                            assert(count_of(cur, kmer) == 1);
                        }
                        assert(false);
                    }
                }
                pre_taxid
            } else {
                get_classification(&window, taxo)
            };
            winners.push(w);
            window.dec(labels[j + 1 - n_kmers]);
            pre_mer = Some(labels[j + 1 - n_kmers]);
            pre_taxid = w;
        }
        j += 1;
    }
    winners
}


/// Boundary window labels produced by the first `upto` k-mer runs: a run
/// of `count` k-mers for one taxid yields `n - 1` labels when it spans a
/// whole window (the rest are unambiguous), else `count` labels.
pub open spec fn labels_of(pairs: Seq<(u32, usize)>, n: int, upto: int) -> Seq<u32>
    decreases upto,
{
    if upto <= 0 {
        Seq::empty()
    } else {
        let p = pairs[upto - 1];
        labels_of(pairs, n, upto - 1) + if p.1 >= n {
            Seq::new((n - 1) as nat, |i: int| p.0)
        } else {
            Seq::new(p.1 as nat, |i: int| p.0)
        }
    }
}

/// Unambiguous whole-window contributions of the first `upto` runs: a
/// run spanning a whole window contributes `count - n + 1` calls to its
/// taxid outright.
pub open spec fn direct_of(pairs: Seq<(u32, usize)>, n: int, upto: int) -> Seq<(u32, usize)>
    decreases upto,
{
    if upto <= 0 {
        Seq::empty()
    } else {
        let p = pairs[upto - 1];
        direct_of(pairs, n, upto - 1) + if p.1 >= n {
            seq![(p.0, (p.1 - n + 1) as usize)]
        } else {
            Seq::empty()
        }
    }
}

/// Expands taxid-to-count runs into direct window calls and boundary
/// labels for the sliding window.
pub fn expand(pairs: &Vec<(u32, usize)>, n_kmers: usize) -> (r: (Vec<(u32, usize)>, Vec<u32>))
    requires
        n_kmers >= 1,
    ensures
        r.0@ == direct_of(pairs@, n_kmers as int, pairs@.len() as int),
        r.1@ == labels_of(pairs@, n_kmers as int, pairs@.len() as int),
{
    let m = pairs.len();
    let mut direct: Vec<(u32, usize)> = Vec::new();
    let mut labels: Vec<u32> = Vec::new();
    let mut i: usize = 0;
    while i < m
        invariant
            i <= m,
            m == pairs@.len(),
            n_kmers >= 1,
            direct@ == direct_of(pairs@, n_kmers as int, i as int),
            labels@ == labels_of(pairs@, n_kmers as int, i as int),
        decreases m - i,
    {
        let p = pairs[i];
        let reps: usize = if p.1 >= n_kmers {
            direct.push((p.0, p.1 - n_kmers + 1));
            n_kmers - 1
        } else {
            proof {
                assert(direct_of(pairs@, n_kmers as int, i + 1) =~= direct@);
            }
            p.1
        };
        let ghost lbase = labels@;
        let mut k: usize = 0;
        while k < reps
            invariant
                k <= reps,
                labels@ == lbase + Seq::new(k as nat, |q: int| p.0),
            decreases reps - k,
        {
            labels.push(p.0);
            proof {
                assert(lbase + Seq::new((k + 1) as nat, |q: int| p.0) =~= (lbase + Seq::new(
                    k as nat,
                    |q: int| p.0,
                )).push(p.0));
            }
            k += 1;
        }
        proof {
            assert(labels@ =~= labels_of(pairs@, n_kmers as int, i + 1));
        }
        i += 1;
    }
    (direct, labels)
}

/// The taxid-to-count pairs parsed from the first `upto` items of a
/// mapping field: items without a `:` are skipped; unparsable numbers
/// count as zero.
pub open spec fn kmer_pairs_spec(items: Seq<Seq<u8>>, upto: int) -> Seq<(u32, usize)>
    decreases upto,
{
    if upto <= 0 {
        Seq::empty()
    } else {
        let prev = kmer_pairs_spec(items, upto - 1);
        let parts = split_spec(items[upto - 1], seq![58u8]);
        if parts.len() < 2 {
            prev
        } else {
            let t = if is_numeral(parts[0]) && numeral_value(parts[0]) <= u32::MAX {
                numeral_value(parts[0]) as u32
            } else {
                0u32
            };
            let c = if is_numeral(parts[1]) && numeral_value(parts[1]) <= usize::MAX {
                numeral_value(parts[1]) as usize
            } else {
                0usize
            };
            prev.push((t, c))
        }
    }
}

/// Splits one raw k-mer mapping line into its sequence id and its
/// taxid-to-count pairs. Lines with under 5 tab-separated fields are
/// rejected; malformed pairs are skipped or read as zero, never fatal.
pub fn parse_kmer_line(line: &[u8]) -> (r: Option<(Vec<u8>, Vec<(u32, usize)>)>)
    ensures
        ({
            let fields = split_spec(line@, seq![9u8]);
            match r {
                Some(p) => {
                    &&& fields.len() >= 5
                    &&& p.0@ == trim_spec(fields[1])
                    &&& p.1@ == ({
                        let items = split_spec(trim_spec(fields[4]), seq![32u8]);
                        kmer_pairs_spec(items, items.len() as int)
                    })
                },
                None => fields.len() < 5,
            }
        }),
{
    let fields = split_pat(line, &[9u8]);
    proof {
        assert((&[9u8])@ =~= seq![9u8]);
    }
    if fields.len() < 5 {
        return None;
    }
    let ghost fv = fields@.map_values(|v: Vec<u8>| v@);
    proof {
        assert(fv[1] == fields@[1]@);
        assert(fv[4] == fields@[4]@);
    }
    let seqid = vstd::slice::slice_to_vec(trim(fields[1].as_slice()));
    let items = split_pat(trim(fields[4].as_slice()), &[32u8]);
    proof {
        assert((&[32u8])@ =~= seq![32u8]);
    }
    let ghost iv = items@.map_values(|v: Vec<u8>| v@);
    let n_items = items.len();
    let mut pairs: Vec<(u32, usize)> = Vec::new();
    let mut j: usize = 0;
    while j < n_items
        invariant
            j <= n_items,
            n_items == items@.len(),
            iv == items@.map_values(|v: Vec<u8>| v@),
            pairs@ == kmer_pairs_spec(iv, j as int),
        decreases n_items - j,
    {
        proof {
            assert(iv[j as int] == items@[j as int]@);
        }
        let parts = split_pat(items[j].as_slice(), &[58u8]);
        proof {
            assert((&[58u8])@ =~= seq![58u8]);
        }
        if parts.len() >= 2 {
            proof {
                assert(parts@.map_values(|v: Vec<u8>| v@)[0] == parts@[0]@);
                assert(parts@.map_values(|v: Vec<u8>| v@)[1] == parts@[1]@);
            }
            let t = match parse_u32(parts[0].as_slice()) {
                Some(v) => v,
                None => 0,
            };
            let c = match parse_usize(parts[1].as_slice()) {
                Some(v) => v,
                None => 0,
            };
            pairs.push((t, c));
        }
        j += 1;
    }
    Some((seqid, pairs))
}

/// What the tally holds for `k`, or zero.
pub open spec fn tally_get(m: Map<u32, usize>, k: u32) -> nat {
    if m.contains_key(k) {
        m[k] as nat
    } else {
        0
    }
}

/// The tally after crediting `c` more calls to `k`.
pub open spec fn tally_bump(m: Map<u32, usize>, k: u32, c: usize) -> Map<u32, usize> {
    m.insert(k, sat_add(tally_get(m, k), c as nat) as usize)
}

/// The tally after the first `upto` direct contributions.
pub open spec fn tally_direct(m: Map<u32, usize>, direct: Seq<(u32, usize)>, upto: int) -> Map<
    u32,
    usize,
>
    decreases upto,
{
    if upto <= 0 {
        m
    } else {
        tally_bump(
            tally_direct(m, direct, upto - 1),
            direct[upto - 1].0,
            direct[upto - 1].1,
        )
    }
}

/// The tally after the first `upto` window winners, one call each.
pub open spec fn tally_winners(m: Map<u32, usize>, winners: Seq<u32>, upto: int) -> Map<u32, usize>
    decreases upto,
{
    if upto <= 0 {
        m
    } else {
        tally_bump(tally_winners(m, winners, upto - 1), winners[upto - 1], 1)
    }
}

/// The full tally of one read: direct whole-window calls plus one call
/// per sliding-window classification.
pub open spec fn read_tally_spec(
    taxo: NCBITaxonomy,
    pairs: Seq<(u32, usize)>,
    n: int,
) -> Map<u32, usize> {
    let direct = direct_of(pairs, n, pairs.len() as int);
    let labels = labels_of(pairs, n, pairs.len() as int);
    let winners = winners_of(taxo, labels, n);
    tally_winners(tally_direct(Map::empty(), direct, direct.len() as int), winners, winners.len() as int)
}

/// The winners of every full window over `labels`.
pub open spec fn winners_of(taxo: NCBITaxonomy, labels: Seq<u32>, n: int) -> Seq<u32> {
    if labels.len() >= n {
        Seq::new((labels.len() - n + 1) as nat, |k: int| winner_at(taxo, labels, n, n - 1 + k))
    } else {
        Seq::empty()
    }
}

/// The per-read tally as the crate's output names it.
#[verifier::external_type_specification]
#[verifier::external_body]
#[verifier::reject_recursive_types(K)]
#[verifier::reject_recursive_types(V)]
#[verifier::reject_recursive_types(S)]
pub struct ExDashMap<K, V, S>(dashmap::DashMap<K, V, S>);

/// What the shared tally map holds.
pub uninterp spec fn dash_counts(m: dashmap::DashMap<u32, usize>) -> Map<u32, usize>;

/// The shared per-read tally map.
pub type Tally = dashmap::DashMap<u32, usize>;

/// The empty tally.
pub open spec fn empty_tally() -> Map<u32, usize> {
    Map::empty()
}

/// Relies on dashmap::DashMap::new: a fresh map holds nothing.
#[verifier::external_body]
fn dash_new() -> (fresh: Tally)
    ensures
        dash_counts(fresh) == empty_tally(),
{
    dashmap::DashMap::new()
}

/// Relies on dashmap::DashMap::insert: filing a value under a key, the
/// map then holds it there; the map is passed through by value so the
/// update is visible in the result.
#[verifier::external_body]
fn dash_put(m: Tally, k: u32, v: usize) -> (r: Tally)
    ensures
        dash_counts(r) == dash_counts(m).insert(k, v),
{
    m.insert(k, v);
    m
}

/// Relies on dashmap::DashMap::get: the value filed under the key, if
/// any.
#[verifier::external_body]
fn dash_get(m: &Tally, k: u32) -> (r: Option<usize>)
    ensures
        r == if dash_counts(*m).contains_key(k) {
            Some(dash_counts(*m)[k])
        } else {
            None::<usize>
        },
{
    m.get(&k).map(|entry| *entry)
}

/// Relies on dashmap::DashMap::iter: every filed pair appears exactly
/// once, in no promised order.
#[verifier::external_body]
fn dash_entries(m: &Tally) -> (r: Vec<(u32, usize)>)
    ensures
        forall|i: int, j: int| 0 <= i < j < r@.len() ==> (#[trigger] r@[i]).0 != (#[trigger] r@[j]).0,
        forall|i: int| 0 <= i < r@.len() ==> dash_counts(*m).contains_key((#[trigger] r@[i]).0)
            && dash_counts(*m)[r@[i].0] == r@[i].1,
        forall|k: u32| dash_counts(*m).contains_key(k) ==> exists|i: int| 0 <= i < r@.len() && (
        #[trigger] r@[i]).0 == k,
{
    m.iter().map(|entry| (*entry.key(), *entry.value())).collect()
}

/// The rendered pair list, space-separated `taxid:count` tokens.
pub open spec fn pairs_render(es: Seq<(u32, usize)>) -> Seq<u8>
    decreases es.len(),
{
    if es.len() == 0 {
        Seq::empty()
    } else if es.len() == 1 {
        dec_of(es[0].0 as nat) + seq![58u8] + dec_of(es[0].1 as nat)
    } else {
        dec_of(es[0].0 as nat) + seq![58u8] + dec_of(es[0].1 as nat) + seq![32u8] + pairs_render(
            es.skip(1),
        )
    }
}

proof fn lemma_pairs_render_snoc(es: Seq<(u32, usize)>, i: int)
    requires
        0 <= i < es.len(),
    ensures
        pairs_render(es.take(i + 1)) == if i == 0 {
            dec_of(es[0].0 as nat) + seq![58u8] + dec_of(es[0].1 as nat)
        } else {
            pairs_render(es.take(i)) + seq![32u8] + dec_of(es[i].0 as nat) + seq![58u8] + dec_of(
                es[i].1 as nat,
            )
        },
    decreases i,
{
    if i == 0 {
        assert(es.take(1) =~= seq![es[0]]);
    } else {
        lemma_pairs_render_snoc(es.skip(1), i - 1);
        assert(es.take(i + 1).skip(1) =~= es.skip(1).take(i));
        assert(es.take(i).skip(1) =~= es.skip(1).take(i - 1));
        assert(es.take(i + 1)[0] == es[0]);
        assert(es.take(i)[0] == es[0]);
        assert(es.skip(1)[i - 1] == es[i]);
        if i == 1 {
            assert(pairs_render(es.take(2)) =~= pairs_render(es.take(1)) + seq![32u8] + dec_of(
                es[1].0 as nat,
            ) + seq![58u8] + dec_of(es[1].1 as nat));
        } else {
            assert(pairs_render(es.take(i + 1)) =~= pairs_render(es.take(i)) + seq![32u8] + dec_of(
                es[i].0 as nat,
            ) + seq![58u8] + dec_of(es[i].1 as nat));
        }
    }
}

/// One output record: sequence id, genome taxid, a blank column, then
/// the tally pairs, newline-terminated.
pub open spec fn render_spec(seqid: Seq<u8>, taxid: u32, es: Seq<(u32, usize)>) -> Seq<u8> {
    seqid + seq![9u8] + dec_of(taxid as nat) + seq![9u8, 9u8] + pairs_render(es) + seq![10u8]
}

/// Converts one read's k-mer runs into its classification record: the
/// runs are expanded, every full window is classified with LCA
/// tie-breaks, and the per-taxid tally is rendered after the sequence id
/// and genome taxid. The tally pairs come out in the shared map's own
/// order.
pub fn convert_line(
    seqid: &[u8],
    taxid: u32,
    pairs: &Vec<(u32, usize)>,
    n_kmers: usize,
    taxo: &NCBITaxonomy,
) -> (out: Vec<u8>)
    requires
        n_kmers >= 1,
    ensures
        exists|es: Seq<(u32, usize)>|
            {
                let tally = read_tally_spec(*taxo, pairs@, n_kmers as int);
                &&& out@ == #[trigger] render_spec(seqid@, taxid, es)
                &&& forall|i: int, j: int| 0 <= i < j < es.len() ==> (#[trigger] es[i]).0 != (
                #[trigger] es[j]).0
                &&& forall|i: int| 0 <= i < es.len() ==> tally.contains_key((#[trigger] es[i]).0)
                    && tally[es[i].0] == es[i].1
                &&& forall|k: u32| tally.contains_key(k) ==> exists|i: int|
                    0 <= i < es.len() && (#[trigger] es[i]).0 == k
            },
{
    let expanded = expand(pairs, n_kmers);
    let direct = expanded.0;
    let labels = expanded.1;
    let winners = classify_windows(&labels, n_kmers, taxo);
    proof {
        assert(winners@ =~= winners_of(*taxo, labels@, n_kmers as int));
    }
    let mut tally = dash_new();
    let nd = direct.len();
    let mut i: usize = 0;
    while i < nd
        invariant
            i <= nd,
            nd == direct@.len(),
            dash_counts(tally) == tally_direct(Map::<u32, usize>::empty(), direct@, i as int),
        decreases nd - i,
    {
        let cur = match dash_get(&tally, direct[i].0) {
            Some(v) => v,
            None => 0,
        };
        tally = dash_put(tally, direct[i].0, sat_add_usize(cur, direct[i].1));
        i += 1;
    }
    let nw = winners.len();
    let mut w: usize = 0;
    while w < nw
        invariant
            w <= nw,
            nw == winners@.len(),
            dash_counts(tally) == tally_winners(
                tally_direct(Map::<u32, usize>::empty(), direct@, direct@.len() as int),
                winners@,
                w as int,
            ),
        decreases nw - w,
    {
        let cur = match dash_get(&tally, winners[w]) {
            Some(v) => v,
            None => 0,
        };
        tally = dash_put(tally, winners[w], sat_add_usize(cur, 1));
        w += 1;
    }
    let es = dash_entries(&tally);
    let mut out: Vec<u8> = Vec::new();
    crate::text::push_all(&mut out, seqid);
    out.push(9);
    let tid = u32_to_dec(taxid);
    crate::text::push_all(&mut out, tid.as_slice());
    out.push(9);
    out.push(9);
    let ghost head = seqid@ + seq![9u8] + dec_of(taxid as nat) + seq![9u8, 9u8];
    proof {
        assert(out@ =~= head);
    }
    let ne = es.len();
    let mut e: usize = 0;
    while e < ne
        invariant
            e <= ne,
            ne == es@.len(),
            out@ == head + pairs_render(es@.take(e as int)),
        decreases ne - e,
    {
        if e > 0 {
            out.push(32);
        }
        let kd = u32_to_dec(es[e].0);
        crate::text::push_all(&mut out, kd.as_slice());
        out.push(58);
        let cd = usize_to_dec(es[e].1);
        crate::text::push_all(&mut out, cd.as_slice());
        proof {
            lemma_pairs_render_snoc(es@, e as int);
            if e == 0 {
                assert(out@ =~= head + pairs_render(es@.take(1)));
            } else {
                assert(out@ =~= head + pairs_render(es@.take(e + 1)));
            }
        }
        e += 1;
    }
    out.push(10);
    proof {
        assert(es@.take(ne as int) =~= es@);
        assert(out@ =~= render_spec(seqid@, taxid, es@));
        assert(dash_counts(tally) == read_tally_spec(*taxo, pairs@, n_kmers as int));
    }
    out
}

/// The whitespace-separated tokens of `s` from position `i` on, given
/// the token bytes collected so far (`cur`) and the tokens already
/// emitted (`acc`): a space closes the current token, any other byte
/// extends it, and the end closes whatever is open.
pub open spec fn tokens_acc(s: Seq<u8>, i: int, cur: Seq<u8>, acc: Seq<Seq<u8>>) -> Seq<Seq<u8>>
    decreases s.len() - i,
{
    if i < 0 || i >= s.len() {
        if cur.len() > 0 {
            acc.push(cur)
        } else {
            acc
        }
    } else if crate::text::is_space(s[i]) {
        tokens_acc(
            s,
            i + 1,
            Seq::empty(),
            if cur.len() > 0 {
                acc.push(cur)
            } else {
                acc
            },
        )
    } else {
        tokens_acc(s, i + 1, cur.push(s[i]), acc)
    }
}

/// The maximal whitespace-separated tokens of a line, in order.
pub open spec fn tokens_of(s: Seq<u8>) -> Seq<Seq<u8>> {
    tokens_acc(s, 0, Seq::empty(), Seq::empty())
}

/// Tokens already emitted stay in place whatever follows.
proof fn lemma_tokens_acc_prefix(s: Seq<u8>, i: int, cur: Seq<u8>, acc: Seq<Seq<u8>>)
    ensures
        tokens_acc(s, i, cur, acc).len() >= acc.len(),
        forall|j: int| 0 <= j < acc.len() ==> tokens_acc(s, i, cur, acc)[j] == acc[j],
    decreases s.len() - i,
{
    if !(i < 0 || i >= s.len()) {
        if crate::text::is_space(s[i]) {
            let ext = if cur.len() > 0 {
                acc.push(cur)
            } else {
                acc
            };
            lemma_tokens_acc_prefix(s, i + 1, Seq::empty(), ext);
            assert(tokens_acc(s, i, cur, acc) == tokens_acc(s, i + 1, Seq::empty(), ext));
            assert forall|j: int| 0 <= j < acc.len() implies tokens_acc(s, i, cur, acc)[j]
                == acc[j] by {
                assert(tokens_acc(s, i + 1, Seq::empty(), ext)[j] == ext[j]);
            }
        } else {
            lemma_tokens_acc_prefix(s, i + 1, cur.push(s[i]), acc);
            assert(tokens_acc(s, i, cur, acc) == tokens_acc(s, i + 1, cur.push(s[i]), acc));
            assert forall|j: int| 0 <= j < acc.len() implies tokens_acc(s, i, cur, acc)[j]
                == acc[j] by {
                assert(tokens_acc(s, i + 1, cur.push(s[i]), acc)[j] == acc[j]);
            }
        }
    }
}

/// Parses one line of the seqid-to-taxid map: the first whitespace
/// token is the sequence id and the second must be a taxid numeral.
/// A line with fewer than two tokens, or a non-numeric second token,
/// carries no pair; further tokens are ignored.
pub fn parse_seqid2taxid_line(line: &[u8]) -> (r: Option<(Vec<u8>, u32)>)
    ensures
        ({
            let toks = tokens_of(line@);
            match r {
                Some(pair) => {
                    &&& toks.len() >= 2
                    &&& pair.0@ == toks[0]
                    &&& is_numeral(toks[1]) && numeral_value(toks[1]) <= u32::MAX
                    &&& pair.1 == numeral_value(toks[1]) as u32
                },
                None => toks.len() < 2 || !(is_numeral(toks[1]) && numeral_value(toks[1])
                    <= u32::MAX),
            }
        }),
{
    let n = line.len();
    let mut a: usize = 0;
    while a < n && (line[a] == 32 || (9 <= line[a] && line[a] <= 13))
        invariant
            a <= n,
            n == line@.len(),
            tokens_of(line@) == tokens_acc(
                line@,
                a as int,
                Seq::empty(),
                Seq::<Seq<u8>>::empty(),
            ),
        decreases n - a,
    {
        a += 1;
    }
    if a == n {
        return None;
    }
    proof {
        assert(line@.subrange(a as int, a as int) =~= Seq::<u8>::empty());
    }
    let mut b: usize = a;
    while b < n && !(line[b] == 32 || (9 <= line[b] && line[b] <= 13))
        invariant
            a <= b <= n,
            a < n,
            n == line@.len(),
            !crate::text::is_space(line@[a as int]),
            tokens_of(line@) == tokens_acc(
                line@,
                b as int,
                line@.subrange(a as int, b as int),
                Seq::<Seq<u8>>::empty(),
            ),
        decreases n - b,
    {
        proof {
            assert(line@.subrange(a as int, b + 1) =~= line@.subrange(a as int, b as int).push(
                line@[b as int],
            ));
        }
        b += 1;
    }
    let ghost tok1 = line@.subrange(a as int, b as int);
    proof {
        assert(b > a);
        assert(tok1.len() > 0);
    }
    if b == n {
        proof {
            assert(tokens_of(line@) == Seq::<Seq<u8>>::empty().push(tok1));
            assert(tokens_of(line@).len() < 2);
        }
        return None;
    }
    let ghost acc1 = Seq::<Seq<u8>>::empty().push(tok1);
    proof {
        assert(tokens_of(line@) == tokens_acc(line@, b + 1, Seq::empty(), acc1));
        assert(tokens_acc(line@, b as int, Seq::empty(), acc1) == tokens_acc(
            line@,
            b + 1,
            Seq::empty(),
            acc1,
        ));
    }
    let seqid = vstd::slice::slice_to_vec(vstd::slice::slice_subrange(line, a, b));
    let mut c: usize = b;
    while c < n && (line[c] == 32 || (9 <= line[c] && line[c] <= 13))
        invariant
            b <= c <= n,
            n == line@.len(),
            tokens_of(line@) == tokens_acc(line@, c as int, Seq::empty(), acc1),
        decreases n - c,
    {
        c += 1;
    }
    if c == n {
        proof {
            assert(tokens_of(line@) == acc1);
            assert(tokens_of(line@).len() < 2);
        }
        return None;
    }
    proof {
        assert(line@.subrange(c as int, c as int) =~= Seq::<u8>::empty());
    }
    let mut d: usize = c;
    while d < n && !(line[d] == 32 || (9 <= line[d] && line[d] <= 13))
        invariant
            c <= d <= n,
            c < n,
            n == line@.len(),
            !crate::text::is_space(line@[c as int]),
            tokens_of(line@) == tokens_acc(
                line@,
                d as int,
                line@.subrange(c as int, d as int),
                acc1,
            ),
        decreases n - d,
    {
        proof {
            assert(line@.subrange(c as int, d + 1) =~= line@.subrange(c as int, d as int).push(
                line@[d as int],
            ));
        }
        d += 1;
    }
    let ghost tok2 = line@.subrange(c as int, d as int);
    proof {
        assert(d > c);
        assert(tok2.len() > 0);
        let acc2 = acc1.push(tok2);
        assert(acc2.len() == 2 && acc2[0] == tok1 && acc2[1] == tok2);
        if d < n {
            assert(tokens_of(line@) == tokens_acc(line@, d + 1, Seq::empty(), acc2));
            lemma_tokens_acc_prefix(line@, d + 1, Seq::empty(), acc2);
            assert(tokens_acc(line@, d + 1, Seq::empty(), acc2)[0] == acc2[0]);
            assert(tokens_acc(line@, d + 1, Seq::empty(), acc2)[1] == acc2[1]);
        } else {
            assert(tokens_of(line@) == acc2);
        }
        assert(tokens_of(line@).len() >= 2);
        assert(tokens_of(line@)[0] == tok1);
        assert(tokens_of(line@)[1] == tok2);
    }
    let tok2_slice = vstd::slice::slice_subrange(line, c, d);
    match parse_u32(tok2_slice) {
        Some(v) => Some((seqid, v)),
        None => None,
    }
}

} // verus!
