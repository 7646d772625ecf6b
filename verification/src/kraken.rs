//! The classifier-report tree: parsing report lines into nodes, repairing
//! rank gaps with synthetic sub-rank codes, level-selection accounting,
//! and the Bayesian redistribution of reads over genomes.

use vstd::prelude::*;
use crate::digits::{dec_of, is_dec_digit, is_numeral, numeral_value, parse_u32, parse_usize};
use crate::text::{bytes_eq, split_pat, split_spec, trim, trim_spec, trim_start_spec};

verus! {

/// The fixed rank ordering, shallow to deep: R, K, D, P, C, O, F, G, S.
pub const MAIN_LVLS: [u8; 9] = [82, 75, 68, 80, 67, 79, 70, 71, 83];

/// Whether `b` is one of the nine main rank letters.
pub open spec fn is_main_lvl(b: u8) -> bool {
    b == 82 || b == 75 || b == 68 || b == 80 || b == 67 || b == 79 || b == 70 || b == 71 || b == 83
}

/// Index of a rank letter in the fixed ordering; an unrecognized letter
/// sorts after all of them, at index 9.
pub open spec fn main_lvl_index_spec(b: u8) -> int {
    if b == 82 {
        0
    } else if b == 75 {
        1
    } else if b == 68 {
        2
    } else if b == 80 {
        3
    } else if b == 67 {
        4
    } else if b == 79 {
        5
    } else if b == 70 {
        6
    } else if b == 71 {
        7
    } else if b == 83 {
        8
    } else {
        9
    }
}

/// Position of the first byte of `level_id` in the rank ordering.
/// A code outside the ordering (or empty) answers 9: deeper than every
/// recognized rank.
pub fn main_lvl_index(level_id: &[u8]) -> (r: usize)
    ensures
        r == if level_id@.len() > 0 {
            main_lvl_index_spec(level_id@[0])
        } else {
            9int
        },
{
    if level_id.len() == 0 {
        return 9;
    }
    let b = level_id[0];
    if b == 82 {
        0
    } else if b == 75 {
        1
    } else if b == 68 {
        2
    } else if b == 80 {
        3
    } else if b == 67 {
        4
    } else if b == 79 {
        5
    } else if b == 70 {
        6
    } else if b == 71 {
        7
    } else if b == 83 {
        8
    } else {
        9
    }
}

/// One node of the report tree. Children and parent are arena indices
/// into the node table that owns this node.
pub struct Node {
    pub name: Vec<u8>,
    pub taxid: u32,
    pub level_id: Vec<u8>,
    pub level_num: usize,
    pub all_reads: usize,
    pub lvl_reads: usize,
    pub children: Vec<usize>,
    pub parent: Option<usize>,
}

/// Count of leading space bytes: the indentation of a report name field.
pub open spec fn leading_spaces(s: Seq<u8>) -> int
    decreases s.len(),
{
    if s.len() > 0 && s[0] == 32 {
        1 + leading_spaces(s.skip(1))
    } else {
        0
    }
}

proof fn lemma_leading_spaces_at(s: Seq<u8>, k: int)
    requires
        0 <= k <= s.len(),
        forall|j: int| 0 <= j < k ==> s[j] == 32,
        k < s.len() ==> s[k] != 32,
    ensures
        leading_spaces(s) == k,
    decreases k,
{
    if k == 0 {
        if s.len() > 0 && s[0] == 32 {
            assert(false);
        }
    } else {
        lemma_leading_spaces_at(s.skip(1), k - 1);
    }
}

/// Counts leading space bytes.
fn count_leading_spaces(s: &[u8]) -> (r: usize)
    ensures
        r == leading_spaces(s@),
{
    let n = s.len();
    let mut i: usize = 0;
    while i < n && s[i] == 32
        invariant
            i <= n,
            n == s@.len(),
            forall|j: int| 0 <= j < i ==> s@[j] == 32,
        decreases n - i,
    {
        i += 1;
    }
    proof {
        lemma_leading_spaces_at(s@, i as int);
    }
    i
}

proof fn lemma_trim_start_at_pub(s: Seq<u8>, k: int)
    requires
        0 <= k <= s.len(),
        forall|i: int| 0 <= i < k ==> crate::text::is_space(#[trigger] s[i]),
        k < s.len() ==> !crate::text::is_space(s[k]),
    ensures
        trim_start_spec(s) == s.skip(k),
    decreases k,
{
    if k == 0 {
        if s.len() > 0 && crate::text::is_space(s[0]) {
            assert(false);
        }
        assert(s.skip(0) =~= s);
    } else {
        lemma_trim_start_at_pub(s.skip(1), k - 1);
        assert(s.skip(1).skip(k - 1) =~= s.skip(k));
    }
}

/// Strips leading ASCII whitespace, as `str::trim_start` does on ASCII.
fn trim_start(s: &[u8]) -> (r: &[u8])
    ensures
        r@ == trim_start_spec(s@),
{
    let n = s.len();
    let mut a: usize = 0;
    while a < n && (s[a] == 32 || (9 <= s[a] && s[a] <= 13))
        invariant
            a <= n,
            n == s@.len(),
            forall|i: int| 0 <= i < a ==> crate::text::is_space(#[trigger] s@[i]),
        decreases n - a,
    {
        a += 1;
    }
    proof {
        lemma_trim_start_at_pub(s@, a as int);
    }
    vstd::slice::slice_subrange(s, a, n)
}

/// Parsed fields of one report line, in order: name (indentation
/// stripped), taxid, level id, level number (indentation pairs), reads at
/// or below the node, reads exactly here.
pub struct ReportFields {
    pub name: Seq<u8>,
    pub taxid: u32,
    pub level_id: Seq<u8>,
    pub level_num: int,
    pub all_reads: usize,
    pub lvl_reads: usize,
}

/// How one report line parses: the line is trimmed, split on tabs, and
/// must offer at least 5 fields; reads here, reads at-or-below and taxid
/// must be numeric. The level id is the third field from the end (`-` when
/// blank), the taxid the second from the end, and the name the last, its
/// leading indentation of space pairs giving the level number.
pub open spec fn parse_report_line(line: Seq<u8>) -> Option<ReportFields> {
    let fields = split_spec(trim_spec(line), seq![9u8]);
    if fields.len() < 5 {
        None
    } else {
        let raw_level = fields[fields.len() - 3];
        let level_id = if trim_spec(raw_level).len() == 0 {
            seq![45u8]
        } else {
            raw_level
        };
        let name_field = fields[fields.len() - 1];
        if is_numeral(fields[2]) && numeral_value(fields[2]) <= usize::MAX && is_numeral(fields[1])
            && numeral_value(fields[1]) <= usize::MAX && is_numeral(
            fields[fields.len() - 2],
        ) && numeral_value(fields[fields.len() - 2]) <= u32::MAX {
            Some(
                ReportFields {
                    name: trim_start_spec(name_field),
                    taxid: numeral_value(fields[fields.len() - 2]) as u32,
                    level_id: level_id,
                    level_num: leading_spaces(name_field) / 2,
                    all_reads: numeral_value(fields[1]) as usize,
                    lvl_reads: numeral_value(fields[2]) as usize,
                },
            )
        } else {
            None
        }
    }
}

impl Node {
    /// Parses one report line into a fresh node with no children and no
    /// parent. Lines with under 5 tab-separated fields or non-numeric
    /// counts are rejected.
    pub fn from_str(curr_str: &[u8]) -> (r: Result<Self, &'static str>)
        ensures
            match r {
                Ok(node) => parse_report_line(curr_str@) matches Some(f) && node.name@ == f.name
                    && node.taxid == f.taxid && node.level_id@ == f.level_id && node.level_num
                    == f.level_num && node.all_reads == f.all_reads && node.lvl_reads == f.lvl_reads
                    && node.children@ == Seq::<usize>::empty() && node.parent is None,
                Err(_) => parse_report_line(curr_str@) is None,
            },
    {
        let trimmed = trim(curr_str);
        let split_str = split_pat(trimmed, &[9u8]);
        proof {
            assert((&[9u8])@ =~= seq![9u8]);
        }
        let n_fields = split_str.len();
        if n_fields < 5 {
            return Err("Input string has too few elements.");
        }
        let ghost fv = split_str@.map_values(|v: Vec<u8>| v@);
        proof {
            assert(fv[2] == split_str@[2]@);
            assert(fv[1] == split_str@[1]@);
            assert(fv[fv.len() - 3] == split_str@[n_fields - 3]@);
            assert(fv[fv.len() - 2] == split_str@[n_fields - 2]@);
            assert(fv[fv.len() - 1] == split_str@[n_fields - 1]@);
        }
        let raw_level = &split_str[n_fields - 3];
        let level_id: Vec<u8> = if trim(raw_level.as_slice()).len() == 0 {
            let mut v: Vec<u8> = Vec::new();
            v.push(45);
            proof {
                assert(v@ =~= seq![45u8]);
            }
            v
        } else {
            vstd::slice::slice_to_vec(raw_level.as_slice())
        };
        let lvl_reads = match parse_usize(split_str[2].as_slice()) {
            Some(v) => v,
            None => { return Err("Invalid number for lvl_reads"); },
        };
        let name_field = &split_str[n_fields - 1];
        let spaces = count_leading_spaces(name_field.as_slice());
        let name = vstd::slice::slice_to_vec(trim_start(name_field.as_slice()));
        let all_reads = match parse_usize(split_str[1].as_slice()) {
            Some(v) => v,
            None => { return Err("Invalid number for all_reads"); },
        };
        let taxid = match parse_u32(split_str[n_fields - 2].as_slice()) {
            Some(v) => v,
            None => { return Err("Invalid number for taxid"); },
        };
        let level_num = spaces / 2;
        Ok(
            Self {
                name,
                taxid,
                level_id,
                level_num,
                all_reads,
                lvl_reads,
                children: Vec::new(),
                parent: None,
            },
        )
    }

    /// Records `indx` as a further child, in report order.
    pub fn add_child(&mut self, indx: usize)
        ensures
            final(self).children@ == old(self).children@.push(indx),
            final(self).name == old(self).name,
            final(self).taxid == old(self).taxid,
            final(self).level_id == old(self).level_id,
            final(self).level_num == old(self).level_num,
            final(self).all_reads == old(self).all_reads,
            final(self).lvl_reads == old(self).lvl_reads,
            final(self).parent == old(self).parent,
    {
        self.children.push(indx);
    }
}

/// The repaired rank code for a node under `prev`, and its branch index.
/// A recognizable code stays as it is with branch index 0. A blank (`-`)
/// or multi-letter code under a parent with a bare main rank letter
/// becomes that letter with `1` appended; under a parent that already
/// carries a synthetic digit suffix, the suffix is incremented instead of
/// nesting further; any other parent leaves the code unchanged.
pub open spec fn correct_level_id_spec(node_lid: Seq<u8>, prev_lid: Seq<u8>) -> (Seq<u8>, int) {
    if node_lid == seq![45u8] || node_lid.len() > 1 {
        if prev_lid.len() == 1 && is_main_lvl(prev_lid[0]) {
            (prev_lid + seq![49u8], 1)
        } else if prev_lid.len() >= 1 && is_dec_digit(prev_lid.last()) {
            let d = (prev_lid.last() - 48) as nat;
            (prev_lid.drop_last() + dec_of(d + 1), d + 1int)
        } else {
            (node_lid, 0)
        }
    } else {
        (node_lid, 0)
    }
}

/// Computes the synthetic rank code and branch index for `node` attached
/// under `prev_node`, repairing rank gaps (a blank or unrecognized code
/// becomes `<parent letter>1`, `<parent letter>2`, ... down the gap).
pub fn correct_level_id(node: &Node, prev_node: &Node) -> (r: (Vec<u8>, usize))
    ensures
        (r.0@, r.1 as int) == correct_level_id_spec(node.level_id@, prev_node.level_id@),
{
    let is_blank = bytes_eq(node.level_id.as_slice(), &[45u8]);
    proof {
        assert((&[45u8])@ =~= seq![45u8]);
    }
    if is_blank || node.level_id.len() > 1 {
        let plen = prev_node.level_id.len();
        if plen == 1 && {
            let b = prev_node.level_id[0];
            b == 82 || b == 75 || b == 68 || b == 80 || b == 67 || b == 79 || b == 70 || b == 71
                || b == 83
        } {
            let mut out = vstd::slice::slice_to_vec(prev_node.level_id.as_slice());
            out.push(49);
            proof {
                assert(out@ =~= prev_node.level_id@ + seq![49u8]);
            }
            (out, 1)
        } else if plen >= 1 && prev_node.level_id[plen - 1] >= 48 && prev_node.level_id[plen - 1]
            <= 57 {
            let d = (prev_node.level_id[plen - 1] - 48) as usize;
            let mut out = vstd::slice::slice_to_vec(
                vstd::slice::slice_subrange(prev_node.level_id.as_slice(), 0, plen - 1),
            );
            let digits = crate::digits::usize_to_dec(d + 1);
            crate::text::push_all(&mut out, digits.as_slice());
            proof {
                assert(prev_node.level_id@.subrange(0, plen - 1) =~= prev_node.level_id@.drop_last());
            }
            (out, d + 1)
        } else {
            (vstd::slice::slice_to_vec(node.level_id.as_slice()), 0)
        }
    } else {
        (vstd::slice::slice_to_vec(node.level_id.as_slice()), 0)
    }
}

/// First index at which `s` files key `k`, or -1.
pub open spec fn find_idx<V>(s: Seq<(u32, V)>, k: u32) -> int
    decreases s.len(),
{
    if s.len() == 0 {
        -1
    } else if s[0].0 == k {
        0
    } else {
        let r = find_idx(s.skip(1), k);
        if r < 0 {
            -1
        } else {
            1 + r
        }
    }
}

pub proof fn lemma_find_idx_bounds<V>(s: Seq<(u32, V)>, k: u32)
    ensures
        find_idx(s, k) == -1 || (0 <= find_idx(s, k) < s.len() && s[find_idx(s, k)].0 == k),
        find_idx(s, k) == -1 ==> forall|i: int| 0 <= i < s.len() ==> (#[trigger] s[i]).0 != k,
    decreases s.len(),
{
    if s.len() > 0 && s[0].0 != k {
        lemma_find_idx_bounds(s.skip(1), k);
        if find_idx(s.skip(1), k) == -1 {
            assert forall|i: int| 0 <= i < s.len() implies (#[trigger] s[i]).0 != k by {
                if i > 0 {
                    assert(s.skip(1)[i - 1].0 != k);
                }
            }
        }
    }
}

pub proof fn lemma_find_idx_at<V>(s: Seq<(u32, V)>, k: u32, i: int)
    requires
        0 <= i <= s.len(),
        forall|j: int| 0 <= j < i ==> (#[trigger] s[j]).0 != k,
        i < s.len() ==> s[i].0 == k,
    ensures
        find_idx(s, k) == if i < s.len() {
            i
        } else {
            -1
        },
    decreases i,
{
    if i == 0 {
        if s.len() > 0 && s[0].0 != k {
            lemma_find_idx_at(s.skip(1), k, 0);
        }
    } else {
        lemma_find_idx_at(s.skip(1), k, i - 1);
    }
}

/// Entry sequence after filing `v` under `k`: an existing entry for `k`
/// is replaced in place, a new key is appended.
pub open spec fn assoc_insert<V>(s: Seq<(u32, V)>, k: u32, v: V) -> Seq<(u32, V)> {
    if find_idx(s, k) < 0 {
        s.push((k, v))
    } else {
        s.update(find_idx(s, k), (k, v))
    }
}

/// An insertion-ordered map from taxids to values, iterable in the order
/// keys first appeared.
pub struct TaxMap<V> {
    entries: Vec<(u32, V)>,
}

impl<V> TaxMap<V> {
    pub closed spec fn entries_view(self) -> Seq<(u32, V)> {
        self.entries@
    }

    /// Whether some entry files key `k`.
    pub open spec fn spec_contains(self, k: u32) -> bool {
        find_idx(self.entries_view(), k) >= 0
    }

    pub fn new() -> (r: Self)
        ensures
            r.entries_view() == Seq::<(u32, V)>::empty(),
    {
        TaxMap { entries: Vec::new() }
    }

    pub fn len(&self) -> (r: usize)
        ensures
            r == self.entries_view().len(),
    {
        self.entries.len()
    }

    pub fn entry_at(&self, i: usize) -> (r: &(u32, V))
        requires
            i < self.entries_view().len(),
        ensures
            *r == self.entries_view()[i as int],
    {
        &self.entries[i]
    }

    fn find(&self, k: u32) -> (r: Option<usize>)
        ensures
            match r {
                Some(i) => i == find_idx(self.entries_view(), k),
                None => find_idx(self.entries_view(), k) == -1,
            },
    {
        let n = self.entries.len();
        let mut i: usize = 0;
        while i < n
            invariant
                i <= n,
                n == self.entries@.len(),
                forall|j: int| 0 <= j < i ==> (#[trigger] self.entries@[j]).0 != k,
            decreases n - i,
        {
            if self.entries[i].0 == k {
                proof {
                    lemma_find_idx_at(self.entries@, k, i as int);
                }
                return Some(i);
            }
            i += 1;
        }
        proof {
            lemma_find_idx_at(self.entries@, k, n as int);
        }
        None
    }

    pub fn get(&self, k: u32) -> (r: Option<&V>)
        ensures
            match r {
                Some(v) => find_idx(self.entries_view(), k) >= 0 && *v == self.entries_view()[
                    find_idx(self.entries_view(), k)
                ].1,
                None => find_idx(self.entries_view(), k) == -1,
            },
    {
        match self.find(k) {
            Some(i) => {
                proof {
                    lemma_find_idx_bounds(self.entries@, k);
                }
                Some(&self.entries[i].1)
            },
            None => None,
        }
    }

    pub fn contains_key(&self, k: u32) -> (r: bool)
        ensures
            r == self.spec_contains(k),
    {
        match self.find(k) {
            Some(_) => true,
            None => false,
        }
    }

    pub fn insert(&mut self, k: u32, v: V)
        ensures
            final(self).entries_view() == assoc_insert(old(self).entries_view(), k, v),
    {
        match self.find(k) {
            Some(i) => {
                proof {
                    lemma_find_idx_bounds(self.entries@, k);
                }
                self.entries[i] = (k, v);
            },
            None => {
                self.entries.push((k, v));
            },
        }
    }
}

/// Output row material for one kept taxon: name, reads at or below,
/// reads exactly here, and reads added by redistribution.
pub struct LvlValue(pub Vec<u8>, pub usize, pub usize, pub usize);

impl LvlValue {
    pub fn from_node(node: &Node) -> (r: Self)
        ensures
            r.0@ == node.name@,
            r.1 == node.all_reads,
            r.2 == node.lvl_reads,
            r.3 == 0,
    {
        Self(vstd::slice::slice_to_vec(node.name.as_slice()), node.all_reads, node.lvl_reads, 0)
    }
}

/// Redistribution record: the kept taxon the reads roll up to, the reads
/// classified exactly here, and the reads added so far.
#[derive(Clone, Copy)]
pub struct Map2LvlValue(pub u32, pub usize, pub usize);

impl Map2LvlValue {
    pub fn from_node(node: &Node) -> (r: Self)
        ensures
            r.0 == node.taxid,
            r.1 == node.lvl_reads,
            r.2 == 0,
    {
        Self(node.taxid, node.lvl_reads, 0)
    }
}

/// Saturating add on `usize`: counters stick at the maximum instead of
/// overflowing.
pub open spec fn sat_add(a: nat, b: nat) -> nat {
    if a + b > usize::MAX {
        usize::MAX as nat
    } else {
        a + b
    }
}

/// `a + b`, saturating at `usize::MAX`.
pub fn sat_add_usize(a: usize, b: usize) -> (r: usize)
    ensures
        r == sat_add(a as nat, b as nat),
{
    if a > usize::MAX - b {
        usize::MAX
    } else {
        a + b
    }
}

/// Accumulators threaded through parsing, level selection and
/// redistribution.
pub struct Stats {
    pub u_reads: usize,
    pub n_lvl_total: usize,
    pub n_lvl_del: usize,
    pub ignored_reads: usize,
    pub total_reads: usize,
    pub n_lvl_est: usize,
    pub kept_reads: usize,
    pub last_taxid: isize,
    pub lvl_taxids: TaxMap<LvlValue>,
    pub map2lvl_taxids: TaxMap<Map2LvlValue>,
    pub leaf_nodes: Vec<Node>,
    pub nodes: Vec<Node>,
    pub nondistributed_reads: usize,
    pub distributed_reads: usize,
}

impl Default for Stats {
    fn default() -> (r: Self)
        ensures
            r.u_reads == 0,
            r.n_lvl_total == 0,
            r.n_lvl_del == 0,
            r.ignored_reads == 0,
            r.total_reads == 0,
            r.n_lvl_est == 0,
            r.kept_reads == 0,
            r.last_taxid == -1,
            r.lvl_taxids.entries_view() == Seq::<(u32, LvlValue)>::empty(),
            r.map2lvl_taxids.entries_view() == Seq::<(u32, Map2LvlValue)>::empty(),
            r.leaf_nodes@ == Seq::<Node>::empty(),
            r.nodes@ == Seq::<Node>::empty(),
            r.nondistributed_reads == 0,
            r.distributed_reads == 0,
    {
        Self {
            u_reads: 0,
            n_lvl_total: 0,
            n_lvl_del: 0,
            ignored_reads: 0,
            n_lvl_est: 0,
            total_reads: 0,
            kept_reads: 0,
            last_taxid: -1,
            lvl_taxids: TaxMap::new(),
            map2lvl_taxids: TaxMap::new(),
            leaf_nodes: Vec::new(),
            nodes: Vec::new(),
            nondistributed_reads: 0,
            distributed_reads: 0,
        }
    }
}

/// The level id of `node`, placed in the rank ordering.
pub open spec fn node_lvl_index(level_id: Seq<u8>) -> int {
    if level_id.len() > 0 {
        main_lvl_index_spec(level_id[0])
    } else {
        9
    }
}

/// Level-selection accounting for one node, with its rank code already
/// repaired. A node at the requested level is kept (filed in the level
/// table, becoming the last qualifying taxon) or dropped below the
/// threshold; a node past the requested branch depth, or at or deeper
/// than the requested rank, folds its reads into the last qualifying
/// taxon if one exists; a shallower node contributes nothing.
pub fn abundance_est(
    node: &Node,
    level: &[u8],
    threshold: usize,
    test_branch: usize,
    branch: usize,
    branch_lvl: usize,
    stats: &mut Stats,
)
    ensures
        final(stats).u_reads == old(stats).u_reads,
        final(stats).total_reads == old(stats).total_reads,
        final(stats).nodes@ == old(stats).nodes@,
        final(stats).leaf_nodes@ == old(stats).leaf_nodes@,
        final(stats).nondistributed_reads == old(stats).nondistributed_reads,
        final(stats).distributed_reads == old(stats).distributed_reads,
        ({
            if node.level_id@ == level@ {
                if node.all_reads < threshold {
                    &&& final(stats).n_lvl_total == sat_add(old(stats).n_lvl_total as nat, 1)
                    &&& final(stats).n_lvl_del == sat_add(old(stats).n_lvl_del as nat, 1)
                    &&& final(stats).ignored_reads == sat_add(
                        old(stats).ignored_reads as nat,
                        node.all_reads as nat,
                    )
                    &&& final(stats).last_taxid == -1
                    &&& final(stats).n_lvl_est == old(stats).n_lvl_est
                    &&& final(stats).kept_reads == old(stats).kept_reads
                    &&& final(stats).lvl_taxids.entries_view() == old(
                        stats,
                    ).lvl_taxids.entries_view()
                    &&& final(stats).map2lvl_taxids.entries_view() == old(
                        stats,
                    ).map2lvl_taxids.entries_view()
                } else {
                    &&& final(stats).n_lvl_total == sat_add(old(stats).n_lvl_total as nat, 1)
                    &&& final(stats).n_lvl_est == sat_add(old(stats).n_lvl_est as nat, 1)
                    &&& final(stats).kept_reads == sat_add(
                        old(stats).kept_reads as nat,
                        node.all_reads as nat,
                    )
                    &&& final(stats).last_taxid == node.taxid as isize
                    &&& final(stats).n_lvl_del == old(stats).n_lvl_del
                    &&& final(stats).ignored_reads == old(stats).ignored_reads
                    &&& exists|lv: LvlValue|
                        lv.0@ == node.name@ && lv.1 == node.all_reads && lv.2 == node.lvl_reads
                            && lv.3 == 0 && final(stats).lvl_taxids.entries_view() == assoc_insert(
                            old(stats).lvl_taxids.entries_view(),
                            node.taxid,
                            lv,
                        )
                    &&& final(stats).map2lvl_taxids.entries_view() == assoc_insert(
                        old(stats).map2lvl_taxids.entries_view(),
                        node.taxid,
                        (Map2LvlValue(node.taxid, node.lvl_reads, 0)),
                    )
                }
            } else {
                let folds = if branch > 0 && test_branch > branch {
                    old(stats).last_taxid != -1
                } else if node_lvl_index(node.level_id@) >= branch_lvl {
                    old(stats).last_taxid != -1
                } else {
                    false
                };
                &&& final(stats).n_lvl_total == old(stats).n_lvl_total
                &&& final(stats).n_lvl_del == old(stats).n_lvl_del
                &&& final(stats).n_lvl_est == old(stats).n_lvl_est
                &&& final(stats).ignored_reads == old(stats).ignored_reads
                &&& final(stats).kept_reads == old(stats).kept_reads
                &&& final(stats).last_taxid == old(stats).last_taxid
                &&& final(stats).lvl_taxids.entries_view() == old(stats).lvl_taxids.entries_view()
                &&& final(stats).map2lvl_taxids.entries_view() == if folds {
                    assoc_insert(
                        old(stats).map2lvl_taxids.entries_view(),
                        node.taxid,
                        (Map2LvlValue(old(stats).last_taxid as u32, node.lvl_reads, 0)),
                    )
                } else {
                    old(stats).map2lvl_taxids.entries_view()
                }
            }
        }),
{
    if bytes_eq(node.level_id.as_slice(), level) {
        stats.n_lvl_total = sat_add_usize(stats.n_lvl_total, 1);
        if node.all_reads < threshold {
            stats.n_lvl_del = sat_add_usize(stats.n_lvl_del, 1);
            stats.ignored_reads = sat_add_usize(stats.ignored_reads, node.all_reads);
            stats.last_taxid = -1;
        } else {
            stats.n_lvl_est = sat_add_usize(stats.n_lvl_est, 1);
            stats.kept_reads = sat_add_usize(stats.kept_reads, node.all_reads);
            stats.lvl_taxids.insert(node.taxid, LvlValue::from_node(node));
            stats.last_taxid = node.taxid as isize;
            stats.map2lvl_taxids.insert(node.taxid, Map2LvlValue::from_node(node));
        }
    } else if branch > 0 && test_branch > branch {
        if stats.last_taxid != -1 {
            let fold_to = stats.last_taxid as u32;
            stats.map2lvl_taxids.insert(node.taxid, Map2LvlValue(fold_to, node.lvl_reads, 0));
        }
    } else if main_lvl_index(node.level_id.as_slice()) >= branch_lvl {
        if stats.last_taxid != -1 {
            let fold_to = stats.last_taxid as u32;
            stats.map2lvl_taxids.insert(node.taxid, Map2LvlValue(fold_to, node.lvl_reads, 0));
        }
    }
}

/// Arena well-formedness of the report tree: every parent link points to
/// an earlier node; every child link, kept in increasing report order,
/// points to a later node that points back and sits exactly one level
/// below its parent.
pub open spec fn node_wf(nodes: Seq<Node>, i: int) -> bool {
    &&& (nodes[i].parent matches Some(p) ==> p < i)
    &&& forall|c: int| 0 <= c < nodes[i].children@.len() ==> {
        let ch = #[trigger] nodes[i].children@[c];
        &&& i < ch < nodes.len()
        &&& (nodes[ch as int].parent matches Some(pp) && pp == i)
        &&& nodes[ch as int].level_num == nodes[i].level_num + 1
        &&& (c > 0 ==> nodes[i].children@[c - 1] < ch)
    }
}

pub open spec fn tree_wf(nodes: Seq<Node>) -> bool {
    forall|i: int| 0 <= i < nodes.len() ==> #[trigger] node_wf(nodes, i)
}

/// A report line that carries no node: blank, or comment-marked.
pub open spec fn line_skipped(line: Seq<u8>) -> bool {
    line.len() == 0 || line[0] == 35 || line[0] == 37
}

/// The ASCII bytes of `unclassified`.
pub open spec fn unclassified_name() -> Seq<u8> {
    seq![117u8, 110u8, 99u8, 108u8, 97u8, 115u8, 115u8, 105u8, 102u8, 105u8, 101u8, 100u8]
}

/// A parsed line that records the unclassified-read count instead of a
/// tree node.
pub open spec fn records_unclassified(f: ReportFields) -> bool {
    f.level_id == seq![85u8] || f.name == unclassified_name()
}

/// Total reads seen over the first `upto` report lines, starting from
/// `init`: every parsed line contributes its reads-exactly-here count.
pub open spec fn spec_total_reads(lines: Seq<Seq<u8>>, upto: int, init: nat) -> nat
    decreases upto,
{
    if upto <= 0 {
        init
    } else {
        let prev = spec_total_reads(lines, upto - 1, init);
        if line_skipped(lines[upto - 1]) {
            prev
        } else {
            match parse_report_line(lines[upto - 1]) {
                Some(f) => sat_add(prev, f.lvl_reads as nat),
                None => prev,
            }
        }
    }
}

/// The unclassified-read count after the first `upto` report lines: the
/// reads-here count of the last unclassified line, or `init` if none.
pub open spec fn spec_u_reads(lines: Seq<Seq<u8>>, upto: int, init: nat) -> nat
    decreases upto,
{
    if upto <= 0 {
        init
    } else {
        let prev = spec_u_reads(lines, upto - 1, init);
        if line_skipped(lines[upto - 1]) {
            prev
        } else {
            match parse_report_line(lines[upto - 1]) {
                Some(f) => if records_unclassified(f) {
                    f.lvl_reads as nat
                } else {
                    prev
                },
                None => prev,
            }
        }
    }
}

/// The ghost image of one tree node, field for field.
pub struct SpecNode {
    pub name: Seq<u8>,
    pub taxid: u32,
    pub level_id: Seq<u8>,
    pub level_num: int,
    pub all_reads: usize,
    pub lvl_reads: usize,
    pub children: Seq<usize>,
    pub parent: Option<usize>,
}

pub open spec fn node_view(n: Node) -> SpecNode {
    SpecNode {
        name: n.name@,
        taxid: n.taxid,
        level_id: n.level_id@,
        level_num: n.level_num as int,
        all_reads: n.all_reads,
        lvl_reads: n.lvl_reads,
        children: n.children@,
        parent: n.parent,
    }
}

pub open spec fn nodes_view(s: Seq<Node>) -> Seq<SpecNode> {
    s.map_values(|n: Node| node_view(n))
}

/// The index of the nearest ancestor of slot `p` (itself included) whose
/// level sits exactly one above `lnum`, following parent links; -1 when
/// the walk leaves the table or meets a node with no recorded parent
/// first: a corrupt or out-of-order report.
pub open spec fn find_ancestor(nodes: Seq<SpecNode>, p: int, lnum: int) -> int
    decreases p
        when p >= 0
{
    if !(0 <= p < nodes.len()) {
        -1
    } else if lnum > 0 && nodes[p].level_num == lnum - 1 {
        p
    } else {
        match nodes[p].parent {
            Some(pp) => if 0 <= (pp as int) < p {
                find_ancestor(nodes, pp as int, lnum)
            } else {
                -1
            },
            None => -1,
        }
    }
}

/// The whole parsing state threaded line by line: the tree under
/// construction, the finalized leaves, the attachment point, the read
/// counters, the level-selection accounting, and whether the builder has
/// failed for want of a parent.
pub struct ParseState {
    pub nodes: Seq<SpecNode>,
    pub leaves: Seq<SpecNode>,
    pub prev: int,
    pub total_reads: usize,
    pub u_reads: usize,
    pub n_lvl_total: usize,
    pub n_lvl_del: usize,
    pub n_lvl_est: usize,
    pub ignored_reads: usize,
    pub kept_reads: usize,
    pub last_taxid: isize,
    pub lvl: Seq<(u32, (Seq<u8>, usize, usize, usize))>,
    pub m2l: Seq<(u32, Map2LvlValue)>,
    pub failed: bool,
}

/// Level-selection accounting for one attached node, over the ghost
/// state: the per-node rule of `abundance_est`.
pub open spec fn level_step(
    nd: SpecNode,
    test_branch: int,
    level: Seq<u8>,
    threshold: usize,
    branch: usize,
    branch_lvl: usize,
    st: ParseState,
) -> ParseState {
    if nd.level_id == level {
        if nd.all_reads < threshold {
            ParseState {
                n_lvl_total: sat_add(st.n_lvl_total as nat, 1) as usize,
                n_lvl_del: sat_add(st.n_lvl_del as nat, 1) as usize,
                ignored_reads: sat_add(st.ignored_reads as nat, nd.all_reads as nat) as usize,
                last_taxid: (-1) as isize,
                ..st
            }
        } else {
            ParseState {
                n_lvl_total: sat_add(st.n_lvl_total as nat, 1) as usize,
                n_lvl_est: sat_add(st.n_lvl_est as nat, 1) as usize,
                kept_reads: sat_add(st.kept_reads as nat, nd.all_reads as nat) as usize,
                last_taxid: nd.taxid as isize,
                lvl: assoc_insert(st.lvl, nd.taxid, (nd.name, nd.all_reads, nd.lvl_reads, 0usize)),
                m2l: assoc_insert(st.m2l, nd.taxid, (Map2LvlValue(nd.taxid, nd.lvl_reads, 0))),
                ..st
            }
        }
    } else {
        let folds = if branch > 0 && test_branch > branch {
            st.last_taxid != -1
        } else if node_lvl_index(nd.level_id) >= branch_lvl {
            st.last_taxid != -1
        } else {
            false
        };
        if folds {
            ParseState {
                m2l: assoc_insert(
                    st.m2l,
                    nd.taxid,
                    (Map2LvlValue(st.last_taxid as u32, nd.lvl_reads, 0)),
                ),
                ..st
            }
        } else {
            st
        }
    }
}

/// One report line applied to the parsing state. A blank, comment or
/// malformed line changes nothing; an unclassified line only records its
/// read count; a root line (taxid 1) opens a new tree position; any
/// other node walks up from the last attachment point to the nearest
/// ancestor one level above it (failing if none exists), finalizes the
/// previous node as a leaf if the new node does not descend from it,
/// repairs its rank code against that ancestor, runs level-selection
/// accounting, and is attached as the ancestor's next child.
pub open spec fn parse_step(
    st: ParseState,
    line: Seq<u8>,
    level: Seq<u8>,
    threshold: usize,
    branch: usize,
    branch_lvl: usize,
) -> ParseState {
    if st.failed {
        st
    } else if line_skipped(line) {
        st
    } else {
        match parse_report_line(line) {
            None => st,
            Some(f) => {
                let st1 = ParseState {
                    total_reads: sat_add(st.total_reads as nat, f.lvl_reads as nat) as usize,
                    ..st
                };
                if records_unclassified(f) {
                    ParseState { u_reads: f.lvl_reads, ..st1 }
                } else if f.taxid == 1 {
                    let nd = SpecNode {
                        name: f.name,
                        taxid: f.taxid,
                        level_id: f.level_id,
                        level_num: f.level_num,
                        all_reads: f.all_reads,
                        lvl_reads: f.lvl_reads,
                        children: Seq::empty(),
                        parent: None,
                    };
                    ParseState { nodes: st1.nodes.push(nd), prev: st1.nodes.len() as int, ..st1 }
                } else if st1.nodes.len() == 0 {
                    ParseState { failed: true, ..st1 }
                } else {
                    let st2 = if !(f.level_num > 0 && st1.nodes[st1.prev].level_num == f.level_num
                        - 1) {
                        ParseState { leaves: st1.leaves.push(st1.nodes[st1.prev]), ..st1 }
                    } else {
                        st1
                    };
                    let p = find_ancestor(st2.nodes, st2.prev, f.level_num);
                    if p < 0 {
                        ParseState { failed: true, ..st2 }
                    } else {
                        let corr = correct_level_id_spec(f.level_id, st2.nodes[p].level_id);
                        let nd = SpecNode {
                            name: f.name,
                            taxid: f.taxid,
                            level_id: corr.0,
                            level_num: f.level_num,
                            all_reads: f.all_reads,
                            lvl_reads: f.lvl_reads,
                            children: Seq::empty(),
                            parent: Some(p as usize),
                        };
                        let st3 = level_step(nd, corr.1, level, threshold, branch, branch_lvl, st2);
                        let idx = st3.nodes.len();
                        ParseState {
                            nodes: st3.nodes.update(
                                p,
                                SpecNode {
                                    children: st3.nodes[p].children.push(idx as usize),
                                    ..st3.nodes[p]
                                },
                            ).push(nd),
                            prev: idx as int,
                            ..st3
                        }
                    }
                }
            },
        }
    }
}

/// The parsing state after the first `upto` report lines.
pub open spec fn parse_fold(
    lines: Seq<Seq<u8>>,
    upto: int,
    init: ParseState,
    level: Seq<u8>,
    threshold: usize,
    branch: usize,
    branch_lvl: usize,
) -> ParseState
    decreases upto,
{
    if upto <= 0 {
        init
    } else {
        parse_step(
            parse_fold(lines, upto - 1, init, level, threshold, branch, branch_lvl),
            lines[upto - 1],
            level,
            threshold,
            branch,
            branch_lvl,
        )
    }
}

/// The start state, taken from the accumulators as they stand.
pub open spec fn parse_init(s: Stats) -> ParseState {
    ParseState {
        nodes: nodes_view(s.nodes@),
        leaves: nodes_view(s.leaf_nodes@),
        prev: 0,
        total_reads: s.total_reads,
        u_reads: s.u_reads,
        n_lvl_total: s.n_lvl_total,
        n_lvl_del: s.n_lvl_del,
        n_lvl_est: s.n_lvl_est,
        ignored_reads: s.ignored_reads,
        kept_reads: s.kept_reads,
        last_taxid: s.last_taxid,
        lvl: lvl_view(s.lvl_taxids.entries_view()),
        m2l: s.map2lvl_taxids.entries_view(),
        failed: false,
    }
}

/// Leaf finalization after the last line: the node whose deeper child
/// never arrived is a leaf.
pub open spec fn parse_final(st: ParseState) -> ParseState {
    if st.nodes.len() > 0 {
        ParseState { leaves: st.leaves.push(st.nodes[st.prev]), ..st }
    } else {
        st
    }
}

/// The accumulators agree with the ghost parsing state, field for field.
pub open spec fn stats_match(s: Stats, st: ParseState) -> bool {
    &&& nodes_view(s.nodes@) == st.nodes
    &&& nodes_view(s.leaf_nodes@) == st.leaves
    &&& s.total_reads == st.total_reads
    &&& s.u_reads == st.u_reads
    &&& s.n_lvl_total == st.n_lvl_total
    &&& s.n_lvl_del == st.n_lvl_del
    &&& s.n_lvl_est == st.n_lvl_est
    &&& s.ignored_reads == st.ignored_reads
    &&& s.kept_reads == st.kept_reads
    &&& s.last_taxid == st.last_taxid
    &&& lvl_view(s.lvl_taxids.entries_view()) == st.lvl
    &&& s.map2lvl_taxids.entries_view() == st.m2l
}

/// A failed parsing state stays failed under every further line.
proof fn lemma_parse_fold_failed(
    lines: Seq<Seq<u8>>,
    a: int,
    b: int,
    init: ParseState,
    level: Seq<u8>,
    threshold: usize,
    branch: usize,
    branch_lvl: usize,
)
    requires
        0 <= a <= b,
        parse_fold(lines, a, init, level, threshold, branch, branch_lvl).failed,
    ensures
        parse_fold(lines, b, init, level, threshold, branch, branch_lvl).failed,
    decreases b - a,
{
    if b > a {
        lemma_parse_fold_failed(lines, a, b - 1, init, level, threshold, branch, branch_lvl);
    }
}

/// Filing a level-table entry commutes with taking the table's view.
proof fn lemma_lvl_view_insert(s: Seq<(u32, LvlValue)>, k: u32, lv: LvlValue)
    ensures
        lvl_view(assoc_insert(s, k, lv)) == assoc_insert(
            lvl_view(s),
            k,
            (lv.0@, lv.1, lv.2, lv.3),
        ),
{
    lemma_find_idx_same_keys(s, lvl_view(s), k);
    let i = find_idx(s, k);
    if i < 0 {
        assert(lvl_view(s.push((k, lv))) =~= lvl_view(s).push((k, (lv.0@, lv.1, lv.2, lv.3))));
    } else {
        lemma_find_idx_bounds(s, k);
        assert(lvl_view(s.update(i, (k, lv))) =~= lvl_view(s).update(
            i,
            (k, (lv.0@, lv.1, lv.2, lv.3)),
        ));
    }
}

/// A field-for-field copy of a node.
pub fn clone_node(n: &Node) -> (r: Node)
    ensures
        r.name@ == n.name@,
        r.taxid == n.taxid,
        r.level_id@ == n.level_id@,
        r.level_num == n.level_num,
        r.all_reads == n.all_reads,
        r.lvl_reads == n.lvl_reads,
        r.children@ == n.children@,
        r.parent == n.parent,
{
    Node {
        name: vstd::slice::slice_to_vec(n.name.as_slice()),
        taxid: n.taxid,
        level_id: vstd::slice::slice_to_vec(n.level_id.as_slice()),
        level_num: n.level_num,
        all_reads: n.all_reads,
        lvl_reads: n.lvl_reads,
        children: vstd::slice::slice_to_vec(n.children.as_slice()),
        parent: n.parent,
    }
}

/// Whether `name` is exactly `unclassified`.
fn is_unclassified_name(name: &[u8]) -> (r: bool)
    ensures
        r == (name@ == unclassified_name()),
{
    let lit: [u8; 12] = [117, 110, 99, 108, 97, 115, 115, 105, 102, 105, 101, 100];
    proof {
        assert(lit@ =~= unclassified_name());
    }
    bytes_eq(name, lit.as_slice())
}

/// Appending a childless node whose parent is an earlier node keeps the
/// arena well-formed.
proof fn lemma_tree_wf_push(before: Seq<Node>, after: Seq<Node>, idx: usize)
    requires
        tree_wf(before),
        idx == before.len(),
        after == before.push(after[idx as int]),
        (after[idx as int].parent matches Some(q) ==> q < idx),
        after[idx as int].children@.len() == 0,
    ensures
        tree_wf(after),
{
    assert forall|a: int| 0 <= a < after.len() implies #[trigger] node_wf(after, a) by {
        if a < before.len() {
            assert(node_wf(before, a));
            assert(after[a] == before[a]);
            assert forall|c: int| 0 <= c < after[a].children@.len() implies {
                let ch = #[trigger] after[a].children@[c];
                &&& a < ch < after.len()
                &&& (after[ch as int].parent matches Some(pp) && pp == a)
                &&& after[ch as int].level_num == after[a].level_num + 1
                &&& (c > 0 ==> after[a].children@[c - 1] < ch)
            } by {
                let ch = after[a].children@[c];
                assert(before[a].children@[c] == ch);
                assert(a < ch < before.len());
                assert(after[ch as int] == before[ch as int]);
            }
        }
    }
}

/// Filing the newest node as a further child of its parent keeps the
/// arena well-formed, provided the child sits one level deeper.
#[verifier::rlimit(100)]
#[verifier::spinoff_prover]
proof fn lemma_tree_wf_attach(before: Seq<Node>, after: Seq<Node>, p: usize, idx: usize)
    requires
        tree_wf(before),
        p < idx,
        idx == before.len() - 1,
        after.len() == before.len(),
        forall|j: int| 0 <= j < before.len() && j != p ==> after[j] == before[j],
        after[p as int].children@ == before[p as int].children@.push(idx),
        after[p as int].parent == before[p as int].parent,
        after[p as int].level_num == before[p as int].level_num,
        before[idx as int].parent == Some(p),
        before[idx as int].children@.len() == 0,
        before[idx as int].level_num == before[p as int].level_num + 1,
        forall|c: int| 0 <= c < before[p as int].children@.len() ==> (
        #[trigger] before[p as int].children@[c]) < idx,
    ensures
        tree_wf(after),
{
    assert forall|a: int| 0 <= a < after.len() implies #[trigger] node_wf(after, a) by {
        assert(node_wf(before, a));
        assert(after[a].parent == before[a].parent);
        assert forall|c: int| 0 <= c < after[a].children@.len() implies {
            let ch = #[trigger] after[a].children@[c];
            &&& a < ch < after.len()
            &&& (after[ch as int].parent matches Some(pp) && pp == a)
            &&& after[ch as int].level_num == after[a].level_num + 1
            &&& (c > 0 ==> after[a].children@[c - 1] < ch)
        } by {
            let ch = after[a].children@[c];
            if a == p {
                if c < before[p as int].children@.len() {
                    assert(before[a].children@[c] == ch);
                    assert(a < ch < before.len() && ch != p);
                    assert(after[ch as int] == before[ch as int]);
                    if c > 0 {
                        assert(after[a].children@[c - 1] == before[a].children@[c - 1]);
                    }
                } else {
                    assert(c == before[p as int].children@.len());
                    assert(after[p as int].children@[c] == idx);
                    assert(after[idx as int] == before[idx as int]);
                    if c > 0 {
                        assert(after[a].children@[c - 1] == before[a].children@[c - 1]);
                        assert(before[p as int].children@[c - 1] < idx);
                    }
                }
            } else {
                assert(after[a] == before[a]);
                assert(before[a].children@[c] == ch);
                if ch == p {
                    assert(after[ch as int].parent == before[ch as int].parent);
                    assert(after[ch as int].level_num == before[ch as int].level_num);
                } else {
                    assert(after[ch as int] == before[ch as int]);
                }
            }
        }
    }
}

/// One forward pass over the report lines: builds the explicit tree,
/// repairing rank gaps, running level-selection accounting per node, and
/// finalizing as leaves the nodes whose deeper child never arrives.
/// Blank, comment and malformed lines are skipped; an unclassified line
/// only records its read count. The whole resulting state — tree,
/// leaves, counters and level-selection tables — is exactly the fold of
/// the per-line rule over the lines. Fails, if and only if the fold
/// does (leaving a well-formed partial tree), when a node's required
/// parent cannot be found: a corrupt or out-of-order report.
#[verifier::rlimit(100)]
pub fn parse_kraken_report(
    lines: &Vec<Vec<u8>>,
    level: &[u8],
    threshold: usize,
    branch: usize,
    branch_lvl: usize,
    stats: &mut Stats,
) -> (r: Result<(), &'static str>)
    requires
        old(stats).nodes@.len() == 0,
    ensures
        tree_wf(final(stats).nodes@),
        ({
            let fin = parse_fold(
                lines@.map_values(|l: Vec<u8>| l@),
                lines@.len() as int,
                parse_init(*old(stats)),
                level@,
                threshold,
                branch,
                branch_lvl,
            );
            &&& (r is Ok <==> !fin.failed)
            &&& (r is Ok ==> stats_match(*final(stats), parse_final(fin)))
        }),
        r is Ok ==> final(stats).total_reads == spec_total_reads(
            lines@.map_values(|l: Vec<u8>| l@),
            lines@.len() as int,
            old(stats).total_reads as nat,
        ),
        r is Ok ==> final(stats).u_reads == spec_u_reads(
            lines@.map_values(|l: Vec<u8>| l@),
            lines@.len() as int,
            old(stats).u_reads as nat,
        ),
{
    let ghost lv = lines@.map_values(|l: Vec<u8>| l@);
    let ghost init = parse_init(*stats);
    let n = lines.len();
    let mut prev_node_index: usize = 0;
    let mut i: usize = 0;
    while i < n
        invariant
            i <= n,
            n == lines@.len(),
            lv == lines@.map_values(|l: Vec<u8>| l@),
            init == parse_init(*old(stats)),
            tree_wf(stats.nodes@),
            stats.nodes@.len() > 0 ==> prev_node_index < stats.nodes@.len(),
            stats.nodes@.len() == 0 ==> prev_node_index == 0,
            stats.total_reads == spec_total_reads(lv, i as int, old(stats).total_reads as nat),
            stats.u_reads == spec_u_reads(lv, i as int, old(stats).u_reads as nat),
            ({
                let st = parse_fold(lv, i as int, init, level@, threshold, branch, branch_lvl);
                &&& !st.failed
                &&& stats_match(*stats, st)
                &&& prev_node_index as int == st.prev
            }),
        decreases n - i,
    {
        let ghost st = parse_fold(lv, i as int, init, level@, threshold, branch, branch_lvl);
        let ghost st_next = parse_fold(lv, i + 1, init, level@, threshold, branch, branch_lvl);
        proof {
            assert(st_next == parse_step(st, lv[i as int], level@, threshold, branch, branch_lvl));
        }
        let line = &lines[i];
        proof {
            assert(lv[i as int] == lines@[i as int]@);
        }
        if line.len() == 0 || line[0] == 35 || line[0] == 37 {
            i += 1;
            continue;
        }
        let mut node = match Node::from_str(line.as_slice()) {
            Ok(nd) => nd,
            Err(_) => {
                i += 1;
                continue;
            },
        };
        let ghost f = parse_report_line(lv[i as int])->Some_0;
        stats.total_reads = sat_add_usize(stats.total_reads, node.lvl_reads);
        let ghost st1 = ParseState { total_reads: stats.total_reads, ..st };
        let is_u_level = bytes_eq(node.level_id.as_slice(), &[85u8]);
        proof {
            assert((&[85u8])@ =~= seq![85u8]);
        }
        if is_u_level || is_unclassified_name(node.name.as_slice()) {
            stats.u_reads = node.lvl_reads;
            proof {
                assert(records_unclassified(f));
                assert(st_next == ParseState { u_reads: f.lvl_reads, ..st1 });
            }
            i += 1;
            continue;
        }
        if node.taxid == 1 {
            let idx = stats.nodes.len();
            let ghost before = stats.nodes@;
            stats.nodes.push(node);
            proof {
                lemma_tree_wf_push(before, stats.nodes@, idx);
                assert(nodes_view(stats.nodes@) =~= nodes_view(before).push(node_view(node)));
                assert(node_view(node) == st_next.nodes.last());
                assert(nodes_view(stats.nodes@) =~= st_next.nodes);
            }
            prev_node_index = idx;
            i += 1;
            continue;
        }
        if stats.nodes.len() == 0 {
            proof {
                assert(st_next.failed);
                lemma_parse_fold_failed(
                    lv,
                    i + 1,
                    lv.len() as int,
                    init,
                    level@,
                    threshold,
                    branch,
                    branch_lvl,
                );
            }
            return Err("node has no parent");
        }
        let mut p = prev_node_index;
        if !(node.level_num > 0 && stats.nodes[p].level_num == node.level_num - 1) {
            let leaf = clone_node(&stats.nodes[p]);
            stats.leaf_nodes.push(leaf);
            proof {
                assert(node_view(leaf) == st1.nodes[st1.prev]);
                assert(nodes_view(stats.leaf_nodes@) =~= st1.leaves.push(st1.nodes[st1.prev]));
            }
        }
        let ghost st2 = if !(f.level_num > 0 && st1.nodes[st1.prev].level_num == f.level_num - 1) {
            ParseState { leaves: st1.leaves.push(st1.nodes[st1.prev]), ..st1 }
        } else {
            st1
        };
        let ghost sw = *stats;
        proof {
            assert(st2.nodes == st.nodes);
            assert(st2.prev == st.prev);
        }
        let mut found: bool = true;
        loop
            invariant_except_break
                found,
                p < stats.nodes@.len(),
                tree_wf(stats.nodes@),
                *stats == sw,
                nodes_view(stats.nodes@) == st2.nodes,
                find_ancestor(st2.nodes, st2.prev, f.level_num) == find_ancestor(
                    st2.nodes,
                    p as int,
                    f.level_num,
                ),
                node.level_num == f.level_num,
            ensures
                p < stats.nodes@.len(),
                tree_wf(stats.nodes@),
                *stats == sw,
                found ==> node.level_num > 0 && stats.nodes@[p as int].level_num == node.level_num
                    - 1,
                found ==> find_ancestor(st2.nodes, st2.prev, f.level_num) == p as int,
                !found ==> find_ancestor(st2.nodes, st2.prev, f.level_num) == -1,
            decreases p,
        {
            if node.level_num > 0 && stats.nodes[p].level_num == node.level_num - 1 {
                proof {
                    assert(st2.nodes[p as int] == node_view(stats.nodes@[p as int]));
                    assert(find_ancestor(st2.nodes, p as int, f.level_num) == p as int);
                }
                break;
            }
            proof {
                assert(node_wf(stats.nodes@, p as int));
                assert(st2.nodes[p as int] == node_view(stats.nodes@[p as int]));
            }
            match stats.nodes[p].parent {
                Some(pp) => {
                    proof {
                        assert(find_ancestor(st2.nodes, p as int, f.level_num) == find_ancestor(
                            st2.nodes,
                            pp as int,
                            f.level_num,
                        ));
                    }
                    p = pp;
                },
                None => {
                    proof {
                        assert(find_ancestor(st2.nodes, p as int, f.level_num) == -1);
                    }
                    found = false;
                    break;
                },
            }
        }
        if !found {
            proof {
                assert(st_next.failed);
                lemma_parse_fold_failed(
                    lv,
                    i + 1,
                    lv.len() as int,
                    init,
                    level@,
                    threshold,
                    branch,
                    branch_lvl,
                );
            }
            return Err("node has no parent");
        }
        let ghost pa = find_ancestor(st2.nodes, st2.prev, f.level_num);
        let ghost corr = correct_level_id_spec(f.level_id, st2.nodes[pa].level_id);
        let corrected = correct_level_id(&node, &stats.nodes[p]);
        let test_branch = corrected.1;
        node.level_id = corrected.0;
        proof {
            assert(st2.nodes[pa] == node_view(stats.nodes@[pa]));
            assert((corrected.0@, test_branch as int) == corr);
        }
        let ghost nd = SpecNode {
            name: f.name,
            taxid: f.taxid,
            level_id: corr.0,
            level_num: f.level_num,
            all_reads: f.all_reads,
            lvl_reads: f.lvl_reads,
            children: Seq::empty(),
            parent: Some(pa as usize),
        };
        let ghost st3 = level_step(nd, corr.1, level@, threshold, branch, branch_lvl, st2);
        let ghost lvl_before = stats.lvl_taxids.entries_view();
        abundance_est(&node, level, threshold, test_branch, branch, branch_lvl, stats);
        proof {
            if node.level_id@ == level@ && !(node.all_reads < threshold) {
                let lvx = choose|lvx: LvlValue|
                    lvx.0@ == node.name@ && lvx.1 == node.all_reads && lvx.2 == node.lvl_reads
                        && lvx.3 == 0 && stats.lvl_taxids.entries_view() == assoc_insert(
                        lvl_before,
                        node.taxid,
                        lvx,
                    );
                lemma_lvl_view_insert(lvl_before, node.taxid, lvx);
            }
            assert(lvl_view(stats.lvl_taxids.entries_view()) == st3.lvl);
            assert(stats.map2lvl_taxids.entries_view() == st3.m2l);
        }
        node.parent = Some(p);
        let idx = stats.nodes.len();
        let ghost before = stats.nodes@;
        stats.nodes.push(node);
        let ghost with_new = stats.nodes@;
        stats.nodes[p].children.push(idx);
        proof {
            lemma_tree_wf_push(before, with_new, idx);
            assert(with_new[p as int] == before[p as int]);
            assert(node_wf(before, p as int));
            assert forall|c: int| 0 <= c < with_new[p as int].children@.len() implies (
            #[trigger] with_new[p as int].children@[c]) < idx by {
                assert(before[p as int].children@[c] < before.len());
            }
            lemma_tree_wf_attach(with_new, stats.nodes@, p, idx);
            let target = st3.nodes.update(
                pa,
                SpecNode { children: st3.nodes[pa].children.push(idx), ..st3.nodes[pa] },
            ).push(nd);
            assert(node_view(node) == nd);
            assert forall|j: int| 0 <= j < nodes_view(stats.nodes@).len() implies nodes_view(
                stats.nodes@,
            )[j] == target[j] by {
                if j == idx {
                    assert(stats.nodes@[j] == node);
                } else if j == pa {
                    assert(st3.nodes[pa] == node_view(before[pa]));
                    assert(stats.nodes@[j].children@ == before[pa].children@.push(idx));
                    assert(stats.nodes@[j].name == before[pa].name);
                    assert(stats.nodes@[j].taxid == before[pa].taxid);
                    assert(stats.nodes@[j].level_id == before[pa].level_id);
                    assert(stats.nodes@[j].level_num == before[pa].level_num);
                    assert(stats.nodes@[j].all_reads == before[pa].all_reads);
                    assert(stats.nodes@[j].lvl_reads == before[pa].lvl_reads);
                    assert(stats.nodes@[j].parent == before[pa].parent);
                } else {
                    assert(stats.nodes@[j] == before[j]);
                    assert(nodes_view(before)[j] == st3.nodes[j]);
                }
            }
            assert(nodes_view(stats.nodes@) =~= target);
            assert(nodes_view(stats.nodes@) == st_next.nodes);
        }
        prev_node_index = idx;
        i += 1;
    }
    let ghost fin = parse_fold(lv, n as int, init, level@, threshold, branch, branch_lvl);
    if stats.nodes.len() > 0 {
        let leaf = clone_node(&stats.nodes[prev_node_index]);
        stats.leaf_nodes.push(leaf);
        proof {
            assert(node_view(leaf) == fin.nodes[fin.prev]);
            assert(nodes_view(stats.leaf_nodes@) =~= fin.leaves.push(fin.nodes[fin.prev]));
        }
    }
    Ok(())
}

/// One `genome:matched:total` triple of the k-mer distribution table.
/// The two counts are kept as an exact integer pair; their quotient is
/// the fraction of the genome's k-mers expected at the mapped taxon.
pub open spec fn parse_genome_item(item: Seq<u8>) -> Option<(u32, u32, u32)> {
    let parts = split_spec(item, seq![58u8]);
    if parts.len() != 3 {
        None
    } else if is_numeral(parts[0]) && numeral_value(parts[0]) <= u32::MAX && is_numeral(parts[1])
        && numeral_value(parts[1]) <= u32::MAX && is_numeral(parts[2]) && numeral_value(parts[2])
        <= u32::MAX {
        Some(
            (
                numeral_value(parts[0]) as u32,
                numeral_value(parts[1]) as u32,
                numeral_value(parts[2]) as u32,
            ),
        )
    } else {
        None
    }
}

/// The genome-to-fractions entries collected from `items`, keeping only
/// genomes present in the level table or the redistribution table; each
/// further fraction for a genome is appended to its list.
pub open spec fn kmer_entries_spec(
    items: Seq<Seq<u8>>,
    upto: int,
    lvl: Seq<(u32, LvlValue)>,
    m2l: Seq<(u32, Map2LvlValue)>,
) -> Seq<(u32, Seq<(u32, u32)>)>
    decreases upto,
{
    if upto <= 0 {
        Seq::empty()
    } else {
        let prev = kmer_entries_spec(items, upto - 1, lvl, m2l);
        match parse_genome_item(items[upto - 1]) {
            Some(g) => {
                if find_idx(lvl, g.0) >= 0 || find_idx(m2l, g.0) >= 0 {
                    if find_idx(prev, g.0) < 0 {
                        prev.push((g.0, seq![(g.1, g.2)]))
                    } else {
                        let i = find_idx(prev, g.0);
                        prev.update(i, (g.0, prev[i].1.push((g.1, g.2))))
                    }
                } else {
                    prev
                }
            },
            None => prev,
        }
    }
}

/// Two entry sequences with the same keys in the same order are indexed
/// alike.
pub proof fn lemma_find_idx_same_keys<V, W>(s: Seq<(u32, V)>, t: Seq<(u32, W)>, k: u32)
    requires
        s.len() == t.len(),
        forall|i: int| 0 <= i < s.len() ==> (#[trigger] s[i]).0 == t[i].0,
    ensures
        find_idx(s, k) == find_idx(t, k),
    decreases s.len(),
{
    if s.len() > 0 && s[0].0 != k {
        lemma_find_idx_same_keys(s.skip(1), t.skip(1), k);
    }
}

/// A genome's fraction lists, insertion-ordered, viewed as the sequence
/// of `(genome, fractions)` pairs.
pub struct FracMap {
    entries: Vec<(u32, Vec<(u32, u32)>)>,
}

impl View for FracMap {
    type V = Seq<(u32, Seq<(u32, u32)>)>;

    closed spec fn view(&self) -> Seq<(u32, Seq<(u32, u32)>)> {
        self.entries@.map_values(|e: (u32, Vec<(u32, u32)>)| (e.0, e.1@))
    }
}

impl FracMap {
    pub fn new() -> (r: Self)
        ensures
            r@ == Seq::<(u32, Seq<(u32, u32)>)>::empty(),
    {
        let r = FracMap { entries: Vec::new() };
        proof {
            assert(r@ =~= Seq::<(u32, Seq<(u32, u32)>)>::empty());
        }
        r
    }

    pub fn len(&self) -> (r: usize)
        ensures
            r == self@.len(),
    {
        self.entries.len()
    }

    pub fn entry_at(&self, i: usize) -> (r: (u32, &Vec<(u32, u32)>))
        requires
            i < self@.len(),
        ensures
            r.0 == self@[i as int].0,
            r.1@ == self@[i as int].1,
    {
        let e = &self.entries[i];
        (e.0, &e.1)
    }

    pub fn get(&self, k: u32) -> (r: Option<&Vec<(u32, u32)>>)
        ensures
            match r {
                Some(v) => find_idx(self@, k) >= 0 && v@ == self@[find_idx(self@, k)].1,
                None => find_idx(self@, k) == -1,
            },
    {
        let n = self.entries.len();
        let mut i: usize = 0;
        while i < n
            invariant
                i <= n,
                n == self.entries@.len(),
                forall|j: int| 0 <= j < i ==> (#[trigger] self.entries@[j]).0 != k,
            decreases n - i,
        {
            if self.entries[i].0 == k {
                proof {
                    lemma_find_idx_at(self.entries@, k, i as int);
                    lemma_find_idx_same_keys(self.entries@, self@, k);
                }
                return Some(&self.entries[i].1);
            }
            i += 1;
        }
        proof {
            lemma_find_idx_at(self.entries@, k, n as int);
            lemma_find_idx_same_keys(self.entries@, self@, k);
        }
        None
    }

    /// Appends fraction `v` to genome `k`'s list, opening the list if `k`
    /// is new.
    pub fn push_frac(&mut self, k: u32, v: (u32, u32))
        ensures
            final(self)@ == if find_idx(old(self)@, k) < 0 {
                old(self)@.push((k, seq![v]))
            } else {
                old(self)@.update(
                    find_idx(old(self)@, k),
                    (k, old(self)@[find_idx(old(self)@, k)].1.push(v)),
                )
            },
    {
        let n = self.entries.len();
        let mut i: usize = 0;
        while i < n
            invariant
                i <= n,
                *self == *old(self),
                n == self.entries@.len(),
                forall|j: int| 0 <= j < i ==> (#[trigger] self.entries@[j]).0 != k,
            decreases n - i,
        {
            if self.entries[i].0 == k {
                proof {
                    lemma_find_idx_at(self.entries@, k, i as int);
                    lemma_find_idx_same_keys(self.entries@, self@, k);
                }
                let ghost i0 = i as int;
                let ghost before = self@;
                let ghost bentries = self.entries@;
                self.entries[i].1.push(v);
                proof {
                    let target = before.update(i0, (k, before[i0].1.push(v)));
                    assert forall|j: int| 0 <= j < self@.len() implies self@[j] == target[j] by {
                        if j != i0 {
                            assert(self.entries@[j] == bentries[j]);
                        } else {
                            assert(self.entries@[j].0 == k);
                            assert(self.entries@[j].1@ == bentries[j].1@.push(v));
                            assert(before[i0].1 == bentries[i0].1@);
                        }
                    }
                    assert(self@ =~= target);
                }
                return ;
            }
            i += 1;
        }
        proof {
            lemma_find_idx_at(self.entries@, k, n as int);
            lemma_find_idx_same_keys(self.entries@, self@, k);
        }
        let ghost before = self@;
        let mut fresh: Vec<(u32, u32)> = Vec::new();
        fresh.push(v);
        self.entries.push((k, fresh));
        proof {
            assert(self@ =~= before.push((k, seq![v])));
        }
    }
}

/// Parses one `genome:matched:total` triple.
fn parse_genome_item_exec(item: &[u8]) -> (r: Option<(u32, u32, u32)>)
    ensures
        r == parse_genome_item(item@),
{
    let parts = split_pat(item, &[58u8]);
    proof {
        assert((&[58u8])@ =~= seq![58u8]);
    }
    if parts.len() != 3 {
        return None;
    }
    let ghost pv = parts@.map_values(|v: Vec<u8>| v@);
    proof {
        assert(pv[0] == parts@[0]@);
        assert(pv[1] == parts@[1]@);
        assert(pv[2] == parts@[2]@);
    }
    let g = match parse_u32(parts[0].as_slice()) {
        Some(v) => v,
        None => { return None; },
    };
    let m = match parse_u32(parts[1].as_slice()) {
        Some(v) => v,
        None => { return None; },
    };
    let t = match parse_u32(parts[2].as_slice()) {
        Some(v) => v,
        None => { return None; },
    };
    Some((g, m, t))
}

/// Splits one k-mer distribution line into its mapped taxid and the
/// fraction entries of the genomes that level selection kept: each
/// `genome:matched:total` triple whose genome is in the level table or
/// the redistribution table contributes the exact pair
/// `(matched, total)`. A line whose leading taxid is not numeric is
/// rejected; malformed triples are skipped.
pub fn process_kmer_distribution(curr_str: &[u8], stats: &Stats) -> (r: Option<(u32, FracMap)>)
    ensures
        ({
            let fields = split_spec(trim_spec(curr_str@), seq![9u8]);
            match r {
                Some(pair) => {
                    &&& is_numeral(fields[0]) && numeral_value(fields[0]) <= u32::MAX
                    &&& pair.0 == numeral_value(fields[0]) as u32
                    &&& pair.1@ == if fields.len() > 1 {
                        let items = split_spec(fields[1], seq![32u8]);
                        kmer_entries_spec(
                            items,
                            items.len() as int,
                            stats.lvl_taxids.entries_view(),
                            stats.map2lvl_taxids.entries_view(),
                        )
                    } else {
                        Seq::<(u32, Seq<(u32, u32)>)>::empty()
                    }
                },
                None => !(is_numeral(fields[0]) && numeral_value(fields[0]) <= u32::MAX),
            }
        }),
{
    let trimmed = trim(curr_str);
    let split_str = split_pat(trimmed, &[9u8]);
    proof {
        assert((&[9u8])@ =~= seq![9u8]);
        assert(split_str@.map_values(|v: Vec<u8>| v@)[0] == split_str@[0]@);
    }
    let mapped_taxid = match parse_u32(split_str[0].as_slice()) {
        Some(v) => v,
        None => { return None; },
    };
    let mut temp_dict = FracMap::new();
    if split_str.len() > 1 {
        proof {
            assert(split_str@.map_values(|v: Vec<u8>| v@)[1] == split_str@[1]@);
        }
        let items = split_pat(split_str[1].as_slice(), &[32u8]);
        proof {
            assert((&[32u8])@ =~= seq![32u8]);
        }
        let ghost iv = items@.map_values(|v: Vec<u8>| v@);
        let n_items = items.len();
        let mut j: usize = 0;
        while j < n_items
            invariant
                j <= n_items,
                n_items == items@.len(),
                iv == items@.map_values(|v: Vec<u8>| v@),
                temp_dict@ == kmer_entries_spec(
                    iv,
                    j as int,
                    stats.lvl_taxids.entries_view(),
                    stats.map2lvl_taxids.entries_view(),
                ),
            decreases n_items - j,
        {
            proof {
                assert(iv[j as int] == items@[j as int]@);
            }
            match parse_genome_item_exec(items[j].as_slice()) {
                Some(g) => {
                    if stats.lvl_taxids.contains_key(g.0) || stats.map2lvl_taxids.contains_key(
                        g.0,
                    ) {
                        temp_dict.push_frac(g.0, (g.1, g.2));
                    }
                },
                None => {},
            }
            j += 1;
        }
    }
    Some((mapped_taxid, temp_dict))
}

/// The distribution table built from all lines after the header, viewed
/// as insertion-ordered `(mapped taxid, genome entries)` pairs; lines
/// with no kept genome are left out.
pub open spec fn kmer_distr_spec(
    lines: Seq<Seq<u8>>,
    upto: int,
    lvl: Seq<(u32, LvlValue)>,
    m2l: Seq<(u32, Map2LvlValue)>,
) -> Seq<(u32, Seq<(u32, Seq<(u32, u32)>)>)>
    decreases upto,
{
    if upto <= 1 {
        Seq::empty()
    } else {
        let prev = kmer_distr_spec(lines, upto - 1, lvl, m2l);
        let fields = split_spec(trim_spec(lines[upto - 1]), seq![9u8]);
        if is_numeral(fields[0]) && numeral_value(fields[0]) <= u32::MAX {
            let mapped = numeral_value(fields[0]) as u32;
            let entries = if fields.len() > 1 {
                let items = split_spec(fields[1], seq![32u8]);
                kmer_entries_spec(items, items.len() as int, lvl, m2l)
            } else {
                Seq::<(u32, Seq<(u32, u32)>)>::empty()
            };
            if entries.len() > 0 {
                assoc_insert(prev, mapped, entries)
            } else {
                prev
            }
        } else {
            prev
        }
    }
}

/// The view of a distribution map's entries.
pub open spec fn distr_view(entries: Seq<(u32, FracMap)>) -> Seq<(u32, Seq<(u32, Seq<(u32, u32)>)>)> {
    entries.map_values(|e: (u32, FracMap)| (e.0, e.1@))
}

/// Reads the per-taxon k-mer distribution table: one line per mapped
/// taxid after the header row, each carrying `genome:matched:total`
/// triples. Lines without a numeric taxid and entries naming no kept
/// genome are dropped.
pub fn read_kmer_distribution(lines: &Vec<Vec<u8>>, stats: &Stats) -> (r: TaxMap<FracMap>)
    ensures
        distr_view(r.entries_view()) == kmer_distr_spec(
            lines@.map_values(|l: Vec<u8>| l@),
            lines@.len() as int,
            stats.lvl_taxids.entries_view(),
            stats.map2lvl_taxids.entries_view(),
        ),
{
    let ghost lv = lines@.map_values(|l: Vec<u8>| l@);
    let mut kmer_distr: TaxMap<FracMap> = TaxMap::new();
    let n = lines.len();
    let mut i: usize = 1;
    proof {
        assert(distr_view(kmer_distr.entries_view()) =~= kmer_distr_spec(
            lv,
            1int,
            stats.lvl_taxids.entries_view(),
            stats.map2lvl_taxids.entries_view(),
        ));
        if n == 0 {
            assert(kmer_distr_spec(
                lv,
                0int,
                stats.lvl_taxids.entries_view(),
                stats.map2lvl_taxids.entries_view(),
            ) =~= Seq::<(u32, Seq<(u32, Seq<(u32, u32)>)>)>::empty());
        }
    }
    if n == 0 {
        return kmer_distr;
    }
    while i < n
        invariant
            1 <= i <= n,
            n == lines@.len(),
            lv == lines@.map_values(|l: Vec<u8>| l@),
            distr_view(kmer_distr.entries_view()) == kmer_distr_spec(
                lv,
                i as int,
                stats.lvl_taxids.entries_view(),
                stats.map2lvl_taxids.entries_view(),
            ),
        decreases n - i,
    {
        proof {
            assert(lv[i as int] == lines@[i as int]@);
        }
        match process_kmer_distribution(lines[i].as_slice(), stats) {
            Some(pair) => {
                let mapped_taxid = pair.0;
                let mapped_dict = pair.1;
                if mapped_dict.len() > 0 {
                    let ghost before = kmer_distr.entries_view();
                    let ghost dict_view = mapped_dict@;
                    kmer_distr.insert(mapped_taxid, mapped_dict);
                    proof {
                        lemma_find_idx_same_keys(before, distr_view(before), mapped_taxid);
                        let fi = find_idx(distr_view(before), mapped_taxid);
                        if fi < 0 {
                            assert(distr_view(kmer_distr.entries_view()) =~= distr_view(
                                before,
                            ).push((mapped_taxid, dict_view)));
                        } else {
                            lemma_find_idx_bounds(before, mapped_taxid);
                            assert(distr_view(kmer_distr.entries_view()) =~= distr_view(
                                before,
                            ).update(fi, (mapped_taxid, dict_view)));
                        }
                    }
                }
            },
            None => {},
        }
        i += 1;
    }
    kmer_distr
}

/// Scale applied to fraction weights so that integer division keeps
/// precision: about six decimal digits, as single-precision floats would.
pub open spec fn weight_scale() -> nat {
    1048576
}

/// The genome's own k-mer self-fraction `(matched, total)`: the first
/// fraction filed under `kmer_distr[g][g]`, or 1/1 when unknown.
pub open spec fn self_fraction_spec(
    g: u32,
    kd: Seq<(u32, Seq<(u32, Seq<(u32, u32)>)>)>,
) -> (u32, u32) {
    let i = find_idx(kd, g);
    if i >= 0 {
        let j = find_idx(kd[i].1, g);
        if j >= 0 && kd[i].1[j].1.len() > 0 {
            kd[i].1[j].1[0]
        } else {
            (1u32, 1u32)
        }
    } else {
        (1u32, 1u32)
    }
}

/// Estimated total reads of genome `g`: its uniquely classified reads
/// divided by its self-fraction, truncated, and saturated at
/// `usize::MAX`. A genome with no redistribution record estimates 0.
pub open spec fn est_genome_reads_spec(
    g: u32,
    m2l: Seq<(u32, Map2LvlValue)>,
    kd: Seq<(u32, Seq<(u32, Seq<(u32, u32)>)>)>,
) -> nat {
    let mi = find_idx(m2l, g);
    if mi < 0 {
        0
    } else {
        let num = m2l[mi].1.1 as nat;
        let sf = self_fraction_spec(g, kd);
        if sf.0 == 0 {
            if num == 0 {
                0
            } else {
                usize::MAX as nat
            }
        } else {
            let est = (num * (sf.1 as nat)) / (sf.0 as nat);
            if est > usize::MAX {
                usize::MAX as nat
            } else {
                est
            }
        }
    }
}

/// The unnormalized posterior weight of one genome entry at a node:
/// its k-mer fraction here times its estimated reads, scaled, and
/// saturated at `u64::MAX`. An entry with no fraction, or a zero
/// denominator, weighs nothing.
pub open spec fn genome_weight_spec(
    entry: (u32, Seq<(u32, u32)>),
    m2l: Seq<(u32, Map2LvlValue)>,
    kd: Seq<(u32, Seq<(u32, Seq<(u32, u32)>)>)>,
) -> nat {
    if entry.1.len() == 0 || entry.1[0].1 == 0 {
        0
    } else {
        let est = est_genome_reads_spec(entry.0, m2l, kd);
        let w = ((entry.1[0].0 as nat) * est * weight_scale()) / (entry.1[0].1 as nat);
        if w > u64::MAX {
            u64::MAX as nat
        } else {
            w
        }
    }
}

/// The weights of all genome entries at a node, in entry order.
pub open spec fn node_weights(
    e: Seq<(u32, Seq<(u32, u32)>)>,
    m2l: Seq<(u32, Map2LvlValue)>,
    kd: Seq<(u32, Seq<(u32, Seq<(u32, u32)>)>)>,
) -> Seq<nat> {
    e.map_values(|entry: (u32, Seq<(u32, u32)>)| genome_weight_spec(entry, m2l, kd))
}

/// Sum of a sequence of naturals.
pub open spec fn sum_nat(ws: Seq<nat>) -> nat
    decreases ws.len(),
{
    if ws.len() == 0 {
        0
    } else {
        sum_nat(ws.drop_last()) + ws.last()
    }
}

/// Sum of the truncated shares `(r * w) / total` over the weights.
pub open spec fn adds_sum(ws: Seq<nat>, r: nat, total: nat) -> nat
    decreases ws.len(),
{
    if ws.len() == 0 {
        0
    } else {
        adds_sum(ws.drop_last(), r, total) + (r * ws.last()) / total
    }
}

/// `x/c + y/c <= (x+y)/c <= x/c + y/c + 1` for nonnegative numerators.
proof fn lemma_div_superadd(x: int, y: int, c: int)
    requires
        x >= 0,
        y >= 0,
        c > 0,
    ensures
        x / c + y / c <= (x + y) / c <= x / c + y / c + 1,
{
    vstd::arithmetic::div_mod::lemma_fundamental_div_mod(x, c);
    vstd::arithmetic::div_mod::lemma_fundamental_div_mod(y, c);
    vstd::arithmetic::div_mod::lemma_fundamental_div_mod(x + y, c);
    assert(0 <= x % c < c && 0 <= y % c < c && 0 <= (x + y) % c < c) by {
        broadcast use vstd::arithmetic::div_mod::lemma_mod_division_less_than_divisor;

    }
    let qx = x / c;
    let qy = y / c;
    let q = (x + y) / c;
    assert(qx + qy <= q <= qx + qy + 1) by (nonlinear_arith)
        requires
            c > 0,
            x == c * qx + x % c,
            y == c * qy + y % c,
            x + y == c * q + (x + y) % c,
            0 <= x % c < c,
            0 <= y % c < c,
            0 <= (x + y) % c < c,
    ;
}

/// Conservation of redistribution: with positive total weight, the
/// truncated shares of `r` reads over any weights sum to at most `r` and
/// to more than `r` less the number of genomes: integer truncation loses
/// at most one read per genome and invents none.
pub proof fn lemma_redistribution_conserves(ws: Seq<nat>, r: nat)
    requires
        sum_nat(ws) > 0,
    ensures
        adds_sum(ws, r, sum_nat(ws)) <= r,
        r < adds_sum(ws, r, sum_nat(ws)) + ws.len() + 1,
{
    let total = sum_nat(ws);
    lemma_adds_sum_bounds(ws, r, total as int);
    assert((r * sum_nat(ws)) as int / (total as int) == r) by {
        broadcast use vstd::arithmetic::div_mod::lemma_div_multiples_vanish;

        assert((r * total) as int == (total as int) * (r as int)) by (nonlinear_arith);
    }
}

/// Partial-sum bounds behind the conservation law.
proof fn lemma_adds_sum_bounds(ws: Seq<nat>, r: nat, c: int)
    requires
        c > 0,
    ensures
        adds_sum(ws, r, c as nat) <= (r * sum_nat(ws)) as int / c,
        (r * sum_nat(ws)) as int / c <= adds_sum(ws, r, c as nat) + ws.len(),
    decreases ws.len(),
{
    if ws.len() == 0 {
        assert(sum_nat(ws) == 0);
        assert(r * 0 == 0) by (nonlinear_arith);
        assert(0int / c == 0) by {
            vstd::arithmetic::div_mod::lemma_div_of0(c);
        }
    } else {
        lemma_adds_sum_bounds(ws.drop_last(), r, c);
        let a = (r * sum_nat(ws.drop_last())) as int;
        let b = (r * ws.last()) as int;
        lemma_div_superadd(a, b, c);
        assert(sum_nat(ws) == sum_nat(ws.drop_last()) + ws.last());
        assert(a + b == (r * sum_nat(ws)) as int) by (nonlinear_arith)
            requires
                sum_nat(ws) == sum_nat(ws.drop_last()) + ws.last(),
                a == (r * sum_nat(ws.drop_last())) as int,
                b == (r * ws.last()) as int,
        ;
    }
}

/// The per-genome share of a node's reads, as redistribution assigns it.
pub open spec fn add_reads_spec(r: nat, w: nat, total: nat) -> nat {
    if total == 0 {
        0
    } else {
        (r * w) / total
    }
}

/// Computes each genome's redistribution share of `lvl_reads` reads
/// classified at a node: weights are the genomes' k-mer fractions here
/// times their estimated read totals, and each genome receives the
/// truncated proportional share. With zero total weight nothing is
/// assigned.
pub fn distribute_node(
    lvl_reads: usize,
    curr_dict: &FracMap,
    kmer_distr: &TaxMap<FracMap>,
    map2lvl: &TaxMap<Map2LvlValue>,
) -> (adds: Vec<(u32, usize)>)
    ensures
        adds@.len() == curr_dict@.len(),
        forall|i: int| 0 <= i < adds@.len() ==> {
            let ws = node_weights(
                curr_dict@,
                map2lvl.entries_view(),
                distr_view(kmer_distr.entries_view()),
            );
            &&& (#[trigger] adds@[i]).0 == curr_dict@[i].0
            &&& adds@[i].1 == add_reads_spec(lvl_reads as nat, ws[i], sum_nat(ws))
        },
{
    let ghost m2l = map2lvl.entries_view();
    let ghost kd = distr_view(kmer_distr.entries_view());
    let ghost ws = node_weights(curr_dict@, m2l, kd);
    let n = curr_dict.len();
    let mut weights: Vec<u64> = Vec::new();
    let mut total: u128 = 0;
    let mut i: usize = 0;
    while i < n
        invariant
            i <= n,
            n == curr_dict@.len(),
            m2l == map2lvl.entries_view(),
            kd == distr_view(kmer_distr.entries_view()),
            ws == node_weights(curr_dict@, m2l, kd),
            weights@.len() == i,
            forall|j: int| 0 <= j < i ==> (#[trigger] weights@[j]) as nat == ws[j],
            total == sum_nat(ws.take(i as int)),
            total <= i * (u64::MAX as nat),
        decreases n - i,
    {
        let entry = curr_dict.entry_at(i);
        let g = entry.0;
        let w: u64 = if entry.1.len() == 0 || entry.1[0].1 == 0 {
            0
        } else {
            let fm = entry.1[0].0;
            let ft = entry.1[0].1;
            let est: u128 = {
                let mi = map2lvl.get(g);
                match mi {
                    None => 0,
                    Some(v) => {
                        let num = v.1 as u128;
                        let sf = self_fraction_exec(g, kmer_distr);
                        if sf.0 == 0 {
                            if num == 0 {
                                0
                            } else {
                                usize::MAX as u128
                            }
                        } else {
                            proof {
                                assert((num as nat) * ((sf.1 as u128) as nat) <= 0xFFFF_FFFF_FFFF_FFFFnat
                                    * 0xFFFF_FFFFnat) by (nonlinear_arith)
                                    requires
                                        num <= 0xFFFF_FFFF_FFFF_FFFF,
                                        (sf.1 as u128) <= 0xFFFF_FFFF,
                                ;
                            }
                            let e = (num * (sf.1 as u128)) / (sf.0 as u128);
                            if e > usize::MAX as u128 {
                                usize::MAX as u128
                            } else {
                                e
                            }
                        }
                    },
                }
            };
            proof {
                assert(((fm as u128) as nat) * (est as nat) * 1048576nat <= 0xFFFF_FFFFnat
                    * 0xFFFF_FFFF_FFFF_FFFFnat * 1048576nat) by (nonlinear_arith)
                    requires
                        (fm as u128) <= 0xFFFF_FFFF,
                        est <= 0xFFFF_FFFF_FFFF_FFFF,
                ;
            }
            let w_raw: u128 = ((fm as u128) * est * 1048576) / (ft as u128);
            if w_raw > u64::MAX as u128 {
                u64::MAX
            } else {
                w_raw as u64
            }
        };
        proof {
            assert(ws[i as int] == genome_weight_spec(curr_dict@[i as int], m2l, kd));
            assert(ws.take(i + 1).drop_last() =~= ws.take(i as int));
        }
        weights.push(w);
        total = total + w as u128;
        i += 1;
    }
    proof {
        assert(ws.take(n as int) =~= ws);
    }
    let mut adds: Vec<(u32, usize)> = Vec::new();
    let mut k: usize = 0;
    while k < n
        invariant
            k <= n,
            n == curr_dict@.len(),
            ws == node_weights(curr_dict@, m2l, kd),
            weights@.len() == n,
            forall|j: int| 0 <= j < n ==> (#[trigger] weights@[j]) as nat == ws[j],
            total == sum_nat(ws),
            total < 0x1_0000_0000_0000_0000_0000_0000_0000_0000,
            adds@.len() == k,
            forall|j: int| 0 <= j < k ==> (#[trigger] adds@[j]).0 == curr_dict@[j].0 && adds@[j].1
                == add_reads_spec(lvl_reads as nat, ws[j], sum_nat(ws)),
        decreases n - k,
    {
        let g = curr_dict.entry_at(k).0;
        let add: usize = if total == 0 {
            0
        } else {
            proof {
                assert(((lvl_reads as u128) as nat) * ((weights@[k as int] as u128) as nat)
                    <= 0xFFFF_FFFF_FFFF_FFFFnat * 0xFFFF_FFFF_FFFF_FFFFnat) by (nonlinear_arith)
                    requires
                        (lvl_reads as u128) <= 0xFFFF_FFFF_FFFF_FFFF,
                        (weights@[k as int] as u128) <= 0xFFFF_FFFF_FFFF_FFFF,
                ;
            }
            let share = ((lvl_reads as u128) * (weights[k] as u128)) / total;
            proof {
                lemma_share_le(lvl_reads as nat, weights@[k as int] as nat, ws, k as int);
            }
            share as usize
        };
        adds.push((g, add));
        k += 1;
    }
    adds
}

/// One weight's share never exceeds the reads being shared.
proof fn lemma_share_le(r: nat, w: nat, ws: Seq<nat>, k: int)
    requires
        0 <= k < ws.len(),
        ws[k] == w,
        sum_nat(ws) > 0,
    ensures
        (r * w) / sum_nat(ws) <= r,
{
    lemma_sum_nat_bounds(ws, k);
    let total = sum_nat(ws);
    assert(r * w <= r * total) by (nonlinear_arith)
        requires
            w <= total,
            r >= 0,
    ;
    assert((r * w) / total <= (r * total) / total) by {
        broadcast use vstd::arithmetic::div_mod::lemma_div_is_ordered;

    }
    assert((r * total) / total == r) by {
        broadcast use vstd::arithmetic::div_mod::lemma_div_multiples_vanish;

        assert(r * total == total * r) by (nonlinear_arith);
    }
}

/// Every element is at most the sum.
proof fn lemma_sum_nat_bounds(ws: Seq<nat>, k: int)
    requires
        0 <= k < ws.len(),
    ensures
        ws[k] <= sum_nat(ws),
    decreases ws.len(),
{
    if k + 1 < ws.len() {
        lemma_sum_nat_bounds(ws.drop_last(), k);
    }
}

/// The genome's self-fraction, read from the distribution table.
fn self_fraction_exec(g: u32, kmer_distr: &TaxMap<FracMap>) -> (r: (u32, u32))
    ensures
        r == self_fraction_spec(g, distr_view(kmer_distr.entries_view())),
{
    let ghost kd = distr_view(kmer_distr.entries_view());
    match kmer_distr.get(g) {
        Some(inner) => {
            proof {
                lemma_find_idx_same_keys(kmer_distr.entries_view(), kd, g);
                lemma_find_idx_bounds(kd, g);
            }
            match inner.get(g) {
                Some(fr) => {
                    proof {
                        lemma_find_idx_bounds(inner@, g);
                    }
                    if fr.len() > 0 {
                        let p = fr[0];
                        (p.0, p.1)
                    } else {
                        (1, 1)
                    }
                },
                None => (1, 1),
            }
        },
        None => {
            proof {
                lemma_find_idx_same_keys(kmer_distr.entries_view(), kd, g);
            }
            (1, 1)
        },
    }
}


impl TaxMap<Map2LvlValue> {
    /// Adds `add` reads to the added-reads accumulator of entry `k`;
    /// a missing key changes nothing.
    pub fn add_reads(&mut self, k: u32, add: usize)
        ensures
            ({
                let i = find_idx(old(self).entries_view(), k);
                if i >= 0 {
                    final(self).entries_view() == old(self).entries_view().update(
                        i,
                        (
                            old(self).entries_view()[i].0,
                            (Map2LvlValue(
                                old(self).entries_view()[i].1.0,
                                old(self).entries_view()[i].1.1,
                                sat_add(old(self).entries_view()[i].1.2 as nat, add as nat) as usize,
                            )),
                        ),
                    )
                } else {
                    final(self).entries_view() == old(self).entries_view()
                }
            }),
    {
        match self.find(k) {
            Some(i) => {
                proof {
                    lemma_find_idx_bounds(self.entries@, k);
                }
                let old_v = self.entries[i].1;
                let key = self.entries[i].0;
                let newv = Map2LvlValue(old_v.0, old_v.1, sat_add_usize(old_v.2, add));
                self.entries[i] = (key, newv);
            },
            None => {},
        }
    }
}

impl TaxMap<LvlValue> {
    /// Adds `add` reads to the added-reads column of entry `k`; a missing
    /// key changes nothing.
    pub fn add_reads(&mut self, k: u32, add: usize)
        ensures
            ({
                let i = find_idx(old(self).entries_view(), k);
                if i >= 0 {
                    &&& final(self).entries_view().len() == old(self).entries_view().len()
                    &&& forall|j: int| 0 <= j < old(self).entries_view().len() && j != i
                        ==> #[trigger] final(self).entries_view()[j] == old(self).entries_view()[j]
                    &&& final(self).entries_view()[i].0 == old(self).entries_view()[i].0
                    &&& final(self).entries_view()[i].1.0@ == old(self).entries_view()[i].1.0@
                    &&& final(self).entries_view()[i].1.1 == old(self).entries_view()[i].1.1
                    &&& final(self).entries_view()[i].1.2 == old(self).entries_view()[i].1.2
                    &&& final(self).entries_view()[i].1.3 == sat_add(
                        old(self).entries_view()[i].1.3 as nat,
                        add as nat,
                    )
                } else {
                    final(self).entries_view() == old(self).entries_view()
                }
            }),
    {
        match self.find(k) {
            Some(i) => {
                proof {
                    lemma_find_idx_bounds(self.entries@, k);
                }
                let key = self.entries[i].0;
                let name = vstd::slice::slice_to_vec(self.entries[i].1.0.as_slice());
                let v1 = self.entries[i].1.1;
                let v2 = self.entries[i].1.2;
                let v3 = sat_add_usize(self.entries[i].1.3, add);
                self.entries[i] = (key, LvlValue(name, v1, v2, v3));
            },
            None => {},
        }
    }
}

/// The reached-marks after filing the first `upto` children of a node
/// as reached.
pub open spec fn mark_children(vis: Seq<bool>, ch: Seq<usize>, upto: int) -> Seq<bool>
    decreases upto,
{
    if upto <= 0 {
        vis
    } else {
        mark_children(vis, ch, upto - 1).update(ch[upto - 1] as int, true)
    }
}

/// The redistribution table after applying the first `upto` genome
/// shares of one node: genome `entries[j].0` gains the truncated
/// proportional share of `r` reads under weight `ws[j]`, in entry order;
/// a genome the table does not file gains nothing.
pub open spec fn apply_adds(
    m2l: Seq<(u32, Map2LvlValue)>,
    entries: Seq<(u32, Seq<(u32, u32)>)>,
    ws: Seq<nat>,
    r: nat,
    upto: int,
) -> Seq<(u32, Map2LvlValue)>
    decreases upto,
{
    if upto <= 0 {
        m2l
    } else {
        let prev = apply_adds(m2l, entries, ws, r, upto - 1);
        let i = find_idx(prev, entries[upto - 1].0);
        if i >= 0 {
            prev.update(
                i,
                (
                    prev[i].0,
                    (Map2LvlValue(
                        prev[i].1.0,
                        prev[i].1.1,
                        sat_add(
                            prev[i].1.2 as nat,
                            add_reads_spec(r, ws[upto - 1], sum_nat(ws)),
                        ) as usize,
                    )),
                ),
            )
        } else {
            prev
        }
    }
}

/// The redistribution table after sharing `r` reads classified at one
/// node over its distribution entry, the weights fixed by the table as
/// it stood before any share was applied.
pub open spec fn distribute_spec(
    m2l: Seq<(u32, Map2LvlValue)>,
    entries: Seq<(u32, Seq<(u32, u32)>)>,
    kd: Seq<(u32, Seq<(u32, Seq<(u32, u32)>)>)>,
    r: nat,
) -> Seq<(u32, Map2LvlValue)> {
    apply_adds(m2l, entries, node_weights(entries, m2l, kd), r, entries.len() as int)
}

/// The redistribution state: which arena slots the descent has reached,
/// the redistribution table, and the two outcome counters.
pub struct DfsState {
    pub vis: Seq<bool>,
    pub m2l: Seq<(u32, Map2LvlValue)>,
    pub nondistributed: usize,
    pub distributed: usize,
}

/// The visit of one arena slot: a reached node whose rank is not the
/// requested level marks its children reached and, if reads are
/// classified exactly here, either counts them non-distributed (the
/// distribution table lacks its taxid) or counts them distributed and
/// shares them over the entry's genomes. A slot not reached, or holding
/// a node of the requested level, changes nothing: descent stops there
/// and nothing below it is ever reached through it.
pub open spec fn dfs_step(
    st: DfsState,
    nodes: Seq<Node>,
    idx: int,
    level: Seq<u8>,
    kd: Seq<(u32, Seq<(u32, Seq<(u32, u32)>)>)>,
) -> DfsState {
    if !(0 <= idx < nodes.len() && 0 <= idx < st.vis.len() && st.vis[idx]
        && nodes[idx].level_id@ != level) {
        st
    } else {
        let vis1 = mark_children(st.vis, nodes[idx].children@, nodes[idx].children@.len() as int);
        let r = nodes[idx].lvl_reads;
        if r == 0 {
            DfsState {
                vis: vis1,
                m2l: st.m2l,
                nondistributed: st.nondistributed,
                distributed: st.distributed,
            }
        } else {
            let ki = find_idx(kd, nodes[idx].taxid);
            if ki < 0 {
                DfsState {
                    vis: vis1,
                    m2l: st.m2l,
                    nondistributed: sat_add(st.nondistributed as nat, r as nat) as usize,
                    distributed: st.distributed,
                }
            } else {
                DfsState {
                    vis: vis1,
                    m2l: distribute_spec(st.m2l, kd[ki].1, kd, r as nat),
                    nondistributed: st.nondistributed,
                    distributed: sat_add(st.distributed as nat, r as nat) as usize,
                }
            }
        }
    }
}

/// The redistribution state after visiting arena slots `root` up to
/// (excluding) `upto` in index order. Children always sit after their
/// parent in the arena, so this forward sweep reaches exactly the nodes
/// reachable from the root without crossing a requested-level node.
pub open spec fn dfs_fold(
    nodes: Seq<Node>,
    level: Seq<u8>,
    kd: Seq<(u32, Seq<(u32, Seq<(u32, u32)>)>)>,
    root: int,
    upto: int,
    init: DfsState,
) -> DfsState
    decreases upto - root,
{
    if upto <= root {
        init
    } else {
        dfs_step(dfs_fold(nodes, level, kd, root, upto - 1, init), nodes, upto - 1, level, kd)
    }
}

/// The redistribution start state: only the root slot is reached.
pub open spec fn dfs_init(s: Stats, root: int) -> DfsState {
    DfsState {
        vis: Seq::new(s.nodes@.len(), |i: int| i == root),
        m2l: s.map2lvl_taxids.entries_view(),
        nondistributed: s.nondistributed_reads,
        distributed: s.distributed_reads,
    }
}

/// Depth-first redistribution over the report tree, children in report
/// order: descent stops at nodes of the requested level; a node with
/// reads but no distribution entry counts as non-distributed; otherwise
/// its reads are shared over the genomes by `distribute_node` and added
/// to their running accumulators. The resulting table and counters are
/// exactly the fold of the per-node visits over the arena; everything
/// else is unchanged, and the accumulators only grow.
pub fn dfs_iterative(
    root_index: usize,
    stats: &mut Stats,
    level: &[u8],
    kmer_distr: TaxMap<FracMap>,
)
    requires
        tree_wf(old(stats).nodes@),
    ensures
        final(stats).nodes@ == old(stats).nodes@,
        final(stats).leaf_nodes@ == old(stats).leaf_nodes@,
        final(stats).lvl_taxids.entries_view() == old(stats).lvl_taxids.entries_view(),
        final(stats).u_reads == old(stats).u_reads,
        final(stats).total_reads == old(stats).total_reads,
        final(stats).n_lvl_total == old(stats).n_lvl_total,
        final(stats).n_lvl_del == old(stats).n_lvl_del,
        final(stats).n_lvl_est == old(stats).n_lvl_est,
        final(stats).ignored_reads == old(stats).ignored_reads,
        final(stats).kept_reads == old(stats).kept_reads,
        final(stats).last_taxid == old(stats).last_taxid,
        final(stats).map2lvl_taxids.entries_view().len() == old(
            stats,
        ).map2lvl_taxids.entries_view().len(),
        forall|i: int| 0 <= i < old(stats).map2lvl_taxids.entries_view().len() ==> {
            let o = old(stats).map2lvl_taxids.entries_view()[i];
            let f = #[trigger] final(stats).map2lvl_taxids.entries_view()[i];
            f.0 == o.0 && f.1.0 == o.1.0 && f.1.1 == o.1.1 && f.1.2 >= o.1.2
        },
        final(stats).distributed_reads >= old(stats).distributed_reads,
        final(stats).nondistributed_reads >= old(stats).nondistributed_reads,
        ({
            let fin = dfs_fold(
                old(stats).nodes@,
                level@,
                distr_view(kmer_distr.entries_view()),
                root_index as int,
                old(stats).nodes@.len() as int,
                dfs_init(*old(stats), root_index as int),
            );
            &&& final(stats).map2lvl_taxids.entries_view() == fin.m2l
            &&& final(stats).nondistributed_reads == fin.nondistributed
            &&& final(stats).distributed_reads == fin.distributed
        }),
{
    let ghost nodes0 = stats.nodes@;
    let ghost kd = distr_view(kmer_distr.entries_view());
    let ghost init = dfs_init(*stats, root_index as int);
    let n = stats.nodes.len();
    let mut visited: Vec<bool> = Vec::new();
    let mut f: usize = 0;
    while f < n
        invariant
            f <= n,
            visited@.len() == f,
            forall|j: int| 0 <= j < f ==> !(#[trigger] visited@[j]),
        decreases n - f,
    {
        visited.push(false);
        f += 1;
    }
    if root_index >= n {
        return ;
    }
    visited[root_index] = true;
    proof {
        assert(visited@ =~= init.vis);
    }
    let mut idx = root_index;
    while idx < n
        invariant
            root_index <= idx <= n,
            n == stats.nodes@.len(),
            nodes0 == stats.nodes@,
            kd == distr_view(kmer_distr.entries_view()),
            init == dfs_init(*old(stats), root_index as int),
            visited@.len() == n,
            tree_wf(stats.nodes@),
            stats.nodes@ == old(stats).nodes@,
            stats.leaf_nodes@ == old(stats).leaf_nodes@,
            stats.lvl_taxids.entries_view() == old(stats).lvl_taxids.entries_view(),
            stats.u_reads == old(stats).u_reads,
            stats.total_reads == old(stats).total_reads,
            stats.n_lvl_total == old(stats).n_lvl_total,
            stats.n_lvl_del == old(stats).n_lvl_del,
            stats.n_lvl_est == old(stats).n_lvl_est,
            stats.ignored_reads == old(stats).ignored_reads,
            stats.kept_reads == old(stats).kept_reads,
            stats.last_taxid == old(stats).last_taxid,
            stats.map2lvl_taxids.entries_view().len() == old(
                stats,
            ).map2lvl_taxids.entries_view().len(),
            forall|i: int| 0 <= i < old(stats).map2lvl_taxids.entries_view().len() ==> {
                let o = old(stats).map2lvl_taxids.entries_view()[i];
                let ff = #[trigger] stats.map2lvl_taxids.entries_view()[i];
                ff.0 == o.0 && ff.1.0 == o.1.0 && ff.1.1 == o.1.1 && ff.1.2 >= o.1.2
            },
            stats.distributed_reads >= old(stats).distributed_reads,
            stats.nondistributed_reads >= old(stats).nondistributed_reads,
            ({
                let st = dfs_fold(nodes0, level@, kd, root_index as int, idx as int, init);
                &&& visited@ == st.vis
                &&& stats.map2lvl_taxids.entries_view() == st.m2l
                &&& stats.nondistributed_reads == st.nondistributed
                &&& stats.distributed_reads == st.distributed
            }),
        decreases n - idx,
    {
        let ghost st = dfs_fold(nodes0, level@, kd, root_index as int, idx as int, init);
        if visited[idx] {
            let matches_level = bytes_eq(stats.nodes[idx].level_id.as_slice(), level);
            if !matches_level {
                let nchild = stats.nodes[idx].children.len();
                let mut c: usize = 0;
                let ghost snap = *stats;
                let ghost vis0 = visited@;
                while c < nchild
                    invariant
                        c <= nchild,
                        idx < stats.nodes@.len(),
                        nchild == stats.nodes@[idx as int].children@.len(),
                        visited@.len() == n,
                        n == stats.nodes@.len(),
                        tree_wf(stats.nodes@),
                        *stats == snap,
                        visited@ == mark_children(
                            vis0,
                            stats.nodes@[idx as int].children@,
                            c as int,
                        ),
                    decreases nchild - c,
                {
                    proof {
                        assert(node_wf(stats.nodes@, idx as int));
                    }
                    let ch = stats.nodes[idx].children[c];
                    visited[ch] = true;
                    c += 1;
                }
                proof {
                    assert(visited@ == mark_children(
                        st.vis,
                        nodes0[idx as int].children@,
                        nodes0[idx as int].children@.len() as int,
                    ));
                }
                let lvl_reads = stats.nodes[idx].lvl_reads;
                if lvl_reads != 0 {
                    let taxid = stats.nodes[idx].taxid;
                    let has_entry = kmer_distr.contains_key(taxid);
                    proof {
                        lemma_find_idx_same_keys(kmer_distr.entries_view(), kd, taxid);
                    }
                    if !has_entry {
                        stats.nondistributed_reads = sat_add_usize(
                            stats.nondistributed_reads,
                            lvl_reads,
                        );
                    } else {
                        stats.distributed_reads = sat_add_usize(stats.distributed_reads, lvl_reads);
                        match kmer_distr.get(taxid) {
                            Some(curr_dict) => {
                                proof {
                                    lemma_find_idx_bounds(kd, taxid);
                                    assert(curr_dict@ == kd[find_idx(kd, taxid)].1);
                                }
                                let adds = distribute_node(
                                    lvl_reads,
                                    curr_dict,
                                    &kmer_distr,
                                    &stats.map2lvl_taxids,
                                );
                                let ghost entries = curr_dict@;
                                let ghost m2l_pre = stats.map2lvl_taxids.entries_view();
                                let ghost ws = node_weights(entries, m2l_pre, kd);
                                let n_adds = adds.len();
                                let mut j: usize = 0;
                                let ghost pre = *stats;
                                while j < n_adds
                                    invariant
                                        j <= n_adds,
                                        n_adds == adds@.len(),
                                        n_adds == entries.len(),
                                        forall|q: int| 0 <= q < n_adds ==> (
                                        #[trigger] adds@[q]).0 == entries[q].0 && adds@[q].1
                                            == add_reads_spec(
                                            pre.nodes@[idx as int].lvl_reads as nat,
                                            ws[q],
                                            sum_nat(ws),
                                        ),
                                        stats.nodes@ == pre.nodes@,
                                        idx < pre.nodes@.len(),
                                        stats.leaf_nodes@ == pre.leaf_nodes@,
                                        stats.lvl_taxids == pre.lvl_taxids,
                                        stats.u_reads == pre.u_reads,
                                        stats.total_reads == pre.total_reads,
                                        stats.n_lvl_total == pre.n_lvl_total,
                                        stats.n_lvl_del == pre.n_lvl_del,
                                        stats.n_lvl_est == pre.n_lvl_est,
                                        stats.ignored_reads == pre.ignored_reads,
                                        stats.kept_reads == pre.kept_reads,
                                        stats.last_taxid == pre.last_taxid,
                                        stats.distributed_reads == pre.distributed_reads,
                                        stats.nondistributed_reads == pre.nondistributed_reads,
                                        m2l_pre == pre.map2lvl_taxids.entries_view(),
                                        stats.map2lvl_taxids.entries_view() == apply_adds(
                                            m2l_pre,
                                            entries,
                                            ws,
                                            pre.nodes@[idx as int].lvl_reads as nat,
                                            j as int,
                                        ),
                                        stats.map2lvl_taxids.entries_view().len() == old(
                                            stats,
                                        ).map2lvl_taxids.entries_view().len(),
                                        forall|i: int|
                                            0 <= i < old(
                                                stats,
                                            ).map2lvl_taxids.entries_view().len() ==> {
                                                let o = old(
                                                    stats,
                                                ).map2lvl_taxids.entries_view()[i];
                                                let ff = #[trigger] stats.map2lvl_taxids.entries_view()[i];
                                                ff.0 == o.0 && ff.1.0 == o.1.0 && ff.1.1 == o.1.1
                                                    && ff.1.2 >= o.1.2
                                            },
                                    decreases n_adds - j,
                                {
                                    let ghost before = stats.map2lvl_taxids.entries_view();
                                    stats.map2lvl_taxids.add_reads(adds[j].0, adds[j].1);
                                    proof {
                                        let i0 = find_idx(before, adds@[j as int].0);
                                        if i0 >= 0 {
                                            lemma_find_idx_bounds(before, adds@[j as int].0);
                                        }
                                    }
                                    j += 1;
                                }
                                proof {
                                    assert(stats.map2lvl_taxids.entries_view() == distribute_spec(
                                        m2l_pre,
                                        entries,
                                        kd,
                                        pre.nodes@[idx as int].lvl_reads as nat,
                                    ));
                                }
                            },
                            None => {},
                        }
                    }
                }
            }
        }
        proof {
            let st1 = dfs_fold(nodes0, level@, kd, root_index as int, idx + 1, init);
            assert(st1 == dfs_step(st, nodes0, idx as int, level@, kd));
        }
        idx += 1;
    }
}


/// The level table viewed as plain tuples: taxid, then name, reads at or
/// below, reads here, added reads.
pub open spec fn lvl_view(entries: Seq<(u32, LvlValue)>) -> Seq<(u32, (Seq<u8>, usize, usize, usize))> {
    entries.map_values(|e: (u32, LvlValue)| (e.0, (e.1.0@, e.1.1, e.1.2, e.1.3)))
}

/// The level table after rolling up the first `upto` redistribution
/// records: each record adds its accumulated reads to the added-reads
/// column of the kept taxon it rolls up to.
pub open spec fn merge_spec(
    lv: Seq<(u32, (Seq<u8>, usize, usize, usize))>,
    m2l: Seq<(u32, Map2LvlValue)>,
    upto: int,
) -> Seq<(u32, (Seq<u8>, usize, usize, usize))>
    decreases upto,
{
    if upto <= 0 {
        lv
    } else {
        let prev = merge_spec(lv, m2l, upto - 1);
        let t = m2l[upto - 1].1;
        let i = find_idx(prev, t.0);
        if i >= 0 {
            prev.update(
                i,
                (
                    prev[i].0,
                    (prev[i].1.0, prev[i].1.1, prev[i].1.2, sat_add(
                        prev[i].1.3 as nat,
                        t.2 as nat,
                    ) as usize),
                ),
            )
        } else {
            prev
        }
    }
}

/// Total estimated reads over the first `upto` rows of the merged level
/// table: reads at-or-below plus added reads, summed saturating.
pub open spec fn sum_est_spec(lv: Seq<(u32, (Seq<u8>, usize, usize, usize))>, upto: int) -> nat
    decreases upto,
{
    if upto <= 0 {
        0
    } else {
        sat_add(
            sum_est_spec(lv, upto - 1),
            sat_add(lv[upto - 1].1.1 as nat, lv[upto - 1].1.3 as nat),
        )
    }
}

/// The sample fraction of `new` reads out of `sum`, rounded half-up to
/// five decimal places and scaled by 100000.
pub open spec fn frac_100k_spec(new: nat, sum: nat) -> nat {
    (200000 * new + sum) / (2 * sum)
}

/// One output row of the final abundance report.
pub struct AbundanceRow {
    pub name: Vec<u8>,
    pub taxid: u32,
    pub kraken_assigned_reads: usize,
    pub added_reads: usize,
    pub new_est_reads: usize,
    pub fraction_100k: u64,
}

/// A term of a saturating sum never exceeds the sum.
proof fn lemma_sum_est_bounds(lv: Seq<(u32, (Seq<u8>, usize, usize, usize))>, upto: int, k: int)
    requires
        0 <= k < upto <= lv.len(),
    ensures
        sat_add(lv[k].1.1 as nat, lv[k].1.3 as nat) <= sum_est_spec(lv, upto),
    decreases upto,
{
    if k + 1 < upto {
        lemma_sum_est_bounds(lv, upto - 1, k);
    }
}

/// Rolls redistribution results up into the level table, totals the
/// estimated reads, and produces one output row per kept taxon with its
/// exact five-decimal sample fraction. A sample with zero total reads is
/// a fatal configuration error.
pub fn finalize_abundance(stats: &mut Stats) -> (r: Result<Vec<AbundanceRow>, &'static str>)
    ensures
        ({
            let merged = merge_spec(
                lvl_view(old(stats).lvl_taxids.entries_view()),
                old(stats).map2lvl_taxids.entries_view(),
                old(stats).map2lvl_taxids.entries_view().len() as int,
            );
            let total = sum_est_spec(merged, merged.len() as int);
            &&& lvl_view(final(stats).lvl_taxids.entries_view()) == merged
            &&& final(stats).map2lvl_taxids.entries_view() == old(
                stats,
            ).map2lvl_taxids.entries_view()
            &&& final(stats).nodes@ == old(stats).nodes@
            &&& match r {
                Ok(rows) => {
                    &&& total > 0
                    &&& rows@.len() == merged.len()
                    &&& forall|i: int| 0 <= i < merged.len() ==> {
                        let row = #[trigger] rows@[i];
                        let new = sat_add(merged[i].1.1 as nat, merged[i].1.3 as nat);
                        &&& row.name@ == merged[i].1.0
                        &&& row.taxid == merged[i].0
                        &&& row.kraken_assigned_reads == merged[i].1.1
                        &&& row.added_reads == merged[i].1.3
                        &&& row.new_est_reads == new
                        &&& row.fraction_100k == frac_100k_spec(new, total)
                    }
                },
                Err(_) => total == 0,
            }
        }),
{
    let ghost lv0 = lvl_view(stats.lvl_taxids.entries_view());
    let ghost m2l = stats.map2lvl_taxids.entries_view();
    let n_m2l = stats.map2lvl_taxids.len();
    let mut k: usize = 0;
    while k < n_m2l
        invariant
            k <= n_m2l,
            n_m2l == m2l.len(),
            stats.map2lvl_taxids.entries_view() == m2l,
            stats.nodes@ == old(stats).nodes@,
            lv0 == lvl_view(old(stats).lvl_taxids.entries_view()),
            lvl_view(stats.lvl_taxids.entries_view()) == merge_spec(lv0, m2l, k as int),
        decreases n_m2l - k,
    {
        let entry = *stats.map2lvl_taxids.entry_at(k);
        let ghost before = stats.lvl_taxids.entries_view();
        stats.lvl_taxids.add_reads(entry.1.0, entry.1.2);
        proof {
            lemma_find_idx_same_keys(before, lvl_view(before), entry.1.0);
            let i = find_idx(lvl_view(before), entry.1.0);
            if i >= 0 {
                lemma_find_idx_bounds(before, entry.1.0);
                assert(lvl_view(stats.lvl_taxids.entries_view()) =~= merge_spec(
                    lv0,
                    m2l,
                    k + 1,
                ));
            }
        }
        k += 1;
    }
    let ghost merged = merge_spec(lv0, m2l, m2l.len() as int);
    let n_lvl = stats.lvl_taxids.len();
    let mut sum_all_reads: usize = 0;
    let mut k2: usize = 0;
    while k2 < n_lvl
        invariant
            k2 <= n_lvl,
            n_lvl == merged.len(),
            stats.map2lvl_taxids.entries_view() == m2l,
            stats.nodes@ == old(stats).nodes@,
            lvl_view(stats.lvl_taxids.entries_view()) == merged,
            sum_all_reads == sum_est_spec(merged, k2 as int),
        decreases n_lvl - k2,
    {
        let e = stats.lvl_taxids.entry_at(k2);
        let new_all = sat_add_usize(e.1.1, e.1.3);
        proof {
            assert(merged[k2 as int].1.1 == e.1.1 && merged[k2 as int].1.3 == e.1.3);
        }
        sum_all_reads = sat_add_usize(sum_all_reads, new_all);
        k2 += 1;
    }
    if sum_all_reads == 0 {
        return Err("Error: no reads found. Please check your Kraken report");
    }
    let mut rows: Vec<AbundanceRow> = Vec::new();
    let mut k3: usize = 0;
    while k3 < n_lvl
        invariant
            k3 <= n_lvl,
            n_lvl == merged.len(),
            stats.map2lvl_taxids.entries_view() == m2l,
            stats.nodes@ == old(stats).nodes@,
            lvl_view(stats.lvl_taxids.entries_view()) == merged,
            sum_all_reads == sum_est_spec(merged, merged.len() as int),
            sum_all_reads > 0,
            rows@.len() == k3,
            forall|i: int| 0 <= i < k3 ==> {
                let row = #[trigger] rows@[i];
                let new = sat_add(merged[i].1.1 as nat, merged[i].1.3 as nat);
                &&& row.name@ == merged[i].1.0
                &&& row.taxid == merged[i].0
                &&& row.kraken_assigned_reads == merged[i].1.1
                &&& row.added_reads == merged[i].1.3
                &&& row.new_est_reads == new
                &&& row.fraction_100k == frac_100k_spec(new, sum_all_reads as nat)
            },
        decreases n_lvl - k3,
    {
        let e = stats.lvl_taxids.entry_at(k3);
        let taxid = e.0;
        let name = vstd::slice::slice_to_vec(e.1.0.as_slice());
        let kraken_assigned = e.1.1;
        let added = e.1.3;
        let new_all = sat_add_usize(kraken_assigned, added);
        proof {
            assert(merged[k3 as int].1.1 == e.1.1 && merged[k3 as int].1.3 == e.1.3
                && merged[k3 as int].1.0 == e.1.0@ && merged[k3 as int].0 == e.0);
            lemma_sum_est_bounds(merged, merged.len() as int, k3 as int);
            assert(200000nat * (new_all as nat) <= 200000nat * (sum_all_reads as nat))
                by (nonlinear_arith)
                requires
                    new_all as nat <= sum_all_reads as nat,
            ;
        }
        let num: u128 = 200000u128 * (new_all as u128) + (sum_all_reads as u128);
        let den: u128 = 2u128 * (sum_all_reads as u128);
        let frac = num / den;
        proof {
            let sa = sum_all_reads as nat;
            assert(200001 * sa == (2 * sa) * 100000 + sa) by (nonlinear_arith);
            assert((200001 * sa) as int / (2 * sa) as int == 100000) by {
                vstd::arithmetic::div_mod::lemma_fundamental_div_mod_converse(
                    (200001 * sa) as int,
                    (2 * sa) as int,
                    100000,
                    sa as int,
                );
            }
            assert(num as nat <= 200001 * sa) by (nonlinear_arith)
                requires
                    num as nat == 200000 * (new_all as nat) + sa,
                    200000nat * (new_all as nat) <= 200000nat * sa,
            ;
            assert(frac as nat <= 100000) by {
                vstd::arithmetic::div_mod::lemma_div_is_ordered(
                    num as int,
                    (200001 * sa) as int,
                    (2 * sa) as int,
                );
            }
        }
        rows.push(
            AbundanceRow {
                name,
                taxid,
                kraken_assigned_reads: kraken_assigned,
                added_reads: added,
                new_est_reads: new_all,
                fraction_100k: frac as u64,
            },
        );
        k3 += 1;
    }
    Ok(rows)
}

/// Sum of the scaled five-decimal fractions over all rows.
pub open spec fn frac_sum_spec(news: Seq<nat>, total: nat, upto: int) -> nat
    decreases upto,
{
    if upto <= 0 {
        0
    } else {
        frac_sum_spec(news, total, upto - 1) + frac_100k_spec(news[upto - 1], total)
    }
}

/// Sum of the estimated reads themselves.
pub open spec fn news_sum(news: Seq<nat>, upto: int) -> nat
    decreases upto,
{
    if upto <= 0 {
        0
    } else {
        news_sum(news, upto - 1) + news[upto - 1]
    }
}

/// Partial-sum bounds behind the fraction-sum law.
proof fn lemma_frac_sum_bounds(news: Seq<nat>, total: nat, upto: int)
    requires
        total > 0,
        0 <= upto <= news.len(),
    ensures
        frac_sum_spec(news, total, upto) <= (200000 * news_sum(news, upto) + upto * total) as int
            / (2 * total as int),
        (200000 * news_sum(news, upto) + upto * total) as int / (2 * total as int) <= frac_sum_spec(
            news,
            total,
            upto,
        ) + upto,
    decreases upto,
{
    let c = 2 * total as int;
    if upto == 0 {
        vstd::arithmetic::div_mod::lemma_div_of0(c);
    } else {
        lemma_frac_sum_bounds(news, total, upto - 1);
        let a = (200000 * news_sum(news, upto - 1) + (upto - 1) * total) as int;
        let b = (200000 * news[upto - 1] + total) as int;
        lemma_div_superadd(a, b, c);
        assert(a + b == (200000 * news_sum(news, upto) + upto * total) as int) by (nonlinear_arith)
            requires
                news_sum(news, upto) == news_sum(news, upto - 1) + news[upto - 1],
                a == (200000 * news_sum(news, upto - 1) + (upto - 1) * total) as int,
                b == (200000 * news[upto - 1] + total) as int,
        ;
        assert(frac_100k_spec(news[upto - 1], total) == b / c);
    }
}

/// The five-decimal fractions of any non-empty sample sum to 1.0 within
/// rounding tolerance: scaled by 100000, their sum differs from 100000
/// by at most the number of rows.
pub proof fn lemma_fraction_sum_near_one(news: Seq<nat>)
    requires
        news_sum(news, news.len() as int) > 0,
    ensures
        ({
            let total = news_sum(news, news.len() as int);
            let fs = frac_sum_spec(news, total, news.len() as int);
            100000 - news.len() <= fs <= 100000 + news.len()
        }),
{
    let n = news.len() as int;
    let total = news_sum(news, n);
    lemma_frac_sum_bounds(news, total, n);
    let a = (200000 * news_sum(news, n) + n * total) as int;
    assert(a == (2 * total as int) * ((200000 + n) / 2) + (if n % 2 == 0 {
        0int
    } else {
        total as int
    })) by (nonlinear_arith)
        requires
            a == 200000 * total + n * total,
            total > 0,
    ;
    assert(a / (2 * total as int) == (200000 + n) / 2) by {
        vstd::arithmetic::div_mod::lemma_fundamental_div_mod_converse(
            a,
            2 * total as int,
            (200000 + n) / 2,
            if n % 2 == 0 {
                0int
            } else {
                total as int
            },
        );
    }
    assert(100000 <= (200000 + n) / 2 <= 100000 + n);
}
/// Rejects structurally incompatible report files up front: a first
/// line opening with `C` or `U` is raw per-read classifier output, and a
/// two-column line is an mpa-style report; neither is the hierarchical
/// report this crate consumes.
pub fn check_report_first_line(first_line: &[u8]) -> (r: Result<(), &'static str>)
    ensures
        r is Ok <==> !(first_line@.len() > 0 && (first_line@[0] == 67 || first_line@[0] == 85))
            && split_spec(first_line@, seq![9u8]).len() != 2,
{
    if first_line.len() > 0 {
        let b = first_line[0];
        if b == 67 || b == 85 {
            return Err("Invalid file format for Bracken");
        }
    }
    let parts = split_pat(first_line, &[9u8]);
    proof {
        assert((&[9u8])@ =~= seq![9u8]);
    }
    if parts.len() == 2 {
        return Err("Invalid file format for Bracken");
    }
    Ok(())
}

/// A requested level is a letter, optionally followed by a branch depth:
/// `S` parses to 0, `S2` to 2; anything else is rejected.
pub open spec fn check_and_parse_spec(s: Seq<u8>) -> Option<int> {
    if s.len() == 0 {
        None
    } else if !((65 <= s[0] && s[0] <= 90) || (97 <= s[0] && s[0] <= 122)) {
        None
    } else if s.len() == 1 {
        Some(0)
    } else if is_numeral(s.skip(1)) && numeral_value(s.skip(1)) <= usize::MAX {
        Some(numeral_value(s.skip(1)) as int)
    } else {
        None
    }
}

/// Splits a requested level such as `S2` into its branch depth 2; a bare
/// letter has depth 0. The first byte must be a letter and the rest, if
/// any, a number.
pub fn check_and_parse(input: &[u8]) -> (r: Result<usize, &'static str>)
    ensures
        match r {
            Ok(v) => check_and_parse_spec(input@) == Some(v as int),
            Err(_) => check_and_parse_spec(input@) is None,
        },
{
    let n = input.len();
    if n == 0 {
        return Err("Input is empty.");
    }
    let first = input[0];
    if !((65 <= first && first <= 90) || (97 <= first && first <= 122)) {
        return Err("The first character is not a letter.");
    }
    if n == 1 {
        return Ok(0);
    }
    let rest = vstd::slice::slice_subrange(input, 1, n);
    match parse_usize(rest) {
        Some(v) => Ok(v),
        None => Err("Failed to parse the remaining characters as a number."),
    }
}

} // verus!
