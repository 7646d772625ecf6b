//! The taxonomy tree: a node table with parent links, rank strings, depth
//! and materialized root paths, plus a bidirectional taxid-to-index map and
//! lowest-common-ancestor queries.

use vstd::prelude::*;
use std::collections::HashMap;

verus! {

broadcast use vstd::std_specs::hash::group_hash_axioms;

/// Error raised while loading or validating a taxonomy.
#[derive(Debug, Clone)]
pub struct TaxonomyError {
    pub message: String,
}

impl TaxonomyError {
    pub fn new(message: &str) -> (r: Self)
        ensures
            r.message@ == message@,
    {
        TaxonomyError { message: message.to_owned() }
    }
}

/// A bidirectional map between taxids and node-table indices.
pub struct BiMap {
    forward: HashMap<u32, u32>,
    backward: HashMap<u32, u32>,
}

impl BiMap {
    /// The key-to-value direction.
    pub closed spec fn fwd(&self) -> Map<u32, u32> {
        self.forward@
    }

    /// The value-to-key direction.
    pub closed spec fn bwd(&self) -> Map<u32, u32> {
        self.backward@
    }

    pub fn new() -> (r: Self)
        ensures
            r.fwd() == Map::<u32, u32>::empty(),
            r.bwd() == Map::<u32, u32>::empty(),
    {
        BiMap { forward: HashMap::new(), backward: HashMap::new() }
    }

    pub fn insert(&mut self, key: u32, value: u32)
        ensures
            final(self).fwd() == old(self).fwd().insert(key, value),
            final(self).bwd() == old(self).bwd().insert(value, key),
    {
        self.forward.insert(key, value);
        self.backward.insert(value, key);
    }

    pub fn get_by_key(&self, key: &u32) -> (r: Option<&u32>)
        ensures
            match r {
                Some(v) => self.fwd().contains_key(*key) && *v == self.fwd()[*key],
                None => !self.fwd().contains_key(*key),
            },
    {
        self.forward.get(key)
    }

    pub fn get_by_value(&self, value: &u32) -> (r: Option<&u32>)
        ensures
            match r {
                Some(k) => self.bwd().contains_key(*value) && *k == self.bwd()[*value],
                None => !self.bwd().contains_key(*value),
            },
    {
        self.backward.get(value)
    }
}

/// One taxonomy node. `path_to_root` lists the ancestors root-first,
/// excluding the node itself; the root (taxid 1) has an empty path.
pub struct TaxonomyNode {
    pub taxid: u32,
    pub parent: u32,
    pub rank: Vec<u8>,
    pub depth: u32,
    pub path_to_root: Vec<u32>,
}

impl TaxonomyNode {
    /// A node may name itself as parent only if it is the root, taxid 1.
    pub fn new(taxid: u32, parent: u32, rank: Vec<u8>, depth: u32) -> (r: Result<
        Self,
        TaxonomyError,
    >)
        ensures
            match r {
                Ok(n) => taxid == 1 || taxid != parent,
                Err(_) => taxid != 1 && taxid == parent,
            },
            r matches Ok(n) ==> n.taxid == taxid && n.parent == parent && n.rank@ == rank@
                && n.depth == depth && n.path_to_root@ == Seq::<u32>::empty(),
    {
        if taxid != 1 && taxid == parent {
            return Err(TaxonomyError::new("taxid should not be equal to parent unless it's 1"));
        }
        Ok(Self { taxid, parent, rank, depth, path_to_root: Vec::new() })
    }

    pub fn is_root(&self) -> (r: bool)
        ensures
            r == (self.taxid == 1 || self.depth == 1),
    {
        self.taxid == 1 || self.depth == 1
    }
}

impl Default for TaxonomyNode {
    /// The root placeholder: taxid 1, its own parent, rank `N`.
    fn default() -> (r: Self)
        ensures
            r.taxid == 1 && r.parent == 1 && r.rank@ == seq![78u8] && r.depth == 0
                && r.path_to_root@ == Seq::<u32>::empty(),
    {
        let mut rank: Vec<u8> = Vec::new();
        rank.push(78);
        proof {
            assert(rank@ =~= seq![78u8]);
        }
        TaxonomyNode { taxid: 1, parent: 1, rank, depth: 0, path_to_root: Vec::new() }
    }
}

/// The taxonomy: the node table and the taxid-to-index map.
pub struct NCBITaxonomy {
    pub nodes: Vec<TaxonomyNode>,
    pub id_map: BiMap,
}

impl Default for NCBITaxonomy {
    /// An empty table with an empty id map.
    fn default() -> (r: Self)
        ensures
            r.nodes@ == Seq::<TaxonomyNode>::empty(),
            r.id_map.fwd() == Map::<u32, u32>::empty(),
            r.id_map.bwd() == Map::<u32, u32>::empty(),
    {
        NCBITaxonomy { nodes: Vec::new(), id_map: BiMap::new() }
    }
}

/// Length of the longest common prefix of two sequences.
pub open spec fn common_prefix_len(x: Seq<u32>, y: Seq<u32>) -> int
    decreases x.len(),
{
    if x.len() == 0 || y.len() == 0 || x[0] != y[0] {
        0
    } else {
        1 + common_prefix_len(x.skip(1), y.skip(1))
    }
}

pub proof fn lemma_common_prefix_props(x: Seq<u32>, y: Seq<u32>)
    ensures
        0 <= common_prefix_len(x, y) <= x.len(),
        common_prefix_len(x, y) <= y.len(),
        forall|j: int| 0 <= j < common_prefix_len(x, y) ==> x[j] == y[j],
        common_prefix_len(x, y) < x.len() && common_prefix_len(x, y) < y.len() ==> x[
            common_prefix_len(x, y)
        ] != y[common_prefix_len(x, y)],
    decreases x.len(),
{
    if !(x.len() == 0 || y.len() == 0 || x[0] != y[0]) {
        lemma_common_prefix_props(x.skip(1), y.skip(1));
        let k = common_prefix_len(x, y);
        assert forall|j: int| 0 <= j < k implies x[j] == y[j] by {
            if j > 0 {
                assert(x.skip(1)[j - 1] == y.skip(1)[j - 1]);
            }
        }
        if k < x.len() && k < y.len() {
            assert(x.skip(1)[k - 1] != y.skip(1)[k - 1]);
        }
    }
}

pub proof fn lemma_common_prefix_sym(x: Seq<u32>, y: Seq<u32>)
    ensures
        common_prefix_len(x, y) == common_prefix_len(y, x),
    decreases x.len(),
{
    if !(x.len() == 0 || y.len() == 0 || x[0] != y[0]) {
        lemma_common_prefix_sym(x.skip(1), y.skip(1));
    }
}

proof fn lemma_common_prefix_at(x: Seq<u32>, y: Seq<u32>, i: int)
    requires
        0 <= i <= x.len(),
        i <= y.len(),
        forall|j: int| 0 <= j < i ==> x[j] == y[j],
        i < x.len() && i < y.len() ==> x[i] != y[i],
    ensures
        common_prefix_len(x, y) == i,
    decreases i,
{
    if i == 0 {
        if !(x.len() == 0 || y.len() == 0) {
            assert(x[0] != y[0]);
        }
    } else {
        assert(x[0] == y[0]);
        lemma_common_prefix_at(x.skip(1), y.skip(1), i - 1);
    }
}

impl NCBITaxonomy {
    /// The node holding `taxid`, if the id map resolves it into the table.
    pub open spec fn spec_get_node(&self, taxid: u32) -> Option<TaxonomyNode> {
        if self.id_map.fwd().contains_key(taxid) && (self.id_map.fwd()[taxid] as int)
            < self.nodes@.len() {
            Some(self.nodes@[self.id_map.fwd()[taxid] as int])
        } else {
            None
        }
    }

    pub fn get_node(&self, taxid: &u32) -> (r: Option<&TaxonomyNode>)
        ensures
            match r {
                Some(n) => self.spec_get_node(*taxid) == Some(*n),
                None => self.spec_get_node(*taxid) is None,
            },
    {
        match self.id_map.get_by_key(taxid) {
            Some(ix_ref) => {
                let ix = *ix_ref;
                if (ix as usize) < self.nodes.len() {
                    Some(&self.nodes[ix as usize])
                } else {
                    None
                }
            },
            None => None,
        }
    }

    /// The parent node of the node holding `taxid`.
    pub fn get_parent(&self, taxid: &u32) -> (r: Option<&TaxonomyNode>)
        ensures
            match r {
                Some(p) => self.spec_get_node(*taxid) matches Some(n) && self.spec_get_node(n.parent)
                    == Some(*p),
                None => self.spec_get_node(*taxid) is None || (self.spec_get_node(*taxid) matches
                    Some(n) && self.spec_get_node(n.parent) is None),
            },
    {
        match self.get_node(taxid) {
            Some(node) => self.get_node_parent(node),
            None => None,
        }
    }

    pub fn get_node_parent(&self, node: &TaxonomyNode) -> (r: Option<&TaxonomyNode>)
        ensures
            match r {
                Some(p) => self.spec_get_node(node.parent) == Some(*p),
                None => self.spec_get_node(node.parent) is None,
            },
    {
        self.get_node(&node.parent)
    }

    /// The lowest common ancestor of `a` and `b`. Zero stands for "no
    /// taxon": `lca(0, x) == x`, `lca(x, 0) == x`, and two taxa whose root
    /// paths disagree from the start (or that the table cannot resolve)
    /// have no common ancestor, written 0.
    pub open spec fn spec_lca(&self, a: u32, b: u32) -> u32 {
        if a == 0 || b == 0 || a == b {
            if a != 0 {
                a
            } else {
                b
            }
        } else {
            match (self.spec_get_node(a), self.spec_get_node(b)) {
                (Some(na), Some(nb)) => {
                    let k = common_prefix_len(na.path_to_root@, nb.path_to_root@);
                    if k == 0 {
                        0
                    } else {
                        na.path_to_root@[k - 1]
                    }
                },
                _ => 0,
            }
        }
    }

    pub fn lca(&self, a: u32, b: u32) -> (r: u32)
        ensures
            r == self.spec_lca(a, b),
    {
        if a == 0 || b == 0 || a == b {
            return if a != 0 { a } else { b };
        }
        let na = match self.get_node(&a) {
            Some(n) => n,
            None => { return 0; },
        };
        let nb = match self.get_node(&b) {
            Some(n) => n,
            None => { return 0; },
        };
        let path_a = &na.path_to_root;
        let path_b = &nb.path_to_root;
        let mut i: usize = 0;
        while i < path_a.len() && i < path_b.len() && path_a[i] == path_b[i]
            invariant
                i <= path_a@.len(),
                i <= path_b@.len(),
                forall|j: int| 0 <= j < i ==> path_a@[j] == path_b@[j],
            decreases path_a@.len() - i,
        {
            i += 1;
        }
        proof {
            lemma_common_prefix_at(path_a@, path_b@, i as int);
        }
        if i == 0 {
            return 0;
        }
        path_a[i - 1]
    }
}

/// A copy of `v` in reverse order.
fn reversed_u32(v: &Vec<u32>) -> (r: Vec<u32>)
    ensures
        r@ == v@.reverse(),
{
    let mut out: Vec<u32> = Vec::new();
    let mut j = v.len();
    while j > 0
        invariant
            j <= v@.len(),
            out@ == v@.skip(j as int).reverse(),
        decreases j,
    {
        j -= 1;
        out.push(v[j]);
        proof {
            assert(v@.skip(j as int).reverse() =~= v@.skip(j + 1).reverse().push(v@[j as int]));
        }
    }
    proof {
        assert(v@.skip(0) =~= v@);
    }
    out
}

/// Fuel for parent-chain walks: enough for any acyclic chain through the
/// table, capped so that depths fit in `u32`. A chain that runs out of
/// fuel (a cycle in corrupt data) has its path cut short rather than
/// walked forever.
pub open spec fn path_fuel(n: nat) -> nat {
    if n > 0xFFFF_FFFE {
        0xFFFF_FFFE as nat
    } else {
        n
    }
}

impl NCBITaxonomy {
    /// Ancestor taxids of `x` in walk order (parent first, root last),
    /// following parent links for at most `fuel` steps, stopping at the
    /// root or at a taxid the table cannot resolve.
    pub open spec fn up_path(self, x: u32, fuel: nat) -> Seq<u32>
        decreases fuel,
    {
        if x == 1 || fuel == 0 {
            Seq::empty()
        } else {
            match self.spec_get_node(x) {
                Some(nd) => seq![nd.parent] + self.up_path(nd.parent, (fuel - 1) as nat),
                None => Seq::empty(),
            }
        }
    }

    /// Every node's depth and materialized root path agree with walking
    /// the table's own parent links.
    pub open spec fn paths_consistent(self) -> bool {
        forall|i: int| 0 <= i < self.nodes@.len() ==> {
            let up = self.up_path(
                (#[trigger] self.nodes@[i]).taxid,
                path_fuel(self.nodes@.len() as nat),
            );
            &&& self.nodes@[i].depth == 1 + up.len()
            &&& self.nodes@[i].path_to_root@ == up.reverse()
        }
    }

    proof fn lemma_up_path_len(self, x: u32, fuel: nat)
        ensures
            self.up_path(x, fuel).len() <= fuel,
        decreases fuel,
    {
        if !(x == 1 || fuel == 0) {
            match self.spec_get_node(x) {
                Some(nd) => {
                    self.lemma_up_path_len(nd.parent, (fuel - 1) as nat);
                },
                None => {},
            }
        }
    }

    /// `up_path` reads only the id map and the taxid and parent fields, so
    /// it is unchanged by updates to depths and paths.
    proof fn lemma_up_path_congruent(t1: NCBITaxonomy, t2: NCBITaxonomy, x: u32, fuel: nat)
        requires
            t1.id_map.fwd() == t2.id_map.fwd(),
            t1.nodes@.len() == t2.nodes@.len(),
            forall|i: int| 0 <= i < t1.nodes@.len() ==> (#[trigger] t1.nodes@[i]).taxid
                == t2.nodes@[i].taxid && t1.nodes@[i].parent == t2.nodes@[i].parent,
        ensures
            t1.up_path(x, fuel) == t2.up_path(x, fuel),
        decreases fuel,
    {
        if !(x == 1 || fuel == 0) {
            match (t1.spec_get_node(x), t2.spec_get_node(x)) {
                (Some(n1), Some(n2)) => {
                    Self::lemma_up_path_congruent(t1, t2, n1.parent, (fuel - 1) as nat);
                },
                _ => {},
            }
        }
    }

    /// The walk behind `update_depth_path`, for one starting node.
    fn compute_depth_path(&self, i: usize) -> (r: (u32, Vec<u32>))
        requires
            i < self.nodes@.len(),
        ensures
            ({
                let up = self.up_path(self.nodes@[i as int].taxid, path_fuel(self.nodes@.len() as nat));
                r.0 == 1 + up.len() && r.1@ == up.reverse()
            }),
    {
        let n = self.nodes.len();
        let fuel: usize = if n > 0xFFFF_FFFE { 0xFFFF_FFFE } else { n };
        let ghost fuel_nat = path_fuel(self.nodes@.len() as nat);
        proof {
            assert(fuel == fuel_nat);
        }
        let x0 = self.nodes[i].taxid;
        let mut current: u32 = x0;
        let mut path: Vec<u32> = Vec::new();
        let mut steps: usize = 0;
        loop
            invariant_except_break
                steps <= fuel,
                fuel == fuel_nat,
                path@.len() == steps,
                self.up_path(x0, fuel_nat) == path@ + self.up_path(
                    current,
                    (fuel_nat - steps) as nat,
                ),
            ensures
                self.up_path(x0, fuel_nat) == path@,
                path@.len() <= fuel_nat,
            decreases fuel - steps,
        {
            if current == 1 || steps == fuel {
                proof {
                    assert(self.up_path(current, (fuel_nat - steps) as nat) =~= Seq::<u32>::empty());
                    assert(path@ + Seq::<u32>::empty() =~= path@);
                }
                break;
            }
            match self.get_node(&current) {
                Some(nd) => {
                    let parent = nd.parent;
                    proof {
                        assert(self.up_path(current, (fuel_nat - steps) as nat) =~= seq![parent]
                            + self.up_path(parent, (fuel_nat - steps - 1) as nat));
                        assert(path@ + self.up_path(current, (fuel_nat - steps) as nat)
                            =~= path@.push(parent) + self.up_path(
                            parent,
                            (fuel_nat - (steps + 1)) as nat,
                        ));
                    }
                    path.push(parent);
                    current = parent;
                    steps += 1;
                },
                None => {
                    proof {
                        assert(self.up_path(current, (fuel_nat - steps) as nat)
                            =~= Seq::<u32>::empty());
                        assert(path@ + Seq::<u32>::empty() =~= path@);
                    }
                    break;
                },
            }
        }
        let depth_minus_one = path.len();
        let rev = reversed_u32(&path);
        ((1 + depth_minus_one as u32), rev)
    }

    /// Second pass after loading: computes every node's depth and full
    /// root path by following parent links, cutting a chain short rather
    /// than looping when it cannot reach the root.
    pub fn update_depth_path(&mut self)
        ensures
            final(self).nodes@.len() == old(self).nodes@.len(),
            final(self).id_map == old(self).id_map,
            forall|i: int| 0 <= i < old(self).nodes@.len() ==> {
                &&& (#[trigger] final(self).nodes@[i]).taxid == old(self).nodes@[i].taxid
                &&& final(self).nodes@[i].parent == old(self).nodes@[i].parent
                &&& final(self).nodes@[i].rank == old(self).nodes@[i].rank
            },
            final(self).paths_consistent(),
    {
        let n = self.nodes.len();
        let mut computed: Vec<(u32, Vec<u32>)> = Vec::new();
        let mut i: usize = 0;
        while i < n
            invariant
                i <= n,
                n == self.nodes@.len(),
                *self == *old(self),
                computed@.len() == i,
                forall|j: int| 0 <= j < i ==> {
                    let up = self.up_path(
                        self.nodes@[j].taxid,
                        path_fuel(self.nodes@.len() as nat),
                    );
                    (#[trigger] computed@[j]).0 == 1 + up.len() && computed@[j].1@ == up.reverse()
                },
            decreases n - i,
        {
            let r = self.compute_depth_path(i);
            computed.push(r);
            i += 1;
        }
        let ghost orig = *self;
        let mut k: usize = 0;
        while k < n
            invariant
                k <= n,
                n == orig.nodes@.len(),
                self.nodes@.len() == n,
                self.id_map == orig.id_map,
                computed@.len() == n,
                forall|j: int| 0 <= j < n ==> {
                    let up = orig.up_path(orig.nodes@[j].taxid, path_fuel(n as nat));
                    (#[trigger] computed@[j]).0 == 1 + up.len() && computed@[j].1@ == up.reverse()
                },
                forall|j: int| 0 <= j < n ==> (#[trigger] self.nodes@[j]).taxid
                    == orig.nodes@[j].taxid && self.nodes@[j].parent == orig.nodes@[j].parent
                    && self.nodes@[j].rank == orig.nodes@[j].rank,
                forall|j: int| 0 <= j < k ==> {
                    let up = orig.up_path(orig.nodes@[j].taxid, path_fuel(n as nat));
                    (#[trigger] self.nodes@[j]).depth == 1 + up.len()
                        && self.nodes@[j].path_to_root@ == up.reverse()
                },
            decreases n - k,
        {
            let d = computed[k].0;
            let q = vstd::slice::slice_to_vec(computed[k].1.as_slice());
            self.nodes[k].depth = d;
            self.nodes[k].path_to_root = q;
            k += 1;
        }
        proof {
            assert forall|x: u32, fuel: nat| #[trigger] self.up_path(x, fuel) == orig.up_path(
                x,
                fuel,
            ) by {
                Self::lemma_up_path_congruent(*self, orig, x, fuel);
            }
        }
    }
}

/// The tab-pipe-tab field separator of the hierarchical dump.
pub open spec fn dmp_separator() -> Seq<u8> {
    seq![9u8, 124u8, 9u8]
}

/// Parsed fields of one dump line: taxid, parent and rank. A line parses
/// only if it has at least 10 fields, taxid and parent are numeric, and a
/// non-root node does not name itself as its own parent.
pub open spec fn parse_dmp_line(line: Seq<u8>) -> Option<(u32, u32, Seq<u8>)> {
    let fields = crate::text::split_spec(line, dmp_separator());
    if fields.len() < 10 {
        None
    } else {
        let t0 = crate::text::trim_spec(fields[0]);
        let t1 = crate::text::trim_spec(fields[1]);
        if crate::digits::is_numeral(t0) && crate::digits::numeral_value(t0) <= u32::MAX
            && crate::digits::is_numeral(t1) && crate::digits::numeral_value(t1) <= u32::MAX {
            let taxid = crate::digits::numeral_value(t0) as u32;
            let parent = crate::digits::numeral_value(t1) as u32;
            if taxid != 1 && taxid == parent {
                None
            } else {
                Some((taxid, parent, crate::text::trim_spec(fields[2])))
            }
        } else {
            None
        }
    }
}

/// The taxid-to-index map after loading the first `upto` dump lines:
/// line `i` files its taxid under index `i`.
pub open spec fn dmp_index_map(lines: Seq<Seq<u8>>, upto: int) -> Map<u32, u32>
    decreases upto,
{
    if upto <= 0 {
        Map::empty()
    } else {
        match parse_dmp_line(lines[upto - 1]) {
            Some(f) => dmp_index_map(lines, upto - 1).insert(f.0, (upto - 1) as u32),
            None => dmp_index_map(lines, upto - 1),
        }
    }
}

/// The index-to-taxid map after loading the first `upto` dump lines.
pub open spec fn dmp_rev_map(lines: Seq<Seq<u8>>, upto: int) -> Map<u32, u32>
    decreases upto,
{
    if upto <= 0 {
        Map::empty()
    } else {
        match parse_dmp_line(lines[upto - 1]) {
            Some(f) => dmp_rev_map(lines, upto - 1).insert((upto - 1) as u32, f.0),
            None => dmp_rev_map(lines, upto - 1),
        }
    }
}

impl NCBITaxonomy {
    /// Builds the taxonomy from the lines of a hierarchical dump
    /// (`taxid | parent | rank | ...`, tab-pipe-tab separated), then
    /// computes every node's depth and root path in a second pass.
    /// Fails if any line is short, non-numeric, or has a non-root node
    /// naming itself as parent.
    pub fn load_ncbi_dmp(lines: &Vec<Vec<u8>>) -> (r: Result<NCBITaxonomy, TaxonomyError>)
        requires
            lines@.len() <= u32::MAX,
        ensures
            ({
                let lv = lines@.map_values(|l: Vec<u8>| l@);
                match r {
                    Ok(t) => {
                        &&& forall|i: int| 0 <= i < lv.len() ==> parse_dmp_line(#[trigger] lv[i])
                            is Some
                        &&& t.nodes@.len() == lv.len()
                        &&& forall|i: int| 0 <= i < lv.len() ==> {
                            let f = parse_dmp_line(lv[i])->Some_0;
                            &&& (#[trigger] t.nodes@[i]).taxid == f.0
                            &&& t.nodes@[i].parent == f.1
                            &&& t.nodes@[i].rank@ == f.2
                        }
                        &&& t.id_map.fwd() == dmp_index_map(lv, lv.len() as int)
                        &&& t.id_map.bwd() == dmp_rev_map(lv, lv.len() as int)
                        &&& t.paths_consistent()
                    },
                    Err(_) => exists|i: int| 0 <= i < lv.len() && parse_dmp_line(#[trigger] lv[i])
                        is None,
                }
            }),
    {
        let ghost lv = lines@.map_values(|l: Vec<u8>| l@);
        let mut nodes: Vec<TaxonomyNode> = Vec::new();
        let mut id_map = BiMap::new();
        let n = lines.len();
        let mut i: usize = 0;
        while i < n
            invariant
                i <= n,
                n == lines@.len(),
                n <= u32::MAX,
                lv == lines@.map_values(|l: Vec<u8>| l@),
                nodes@.len() == i,
                forall|j: int| 0 <= j < i ==> parse_dmp_line(#[trigger] lv[j]) is Some,
                forall|j: int| 0 <= j < i ==> {
                    let f = parse_dmp_line(lv[j])->Some_0;
                    &&& (#[trigger] nodes@[j]).taxid == f.0
                    &&& nodes@[j].parent == f.1
                    &&& nodes@[j].rank@ == f.2
                    &&& nodes@[j].depth == if f.0 == 1 { 1int } else { 0int }
                    &&& nodes@[j].path_to_root@ == Seq::<u32>::empty()
                },
                id_map.fwd() == dmp_index_map(lv, i as int),
                id_map.bwd() == dmp_rev_map(lv, i as int),
            decreases n - i,
        {
            let line = &lines[i];
            proof {
                assert(lv[i as int] == lines@[i as int]@);
            }
            let fields = crate::text::split_pat(line.as_slice(), &[9u8, 124u8, 9u8]);
            proof {
                assert((&[9u8, 124u8, 9u8])@ =~= dmp_separator());
                assert(fields@.map_values(|v: Vec<u8>| v@) == crate::text::split_spec(
                    lv[i as int],
                    dmp_separator(),
                ));
            }
            if fields.len() < 10 {
                return Err(TaxonomyError::new("Not enough fields in nodes.dmp; bad line?"));
            }
            let t0 = crate::text::trim(fields[0].as_slice());
            let t1 = crate::text::trim(fields[1].as_slice());
            proof {
                assert(fields@.map_values(|v: Vec<u8>| v@)[0] == fields@[0]@);
                assert(fields@.map_values(|v: Vec<u8>| v@)[1] == fields@[1]@);
                assert(fields@.map_values(|v: Vec<u8>| v@)[2] == fields@[2]@);
            }
            let taxid = match crate::digits::parse_u32(t0) {
                Some(v) => v,
                None => { return Err(TaxonomyError::new("Failed to parse nodes file line")); },
            };
            let parent = match crate::digits::parse_u32(t1) {
                Some(v) => v,
                None => { return Err(TaxonomyError::new("Failed to parse nodes file line")); },
            };
            let rank = vstd::slice::slice_to_vec(crate::text::trim(fields[2].as_slice()));
            let depth: u32 = if taxid == 1 { 1 } else { 0 };
            let node = match TaxonomyNode::new(taxid, parent, rank, depth) {
                Ok(nd) => nd,
                Err(e) => { return Err(e); },
            };
            nodes.push(node);
            id_map.insert(taxid, i as u32);
            i += 1;
        }
        let mut taxo = NCBITaxonomy { nodes, id_map };
        proof {
            assert(lv.len() == n);
        }
        taxo.update_depth_path();
        Ok(taxo)
    }
}

/// `lca(a, a) == a`: a taxon is its own lowest common ancestor.
pub proof fn lemma_lca_self(t: &NCBITaxonomy, a: u32)
    ensures
        t.spec_lca(a, a) == a,
{
}

/// `lca(0, x) == x` and `lca(x, 0) == x`: zero is the neutral query.
pub proof fn lemma_lca_zero(t: &NCBITaxonomy, x: u32)
    ensures
        t.spec_lca(0, x) == x,
        t.spec_lca(x, 0) == x,
{
}

/// `lca` is symmetric.
pub proof fn lemma_lca_sym(t: &NCBITaxonomy, a: u32, b: u32)
    ensures
        t.spec_lca(a, b) == t.spec_lca(b, a),
{
    if !(a == 0 || b == 0 || a == b) {
        match (t.spec_get_node(a), t.spec_get_node(b)) {
            (Some(na), Some(nb)) => {
                lemma_common_prefix_sym(na.path_to_root@, nb.path_to_root@);
                lemma_common_prefix_props(na.path_to_root@, nb.path_to_root@);
            },
            _ => {},
        }
    }
}

/// Taxa whose root paths are disjoint from the first step have no common
/// ancestor below the root: the query answers 0.
pub proof fn lemma_lca_disjoint(t: &NCBITaxonomy, a: u32, b: u32)
    requires
        a != 0,
        b != 0,
        a != b,
        t.spec_get_node(a) matches Some(na) && (t.spec_get_node(b) matches Some(nb)
            && (na.path_to_root@.len() == 0 || nb.path_to_root@.len() == 0 || na.path_to_root@[0]
            != nb.path_to_root@[0])),
    ensures
        t.spec_lca(a, b) == 0,
{
}


/// One path field: the ancestor taxids space-joined, empty for the root.
pub open spec fn encode_path(path: Seq<u32>) -> Seq<u8> {
    crate::text::join_with(path.map_values(|x: u32| crate::digits::dec_of(x as nat)), 32)
}

/// One snapshot line: taxid, parent, depth, the root path, and the rank
/// escaped, tab-separated.
pub open spec fn encode_node_line(nd: TaxonomyNode) -> Seq<u8> {
    crate::digits::dec_of(nd.taxid as nat) + seq![9u8] + crate::digits::dec_of(nd.parent as nat)
        + seq![9u8] + crate::digits::dec_of(nd.depth as nat) + seq![9u8] + encode_path(
        nd.path_to_root@,
    ) + seq![9u8] + escape_rank(nd.rank@)
}

/// The whole snapshot: one line per node, newline-joined.
pub open spec fn snapshot_spec(nodes: Seq<TaxonomyNode>) -> Seq<u8> {
    crate::text::join_with(nodes.map_values(|nd: TaxonomyNode| encode_node_line(nd)), 10)
}

/// The lines of a snapshot; empty bytes carry no node at all.
pub open spec fn snapshot_lines(bytes: Seq<u8>) -> Seq<Seq<u8>> {
    if bytes.len() == 0 {
        Seq::empty()
    } else {
        crate::text::split_spec(bytes, seq![10u8])
    }
}

/// Every part is a numeral no wider than a taxid.
pub open spec fn path_parts_ok(parts: Seq<Seq<u8>>) -> bool {
    forall|i: int| 0 <= i < parts.len() ==> crate::digits::is_numeral(#[trigger] parts[i])
        && crate::digits::numeral_value(parts[i]) <= u32::MAX
}

/// The taxids the parts denote.
pub open spec fn path_parts_vals(parts: Seq<Seq<u8>>) -> Seq<u32> {
    parts.map_values(|p: Seq<u8>| crate::digits::numeral_value(p) as u32)
}

/// A parsed path field: empty means the empty path.
pub open spec fn parse_snapshot_path(field: Seq<u8>) -> Option<Seq<u32>> {
    if field.len() == 0 {
        Some(Seq::empty())
    } else {
        let parts = crate::text::split_spec(field, seq![32u8]);
        if path_parts_ok(parts) {
            Some(path_parts_vals(parts))
        } else {
            None
        }
    }
}

/// A parsed snapshot line: exactly five tab-separated fields, the first
/// three numeric, the fourth a path, the fifth the rank, unescaped.
pub open spec fn parse_snapshot_line(line: Seq<u8>) -> Option<(u32, u32, u32, Seq<u32>, Seq<u8>)> {
    let fields = crate::text::split_spec(line, seq![9u8]);
    if fields.len() != 5 {
        None
    } else if crate::digits::is_numeral(fields[0]) && crate::digits::numeral_value(fields[0])
        <= u32::MAX && crate::digits::is_numeral(fields[1]) && crate::digits::numeral_value(
        fields[1],
    ) <= u32::MAX && crate::digits::is_numeral(fields[2]) && crate::digits::numeral_value(fields[2])
        <= u32::MAX {
        match parse_snapshot_path(fields[3]) {
            Some(path) => Some(
                (
                    crate::digits::numeral_value(fields[0]) as u32,
                    crate::digits::numeral_value(fields[1]) as u32,
                    crate::digits::numeral_value(fields[2]) as u32,
                    path,
                    unescape_rank(fields[4]),
                ),
            ),
            None => None,
        }
    } else {
        None
    }
}

/// The taxid-to-index map rebuilt from the first `upto` snapshot lines.
pub open spec fn snap_index_map(lines: Seq<Seq<u8>>, upto: int) -> Map<u32, u32>
    decreases upto,
{
    if upto <= 0 {
        Map::empty()
    } else {
        match parse_snapshot_line(lines[upto - 1]) {
            Some(f) => snap_index_map(lines, upto - 1).insert(f.0, (upto - 1) as u32),
            None => snap_index_map(lines, upto - 1),
        }
    }
}

/// The index-to-taxid map rebuilt from the first `upto` snapshot lines.
pub open spec fn snap_rev_map(lines: Seq<Seq<u8>>, upto: int) -> Map<u32, u32>
    decreases upto,
{
    if upto <= 0 {
        Map::empty()
    } else {
        match parse_snapshot_line(lines[upto - 1]) {
            Some(f) => snap_rev_map(lines, upto - 1).insert((upto - 1) as u32, f.0),
            None => snap_rev_map(lines, upto - 1),
        }
    }
}

/// The two-byte escape pair for one rank byte, where one is needed:
/// backslash, tab and newline each become a backslash pair, so that an
/// escaped rank can sit inside a tab-separated, newline-joined snapshot
/// whatever bytes the rank holds.
pub open spec fn escape_byte(b: u8) -> Seq<u8> {
    if b == 92 {
        seq![92u8, 92u8]
    } else if b == 9 {
        seq![92u8, 116u8]
    } else if b == 10 {
        seq![92u8, 110u8]
    } else {
        seq![b]
    }
}

/// A rank escaped byte by byte for the snapshot's rank field.
pub open spec fn escape_rank(s: Seq<u8>) -> Seq<u8>
    decreases s.len(),
{
    if s.len() == 0 {
        Seq::empty()
    } else {
        escape_byte(s[0]) + escape_rank(s.skip(1))
    }
}

/// The inverse reading: a backslash followed by `t`, `n` or any other
/// byte stands for tab, newline or that byte itself.
pub open spec fn unescape_rank(s: Seq<u8>) -> Seq<u8>
    decreases s.len(),
{
    if s.len() == 0 {
        Seq::empty()
    } else if s[0] == 92 && s.len() >= 2 {
        let c = if s[1] == 116 {
            9u8
        } else if s[1] == 110 {
            10u8
        } else {
            s[1]
        };
        seq![c] + unescape_rank(s.skip(2))
    } else {
        seq![s[0]] + unescape_rank(s.skip(1))
    }
}

/// An escaped rank never holds a tab or a newline.
proof fn lemma_escape_rank_clean(s: Seq<u8>)
    ensures
        crate::text::free_of(escape_rank(s), 9),
        crate::text::free_of(escape_rank(s), 10),
    decreases s.len(),
{
    if s.len() > 0 {
        lemma_escape_rank_clean(s.skip(1));
        let head = escape_byte(s[0]);
        assert forall|i: int| 0 <= i < escape_rank(s).len() implies escape_rank(s)[i] != 9
            && escape_rank(s)[i] != 10 by {
            if i < head.len() {
                assert(escape_rank(s)[i] == head[i]);
            } else {
                assert(escape_rank(s)[i] == escape_rank(s.skip(1))[i - head.len()]);
            }
        }
    }
}

/// Unescaping inverts escaping: the snapshot's rank field round-trips
/// every rank, raw tabs and newlines included.
proof fn lemma_unescape_escape_rank(s: Seq<u8>)
    ensures
        unescape_rank(escape_rank(s)) == s,
    decreases s.len(),
{
    if s.len() == 0 {
        assert(unescape_rank(escape_rank(s)) =~= s);
    } else {
        lemma_unescape_escape_rank(s.skip(1));
        let head = escape_byte(s[0]);
        let e = escape_rank(s);
        let rest = escape_rank(s.skip(1));
        assert(e == head + rest);
        if s[0] == 92 || s[0] == 9 || s[0] == 10 {
            assert(e[0] == 92 && e.len() >= 2 && e[1] == head[1]);
            assert(e.skip(2) =~= rest);
            assert(unescape_rank(e) == seq![s[0]] + s.skip(1));
        } else {
            assert(e[0] == s[0]);
            assert(e.skip(1) =~= rest);
            assert(unescape_rank(e) == seq![s[0]] + s.skip(1));
        }
        assert(seq![s[0]] + s.skip(1) =~= s);
    }
}

/// Escapes a rank for its snapshot field.
fn escape_rank_exec(s: &[u8]) -> (r: Vec<u8>)
    ensures
        r@ == escape_rank(s@),
{
    let n = s.len();
    let mut out: Vec<u8> = Vec::new();
    let mut i: usize = 0;
    proof {
        assert(s@.skip(0) =~= s@);
        assert(out@ + escape_rank(s@) =~= escape_rank(s@));
    }
    while i < n
        invariant
            i <= n,
            n == s@.len(),
            escape_rank(s@) == out@ + escape_rank(s@.skip(i as int)),
        decreases n - i,
    {
        let b = s[i];
        let ghost pre = out@;
        if b == 92 {
            out.push(92);
            out.push(92);
        } else if b == 9 {
            out.push(92);
            out.push(116);
        } else if b == 10 {
            out.push(92);
            out.push(110);
        } else {
            out.push(b);
        }
        proof {
            assert(s@.skip(i as int)[0] == b);
            assert(s@.skip(i as int).skip(1) =~= s@.skip(i + 1));
            assert(out@ =~= pre + escape_byte(b));
            assert(escape_rank(s@) =~= out@ + escape_rank(s@.skip(i + 1)));
        }
        i += 1;
    }
    proof {
        assert(s@.skip(n as int) =~= Seq::<u8>::empty());
        assert(escape_rank(s@) =~= out@);
    }
    out
}

/// Reads a snapshot rank field back to the rank it encodes.
fn unescape_rank_exec(s: &[u8]) -> (r: Vec<u8>)
    ensures
        r@ == unescape_rank(s@),
{
    let n = s.len();
    let mut out: Vec<u8> = Vec::new();
    let mut i: usize = 0;
    proof {
        assert(s@.skip(0) =~= s@);
        assert(out@ + unescape_rank(s@) =~= unescape_rank(s@));
    }
    while i < n
        invariant
            i <= n,
            n == s@.len(),
            unescape_rank(s@) == out@ + unescape_rank(s@.skip(i as int)),
        decreases n - i,
    {
        let b = s[i];
        let ghost pre = out@;
        if b == 92 && i + 1 < n {
            let c = s[i + 1];
            let d: u8 = if c == 116 {
                9
            } else if c == 110 {
                10
            } else {
                c
            };
            out.push(d);
            proof {
                assert(s@.skip(i as int)[0] == b);
                assert(s@.skip(i as int)[1] == c);
                assert(s@.skip(i as int).skip(2) =~= s@.skip(i + 2));
                assert(out@ =~= pre + seq![d]);
                assert(unescape_rank(s@) =~= out@ + unescape_rank(s@.skip(i + 2)));
            }
            i += 2;
        } else {
            out.push(b);
            proof {
                assert(s@.skip(i as int)[0] == b);
                assert(s@.skip(i as int).skip(1) =~= s@.skip(i + 1));
                assert(out@ =~= pre + seq![b]);
                assert(unescape_rank(s@) =~= out@ + unescape_rank(s@.skip(i + 1)));
            }
            i += 1;
        }
    }
    proof {
        assert(s@.skip(n as int) =~= Seq::<u8>::empty());
        assert(unescape_rank(s@) =~= out@);
    }
    out
}

impl NCBITaxonomy {
    /// Serializes the node table for the cache file: one line per node
    /// holding taxid, parent, depth, root path and rank; the id map is
    /// rebuilt on reload.
    pub fn save_to_snapshot(&self) -> (r: Vec<u8>)
        ensures
            r@ == snapshot_spec(self.nodes@),
    {
        let ghost node_lines = self.nodes@.map_values(|nd: TaxonomyNode| encode_node_line(nd));
        let n = self.nodes.len();
        let mut out: Vec<u8> = Vec::new();
        let mut i: usize = 0;
        while i < n
            invariant
                i <= n,
                n == self.nodes@.len(),
                node_lines == self.nodes@.map_values(|nd: TaxonomyNode| encode_node_line(nd)),
                out@ == crate::text::join_with(node_lines.take(i as int), 10),
            decreases n - i,
        {
            if i > 0 {
                out.push(10);
            }
            let nd = &self.nodes[i];
            let t = crate::digits::u32_to_dec(nd.taxid);
            crate::text::push_all(&mut out, t.as_slice());
            out.push(9);
            let p = crate::digits::u32_to_dec(nd.parent);
            crate::text::push_all(&mut out, p.as_slice());
            out.push(9);
            let d = crate::digits::u32_to_dec(nd.depth);
            crate::text::push_all(&mut out, d.as_slice());
            out.push(9);
            let ghost path_parts = nd.path_to_root@.map_values(
                |x: u32| crate::digits::dec_of(x as nat),
            );
            let np = nd.path_to_root.len();
            let ghost before_path = out@;
            let mut k: usize = 0;
            while k < np
                invariant
                    k <= np,
                    np == nd.path_to_root@.len(),
                    path_parts == nd.path_to_root@.map_values(
                        |x: u32| crate::digits::dec_of(x as nat),
                    ),
                    out@ == before_path + crate::text::join_with(path_parts.take(k as int), 32),
                decreases np - k,
            {
                if k > 0 {
                    out.push(32);
                }
                let e = crate::digits::u32_to_dec(nd.path_to_root[k]);
                crate::text::push_all(&mut out, e.as_slice());
                proof {
                    crate::text::lemma_join_with_snoc(path_parts, 32, k as int);
                    if k == 0 {
                        assert(out@ =~= before_path + crate::text::join_with(
                            path_parts.take(1),
                            32,
                        ));
                    } else {
                        assert(out@ =~= before_path + crate::text::join_with(
                            path_parts.take(k + 1),
                            32,
                        ));
                    }
                }
                k += 1;
            }
            out.push(9);
            let esc = escape_rank_exec(nd.rank.as_slice());
            crate::text::push_all(&mut out, esc.as_slice());
            proof {
                assert(path_parts.take(np as int) =~= path_parts);
                crate::text::lemma_join_with_snoc(node_lines, 10, i as int);
                assert(node_lines[i as int] == encode_node_line(self.nodes@[i as int]));
                if i == 0 {
                    assert(out@ =~= crate::text::join_with(node_lines.take(1), 10));
                } else {
                    assert(out@ =~= crate::text::join_with(node_lines.take(i + 1), 10));
                }
            }
            i += 1;
        }
        proof {
            assert(node_lines.take(n as int) =~= node_lines);
        }
        out
    }

    /// Restores a taxonomy from a cache snapshot, rebuilding the
    /// bidirectional id map; depths and paths are taken from the file as
    /// written. Fails on a malformed line or an oversized table.
    pub fn load_snapshot(bytes: &[u8]) -> (r: Result<NCBITaxonomy, TaxonomyError>)
        ensures
            ({
                let ls = snapshot_lines(bytes@);
                match r {
                    Ok(t) => {
                        &&& ls.len() <= u32::MAX
                        &&& forall|i: int| 0 <= i < ls.len() ==> parse_snapshot_line(
                            #[trigger] ls[i],
                        ) is Some
                        &&& t.nodes@.len() == ls.len()
                        &&& forall|i: int| 0 <= i < ls.len() ==> {
                            let f = parse_snapshot_line(ls[i])->Some_0;
                            &&& (#[trigger] t.nodes@[i]).taxid == f.0
                            &&& t.nodes@[i].parent == f.1
                            &&& t.nodes@[i].depth == f.2
                            &&& t.nodes@[i].path_to_root@ == f.3
                            &&& t.nodes@[i].rank@ == f.4
                        }
                        &&& t.id_map.fwd() == snap_index_map(ls, ls.len() as int)
                        &&& t.id_map.bwd() == snap_rev_map(ls, ls.len() as int)
                    },
                    Err(_) => ls.len() > u32::MAX || exists|i: int|
                        0 <= i < ls.len() && parse_snapshot_line(#[trigger] ls[i]) is None,
                }
            }),
    {
        let mut nodes: Vec<TaxonomyNode> = Vec::new();
        let mut id_map = BiMap::new();
        if bytes.len() == 0 {
            proof {
                assert(snapshot_lines(bytes@) =~= Seq::<Seq<u8>>::empty());
            }
            return Ok(NCBITaxonomy { nodes, id_map });
        }
        let lines = crate::text::split_pat(bytes, &[10u8]);
        proof {
            assert((&[10u8])@ =~= seq![10u8]);
        }
        let ghost ls = snapshot_lines(bytes@);
        proof {
            assert(lines@.map_values(|v: Vec<u8>| v@) == ls);
        }
        let n = lines.len();
        if n > u32::MAX as usize {
            return Err(TaxonomyError::new("snapshot has too many lines"));
        }
        let mut i: usize = 0;
        while i < n
            invariant
                i <= n,
                n == lines@.len(),
                n <= u32::MAX,
                ls == lines@.map_values(|v: Vec<u8>| v@),
                ls == snapshot_lines(bytes@),
                nodes@.len() == i,
                forall|j: int| 0 <= j < i ==> parse_snapshot_line(#[trigger] ls[j]) is Some,
                forall|j: int| 0 <= j < i ==> {
                    let f = parse_snapshot_line(ls[j])->Some_0;
                    &&& (#[trigger] nodes@[j]).taxid == f.0
                    &&& nodes@[j].parent == f.1
                    &&& nodes@[j].depth == f.2
                    &&& nodes@[j].path_to_root@ == f.3
                    &&& nodes@[j].rank@ == f.4
                },
                id_map.fwd() == snap_index_map(ls, i as int),
                id_map.bwd() == snap_rev_map(ls, i as int),
            decreases n - i,
        {
            proof {
                assert(ls[i as int] == lines@[i as int]@);
            }
            let fields = crate::text::split_pat(lines[i].as_slice(), &[9u8]);
            let ghost fv = crate::text::split_spec(ls[i as int], seq![9u8]);
            proof {
                assert((&[9u8])@ =~= seq![9u8]);
                assert(fields@.map_values(|v: Vec<u8>| v@) == fv);
            }
            if fields.len() != 5 {
                proof {
                    assert((i as int) < ls.len());
                    assert(parse_snapshot_line(ls[i as int]) is None);
                    assert(ls == snapshot_lines(bytes@));
                    assert(exists|j: int|
                        0 <= j < snapshot_lines(bytes@).len() && parse_snapshot_line(
                            #[trigger] snapshot_lines(bytes@)[j],
                        ) is None);
                }
                return Err(TaxonomyError::new("Failed to parse snapshot line"));
            }
            proof {
                assert(fv[0] == fields@[0]@);
                assert(fv[1] == fields@[1]@);
                assert(fv[2] == fields@[2]@);
                assert(fv[3] == fields@[3]@);
                assert(fv[4] == fields@[4]@);
            }
            let taxid = match crate::digits::parse_u32(fields[0].as_slice()) {
                Some(v) => v,
                None => {
                    proof {
                        assert((i as int) < ls.len());
                        assert(parse_snapshot_line(ls[i as int]) is None);
                        assert(ls == snapshot_lines(bytes@));
                        assert(exists|j: int|
                            0 <= j < snapshot_lines(bytes@).len() && parse_snapshot_line(
                                #[trigger] snapshot_lines(bytes@)[j],
                            ) is None);
                    }
                    return Err(TaxonomyError::new("Failed to parse snapshot line"));
                },
            };
            let parent = match crate::digits::parse_u32(fields[1].as_slice()) {
                Some(v) => v,
                None => {
                    proof {
                        assert((i as int) < ls.len());
                        assert(parse_snapshot_line(ls[i as int]) is None);
                        assert(ls == snapshot_lines(bytes@));
                        assert(exists|j: int|
                            0 <= j < snapshot_lines(bytes@).len() && parse_snapshot_line(
                                #[trigger] snapshot_lines(bytes@)[j],
                            ) is None);
                    }
                    return Err(TaxonomyError::new("Failed to parse snapshot line"));
                },
            };
            let depth = match crate::digits::parse_u32(fields[2].as_slice()) {
                Some(v) => v,
                None => {
                    proof {
                        assert((i as int) < ls.len());
                        assert(parse_snapshot_line(ls[i as int]) is None);
                        assert(ls == snapshot_lines(bytes@));
                        assert(exists|j: int|
                            0 <= j < snapshot_lines(bytes@).len() && parse_snapshot_line(
                                #[trigger] snapshot_lines(bytes@)[j],
                            ) is None);
                    }
                    return Err(TaxonomyError::new("Failed to parse snapshot line"));
                },
            };
            let mut path: Vec<u32> = Vec::new();
            if fields[3].len() > 0 {
                let parts = crate::text::split_pat(fields[3].as_slice(), &[32u8]);
                proof {
                    assert((&[32u8])@ =~= seq![32u8]);
                }
                let ghost pv = parts@.map_values(|v: Vec<u8>| v@);
                let np = parts.len();
                let mut k: usize = 0;
                while k < np
                    invariant
                        k <= np,
                        np == parts@.len(),
                        pv == parts@.map_values(|v: Vec<u8>| v@),
                        i < n,
                        n == lines@.len(),
                        ls == lines@.map_values(|v: Vec<u8>| v@),
                        ls == snapshot_lines(bytes@),
                        fv == crate::text::split_spec(ls[i as int], seq![9u8]),
                        fv.len() == 5,
                        pv == crate::text::split_spec(fv[3], seq![32u8]),
                        fv[3].len() > 0,
                        crate::digits::is_numeral(fv[0]) && crate::digits::numeral_value(fv[0])
                            <= u32::MAX,
                        crate::digits::is_numeral(fv[1]) && crate::digits::numeral_value(fv[1])
                            <= u32::MAX,
                        crate::digits::is_numeral(fv[2]) && crate::digits::numeral_value(fv[2])
                            <= u32::MAX,
                        path@.len() == k,
                        forall|q: int| 0 <= q < k ==> crate::digits::is_numeral(#[trigger] pv[q])
                            && crate::digits::numeral_value(pv[q]) <= u32::MAX,
                        forall|q: int| 0 <= q < k ==> (#[trigger] path@[q]) as nat
                            == crate::digits::numeral_value(pv[q]),
                    decreases np - k,
                {
                    proof {
                        assert(pv[k as int] == parts@[k as int]@);
                    }
                    match crate::digits::parse_u32(parts[k].as_slice()) {
                        Some(v) => {
                            path.push(v);
                        },
                        None => {
                            proof {
                                assert(!(crate::digits::is_numeral(pv[k as int])
                                    && crate::digits::numeral_value(pv[k as int]) <= u32::MAX));
                                assert(!path_parts_ok(pv));
                                assert(pv == crate::text::split_spec(fv[3], seq![32u8]));
                                assert(fv[3].len() > 0);
                                assert(parse_snapshot_path(fv[3]) is None);
                                assert((i as int) < ls.len());
                                assert(parse_snapshot_line(ls[i as int]) is None);
                                assert(ls == snapshot_lines(bytes@));
                                assert(exists|j: int|
                                    0 <= j < snapshot_lines(bytes@).len() && parse_snapshot_line(
                                        #[trigger] snapshot_lines(bytes@)[j],
                                    ) is None);
                            }
                            return Err(TaxonomyError::new("Failed to parse snapshot line"));
                        },
                    }
                    k += 1;
                }
                proof {
                    assert(path_parts_ok(pv));
                    assert(path@ =~= path_parts_vals(pv));
                }
            }
            let rank = unescape_rank_exec(fields[4].as_slice());
            let node = TaxonomyNode { taxid, parent, rank, depth, path_to_root: path };
            nodes.push(node);
            id_map.insert(taxid, i as u32);
            i += 1;
        }
        Ok(NCBITaxonomy { nodes, id_map })
    }
}

/// Round trip: snapshotting a taxonomy and reading the snapshot back
/// yields the identical node set, with every taxid, parent, depth, root
/// path and rank preserved, line by line, whatever bytes the ranks hold.
pub proof fn lemma_snapshot_round_trip(nodes: Seq<TaxonomyNode>)
    ensures
        ({
            let ls = snapshot_lines(snapshot_spec(nodes));
            &&& ls.len() == nodes.len()
            &&& forall|i: int| 0 <= i < nodes.len() ==> parse_snapshot_line(#[trigger] ls[i])
                == Some(
                (
                    nodes[i].taxid,
                    nodes[i].parent,
                    nodes[i].depth,
                    nodes[i].path_to_root@,
                    nodes[i].rank@,
                ),
            )
        }),
{
    let node_lines = nodes.map_values(|nd: TaxonomyNode| encode_node_line(nd));
    let b = snapshot_spec(nodes);
    if nodes.len() == 0 {
        assert(b =~= Seq::<u8>::empty());
        assert(snapshot_lines(b) =~= Seq::<Seq<u8>>::empty());
    } else {
        assert forall|j: int| 0 <= j < node_lines.len() implies crate::text::free_of(
            #[trigger] node_lines[j],
            10,
        ) by {
            lemma_node_line_clean(nodes[j]);
        }
        crate::text::lemma_split_of_join(node_lines, 10);
        assert(b.len() > 0) by {
            lemma_node_line_clean(nodes[0]);
            assert(node_lines[0].len() > 0);
            if nodes.len() == 1 {
                assert(b == node_lines[0]);
            } else {
                assert(b == node_lines[0] + seq![10u8] + crate::text::join_with(
                    node_lines.skip(1),
                    10,
                ));
            }
        }
        let ls = snapshot_lines(b);
        assert(ls == node_lines);
        assert forall|i: int| 0 <= i < nodes.len() implies parse_snapshot_line(#[trigger] ls[i])
            == Some(
            (
                nodes[i].taxid,
                nodes[i].parent,
                nodes[i].depth,
                nodes[i].path_to_root@,
                nodes[i].rank@,
            ),
        ) by {
            lemma_node_line_parses(nodes[i]);
        }
    }
}

/// A snapshot line holds no newline, and its rank field is its last.
proof fn lemma_node_line_clean(nd: TaxonomyNode)
    ensures
        crate::text::free_of(encode_node_line(nd), 10),
        encode_node_line(nd).len() > 0,
{
    crate::digits::lemma_dec_of_shape(nd.taxid as nat);
    crate::digits::lemma_dec_of_shape(nd.parent as nat);
    crate::digits::lemma_dec_of_shape(nd.depth as nat);
    lemma_encode_path_clean(nd.path_to_root@);
    lemma_escape_rank_clean(nd.rank@);
}

/// A path field holds only digits and spaces.
proof fn lemma_encode_path_clean(path: Seq<u32>)
    ensures
        forall|i: int| 0 <= i < encode_path(path).len() ==> (crate::digits::is_dec_digit(
            #[trigger] encode_path(path)[i],
        ) || encode_path(path)[i] == 32),
    decreases path.len(),
{
    let parts = path.map_values(|x: u32| crate::digits::dec_of(x as nat));
    if path.len() == 0 {
    } else if path.len() == 1 {
        crate::digits::lemma_dec_of_shape(path[0] as nat);
        assert(encode_path(path) == parts[0]);
    } else {
        crate::digits::lemma_dec_of_shape(path[0] as nat);
        lemma_encode_path_clean(path.skip(1));
        assert(parts.skip(1) =~= path.skip(1).map_values(
            |x: u32| crate::digits::dec_of(x as nat),
        ));
        assert(encode_path(path) == parts[0] + seq![32u8] + encode_path(path.skip(1)));
    }
}

/// One encoded node line parses back to the node's own fields.
#[verifier::rlimit(100)]
#[verifier::spinoff_prover]
proof fn lemma_node_line_parses(nd: TaxonomyNode)
    ensures
        parse_snapshot_line(encode_node_line(nd)) == Some(
            (nd.taxid, nd.parent, nd.depth, nd.path_to_root@, nd.rank@),
        ),
{
    let f0 = crate::digits::dec_of(nd.taxid as nat);
    let f1 = crate::digits::dec_of(nd.parent as nat);
    let f2 = crate::digits::dec_of(nd.depth as nat);
    let f3 = encode_path(nd.path_to_root@);
    let f4 = escape_rank(nd.rank@);
    let fields = seq![f0, f1, f2, f3, f4];
    crate::digits::lemma_dec_of_shape(nd.taxid as nat);
    crate::digits::lemma_dec_of_shape(nd.parent as nat);
    crate::digits::lemma_dec_of_shape(nd.depth as nat);
    lemma_encode_path_clean(nd.path_to_root@);
    lemma_escape_rank_clean(nd.rank@);
    lemma_unescape_escape_rank(nd.rank@);
    assert forall|j: int| 0 <= j < fields.len() implies crate::text::free_of(
        #[trigger] fields[j],
        9,
    ) by {
    }
    crate::text::lemma_split_of_join(fields, 9);
    assert(fields.skip(1) =~= seq![f1, f2, f3, f4]);
    assert(seq![f1, f2, f3, f4].skip(1) =~= seq![f2, f3, f4]);
    assert(seq![f2, f3, f4].skip(1) =~= seq![f3, f4]);
    assert(seq![f3, f4].skip(1) =~= seq![f4]);
    assert(crate::text::join_with(seq![f4], 9) == f4);
    assert(crate::text::join_with(seq![f3, f4], 9) == f3 + seq![9u8] + f4);
    assert(crate::text::join_with(seq![f2, f3, f4], 9) == f2 + seq![9u8] + (f3 + seq![9u8] + f4));
    assert(crate::text::join_with(seq![f1, f2, f3, f4], 9) == f1 + seq![9u8] + (f2 + seq![9u8] + (f3
        + seq![9u8] + f4)));
    assert(crate::text::join_with(fields, 9) == f0 + seq![9u8] + (f1 + seq![9u8] + (f2 + seq![9u8]
        + (f3 + seq![9u8] + f4))));
    assert(encode_node_line(nd) =~= crate::text::join_with(fields, 9));
    crate::digits::lemma_dec_round_trip(nd.taxid as nat);
    crate::digits::lemma_dec_round_trip(nd.parent as nat);
    crate::digits::lemma_dec_round_trip(nd.depth as nat);
    lemma_encode_path_parses(nd.path_to_root@);
}

/// A path field parses back to the path it encodes.
proof fn lemma_encode_path_parses(path: Seq<u32>)
    ensures
        parse_snapshot_path(encode_path(path)) == Some(path),
{
    let parts = path.map_values(|x: u32| crate::digits::dec_of(x as nat));
    if path.len() == 0 {
        assert(encode_path(path) =~= Seq::<u8>::empty());
        assert(parse_snapshot_path(encode_path(path)) == Some(Seq::<u32>::empty()));
        assert(Seq::<u32>::empty() =~= path);
    } else {
        assert forall|j: int| 0 <= j < parts.len() implies crate::text::free_of(
            #[trigger] parts[j],
            32,
        ) by {
            crate::digits::lemma_dec_of_shape(path[j] as nat);
        }
        crate::text::lemma_split_of_join(parts, 32);
        assert(encode_path(path).len() > 0) by {
            crate::digits::lemma_dec_of_shape(path[0] as nat);
            if path.len() == 1 {
                assert(encode_path(path) == parts[0]);
            } else {
                assert(encode_path(path) == parts[0] + seq![32u8] + crate::text::join_with(
                    parts.skip(1),
                    32,
                ));
            }
            assert(parts[0].len() >= 1);
        }
        assert forall|q: int| 0 <= q < parts.len() implies crate::digits::is_numeral(
            #[trigger] parts[q],
        ) && crate::digits::numeral_value(parts[q]) <= u32::MAX by {
            crate::digits::lemma_dec_round_trip(path[q] as nat);
        }
        assert forall|q: int| 0 <= q < parts.len() implies path_parts_vals(parts)[q] == path[q] by {
            crate::digits::lemma_dec_round_trip(path[q] as nat);
        }
        assert(path_parts_vals(parts) =~= path);
    }
}
} // verus!
