use vstd::prelude::*;

verus! {

/// Array-based taxonomy: five parallel, equal-length columns indexed by a
/// shared position. A node is a root iff its parent index equals its own
/// position. Branch lengths are carried as already-rendered decimal text,
/// since they are only ever copied and embedded into Newick output.
pub struct Taxonomy {
    pub taxid_vec: Vec<String>,
    pub parentid_vec: Vec<usize>,
    pub name_vec: Vec<String>,
    pub rank_vec: Vec<String>,
    pub parent_distances: Vec<String>,
}

/// Mathematical model of a [`Taxonomy`]: the five columns as sequences.
pub ghost struct TaxoModel {
    pub taxids: Seq<Seq<char>>,
    pub parents: Seq<int>,
    pub names: Seq<Seq<char>>,
    pub ranks: Seq<Seq<char>>,
    pub dists: Seq<Seq<char>>,
}

impl TaxoModel {
    pub open spec fn len(self) -> int {
        self.taxids.len() as int
    }

    /// All columns have one entry per position and every parent index is a
    /// valid position.
    pub open spec fn wf(self) -> bool {
        &&& self.parents.len() == self.taxids.len()
        &&& self.names.len() == self.taxids.len()
        &&& self.ranks.len() == self.taxids.len()
        &&& self.dists.len() == self.taxids.len()
        &&& forall|i: int|
            0 <= i < self.len() ==> 0 <= #[trigger] self.parents[i] < self.len()
    }
}

/// One externally supplied node record: identifiers and parent identifier
/// as text, with the branch length already rendered.
pub struct TaxonRecord {
    pub taxid: String,
    pub parent_taxid: String,
    pub name: String,
    pub rank: String,
    pub parent_distance: String,
}

/// The taxid column of a record sequence.
pub open spec fn record_taxids(rs: Seq<TaxonRecord>) -> Seq<Seq<char>> {
    Seq::new(rs.len(), |i: int| rs[i].taxid@)
}

/// The position a record's parent identifier resolves to: the greatest
/// position bearing that taxid, or position 0 when it is absent.
pub open spec fn resolved_parent(rs: Seq<TaxonRecord>, i: int) -> int {
    let j = last_index_of(record_taxids(rs), rs[i].parent_taxid@);
    if j >= 0 {
        j
    } else {
        0
    }
}

impl View for Taxonomy {
    type V = TaxoModel;

    open spec fn view(&self) -> TaxoModel {
        TaxoModel {
            taxids: self.taxid_vec.deep_view(),
            parents: self.parentid_vec@.map_values(|u: usize| u as int),
            names: self.name_vec.deep_view(),
            ranks: self.rank_vec.deep_view(),
            dists: self.parent_distances.deep_view(),
        }
    }
}

/// `to` lies on the walk that starts at `from` and repeatedly follows
/// `parents`, taking at most `fuel` steps and stopping at a self-referential
/// position.
pub open spec fn in_chain(parents: Seq<int>, from: int, to: int, fuel: nat) -> bool
    decreases fuel,
{
    if from == to {
        true
    } else if fuel == 0 {
        false
    } else if !(0 <= from < parents.len()) {
        false
    } else if parents[from] == from {
        false
    } else {
        in_chain(parents, parents[from], to, (fuel - 1) as nat)
    }
}

/// `to` lies on the parent walk from `from`, after any number of steps.
pub open spec fn reaches(parents: Seq<int>, from: int, to: int) -> bool {
    exists|fuel: nat| in_chain(parents, from, to, fuel)
}

/// The greatest position of `s` holding `x`, or -1 when `x` is absent.
pub open spec fn last_index_of(s: Seq<Seq<char>>, x: Seq<char>) -> int
    decreases s.len(),
{
    if s.len() == 0 {
        -1
    } else if s.last() == x {
        s.len() - 1
    } else {
        last_index_of(s.drop_last(), x)
    }
}

/// Position `m` is retained by one of the first `upto` requested ids: that id
/// resolves to a position whose ancestor walk passes through `m`.
pub open spec fn is_kept_upto(t: TaxoModel, ids: Seq<Seq<char>>, upto: int, m: int) -> bool {
    exists|k: int|
        0 <= k < upto && last_index_of(t.taxids, ids[k]) >= 0 && reaches(
            t.parents,
            last_index_of(t.taxids, ids[k]),
            m,
        )
}

/// Position `m` is retained by a prune for `ids`: some requested id resolves
/// to a position whose ancestor walk passes through `m`.
pub open spec fn is_kept(t: TaxoModel, ids: Seq<Seq<char>>, m: int) -> bool {
    is_kept_upto(t, ids, ids.len() as int, m)
}

/// The retained positions below `i`, in ascending order.
pub open spec fn kept_below(t: TaxoModel, ids: Seq<Seq<char>>, i: int) -> Seq<int>
    decreases i,
{
    if i <= 0 {
        Seq::empty()
    } else if is_kept(t, ids, i - 1) {
        kept_below(t, ids, i - 1).push(i - 1)
    } else {
        kept_below(t, ids, i - 1)
    }
}

/// All retained positions, in ascending order.
pub open spec fn kept_positions(t: TaxoModel, ids: Seq<Seq<char>>) -> Seq<int> {
    kept_below(t, ids, t.len())
}

/// The position a retained node moves to: the number of retained positions
/// before it.
pub open spec fn new_index(t: TaxoModel, ids: Seq<Seq<char>>, old: int) -> int {
    kept_below(t, ids, old).len() as int
}

/// The store produced by `prune_by_taxids`: the retained positions in their
/// original relative order, with every parent index remapped; a retained
/// node whose old parent was not retained becomes its own parent.
pub open spec fn prune_model(t: TaxoModel, ids: Seq<Seq<char>>) -> TaxoModel {
    let kept = kept_positions(t, ids);
    TaxoModel {
        taxids: kept.map(|n: int, m: int| t.taxids[m]),
        parents: kept.map(
            |n: int, m: int|
                if 0 <= t.parents[m] < t.len() && is_kept(t, ids, t.parents[m]) {
                    new_index(t, ids, t.parents[m])
                } else {
                    n
                },
        ),
        names: kept.map(|n: int, m: int| t.names[m]),
        ranks: kept.map(|n: int, m: int| t.ranks[m]),
        dists: kept.map(|n: int, m: int| t.dists[m]),
    }
}

/// A mark vector closed under the parent walk: whatever is marked has its
/// parent marked too, unless it is its own parent.
pub open spec fn marks_closed(parents: Seq<int>, marks: Seq<bool>) -> bool {
    forall|i: int|
        0 <= i < marks.len() && marks[i] ==> parents[i] == i || marks[#[trigger] parents[i]]
}

/// How many entries of `s` below `i` are true.
pub open spec fn count_true(s: Seq<bool>, i: int) -> int
    decreases i,
{
    if i <= 0 {
        0
    } else {
        count_true(s, i - 1) + if s[i - 1] {
            1int
        } else {
            0int
        }
    }
}

proof fn lemma_count_true_le(s: Seq<bool>, i: int)
    requires
        0 <= i,
    ensures
        count_true(s, i) <= i,
    decreases i,
{
    if i > 0 {
        lemma_count_true_le(s, i - 1);
    }
}

proof fn lemma_count_true_update(s: Seq<bool>, i: int, c: int)
    requires
        0 <= c < s.len(),
        0 <= i <= s.len(),
        !s[c],
    ensures
        count_true(s.update(c, true), i) == count_true(s, i) + if c < i {
            1int
        } else {
            0int
        },
    decreases i,
{
    if i > 0 {
        lemma_count_true_update(s, i - 1, c);
    }
}

pub proof fn lemma_in_chain_mono(parents: Seq<int>, from: int, to: int, f1: nat, f2: nat)
    requires
        in_chain(parents, from, to, f1),
        f1 <= f2,
    ensures
        in_chain(parents, from, to, f2),
    decreases f1,
{
    if from != to && f1 > 0 {
        lemma_in_chain_mono(parents, parents[from], to, (f1 - 1) as nat, (f2 - 1) as nat);
    }
}

pub proof fn lemma_in_chain_trans(parents: Seq<int>, a: int, b: int, c: int, f: nat, g: nat)
    requires
        in_chain(parents, a, b, f),
        in_chain(parents, b, c, g),
    ensures
        in_chain(parents, a, c, f + g),
    decreases f,
{
    if a != b {
        lemma_in_chain_trans(parents, parents[a], b, c, (f - 1) as nat, g);
        assert((f - 1) as nat + g == (f + g - 1) as nat);
        assert(in_chain(parents, a, c, f + g));
    } else {
        lemma_in_chain_mono(parents, b, c, g, f + g);
    }
}

pub proof fn lemma_reaches_refl(parents: Seq<int>, a: int)
    ensures
        reaches(parents, a, a),
{
    assert(in_chain(parents, a, a, 0));
}

pub proof fn lemma_reaches_step(parents: Seq<int>, a: int)
    requires
        0 <= a < parents.len(),
        parents[a] != a,
    ensures
        reaches(parents, a, parents[a]),
{
    assert(in_chain(parents, parents[a], parents[a], 0));
    assert(in_chain(parents, a, parents[a], 1));
}

pub proof fn lemma_reaches_trans(parents: Seq<int>, a: int, b: int, c: int)
    requires
        reaches(parents, a, b),
        reaches(parents, b, c),
    ensures
        reaches(parents, a, c),
{
    let f = choose|f: nat| in_chain(parents, a, b, f);
    let g = choose|g: nat| in_chain(parents, b, c, g);
    lemma_in_chain_trans(parents, a, b, c, f, g);
}

/// Every parent index is a valid position.
pub open spec fn parents_in_range(parents: Seq<int>) -> bool {
    forall|i: int| 0 <= i < parents.len() ==> 0 <= #[trigger] parents[i] < parents.len()
}

pub proof fn lemma_in_chain_range(parents: Seq<int>, from: int, to: int, f: nat)
    requires
        parents_in_range(parents),
        0 <= from < parents.len(),
        in_chain(parents, from, to, f),
    ensures
        0 <= to < parents.len(),
    decreases f,
{
    if from != to {
        lemma_in_chain_range(parents, parents[from], to, (f - 1) as nat);
    }
}

/// Everything reachable from a marked position is marked, when the marks are
/// parent-closed.
pub proof fn lemma_closed_reaches(parents: Seq<int>, marks: Seq<bool>, x: int, m: int, f: nat)
    requires
        marks_closed(parents, marks),
        parents_in_range(parents),
        0 <= x < marks.len(),
        parents.len() == marks.len(),
        marks[x],
        in_chain(parents, x, m, f),
    ensures
        0 <= m < marks.len() && marks[m],
    decreases f,
{
    if x != m {
        lemma_closed_reaches(parents, marks, parents[x], m, (f - 1) as nat);
    }
}

pub proof fn lemma_last_index_of_props(s: Seq<Seq<char>>, x: Seq<char>)
    ensures
        -1 <= last_index_of(s, x) < s.len(),
        last_index_of(s, x) == -1 ==> forall|k: int| 0 <= k < s.len() ==> s[k] != x,
        last_index_of(s, x) >= 0 ==> {
            &&& last_index_of(s, x) < s.len()
            &&& s[last_index_of(s, x)] == x
            &&& forall|k: int| last_index_of(s, x) < k < s.len() ==> s[k] != x
        },
    decreases s.len(),
{
    if s.len() > 0 && s.last() != x {
        lemma_last_index_of_props(s.drop_last(), x);
        assert(forall|k: int| 0 <= k < s.len() - 1 ==> s.drop_last()[k] == s[k]);
    }
}

pub proof fn lemma_kept_below_elem(t: TaxoModel, ids: Seq<Seq<char>>, i: int, n: int)
    requires
        0 <= n < kept_below(t, ids, i).len(),
    ensures
        0 <= kept_below(t, ids, i)[n] < i,
        is_kept(t, ids, kept_below(t, ids, i)[n]),
        new_index(t, ids, kept_below(t, ids, i)[n]) == n,
    decreases i,
{
    if i > 0 {
        let prev = kept_below(t, ids, i - 1);
        if n < prev.len() {
            lemma_kept_below_elem(t, ids, i - 1, n);
        }
    }
}

pub proof fn lemma_kept_below_index(t: TaxoModel, ids: Seq<Seq<char>>, i: int, m: int)
    requires
        0 <= m < i,
        is_kept(t, ids, m),
    ensures
        0 <= new_index(t, ids, m) < kept_below(t, ids, i).len(),
        kept_below(t, ids, i)[new_index(t, ids, m)] == m,
    decreases i,
{
    if m < i - 1 {
        lemma_kept_below_index(t, ids, i - 1, m);
    }
}

pub proof fn lemma_kept_below_sorted(t: TaxoModel, ids: Seq<Seq<char>>, i: int)
    ensures
        forall|n1: int, n2: int|
            0 <= n1 < n2 < kept_below(t, ids, i).len() ==> #[trigger] kept_below(t, ids, i)[n1]
                < #[trigger] kept_below(t, ids, i)[n2],
    decreases i,
{
    if i > 0 {
        lemma_kept_below_sorted(t, ids, i - 1);
        let prev = kept_below(t, ids, i - 1);
        assert forall|n1: int, n2: int|
            0 <= n1 < n2 < kept_below(t, ids, i).len() implies #[trigger] kept_below(t, ids, i)[n1]
            < #[trigger] kept_below(t, ids, i)[n2] by {
            if n2 < prev.len() {
            } else {
                lemma_kept_below_elem(t, ids, i - 1, n1);
            }
        }
    }
}

/// The retained positions hold every retained valid position and nothing
/// else.
pub proof fn lemma_kept_positions_complete(t: TaxoModel, ids: Seq<Seq<char>>, m: int)
    requires
        0 <= m < t.len(),
        is_kept(t, ids, m),
    ensures
        kept_positions(t, ids).contains(m),
{
    lemma_kept_below_index(t, ids, t.len(), m);
    assert(kept_positions(t, ids)[new_index(t, ids, m)] == m);
}

/// Pruning a well-formed store yields a well-formed store.
pub proof fn lemma_prune_model_wf(t: TaxoModel, ids: Seq<Seq<char>>)
    requires
        t.wf(),
    ensures
        prune_model(t, ids).wf(),
{
    let r = prune_model(t, ids);
    let kept = kept_positions(t, ids);
    assert forall|n: int| 0 <= n < r.len() implies 0 <= #[trigger] r.parents[n] < r.len() by {
        lemma_kept_below_elem(t, ids, t.len(), n);
        let m = kept[n];
        if 0 <= t.parents[m] < t.len() && is_kept(t, ids, t.parents[m]) {
            lemma_kept_below_index(t, ids, t.len(), t.parents[m]);
        }
    }
}

/// The least position of `s` holding `x`, or -1 when `x` is absent.
pub open spec fn first_index_of(s: Seq<Seq<char>>, x: Seq<char>) -> int
    decreases s.len(),
{
    if s.len() == 0 {
        -1
    } else if s[0] == x {
        0
    } else {
        let r = first_index_of(s.drop_first(), x);
        if r == -1 {
            -1
        } else {
            r + 1
        }
    }
}

pub proof fn lemma_first_index_of_props(s: Seq<Seq<char>>, x: Seq<char>)
    ensures
        -1 <= first_index_of(s, x) < s.len(),
        first_index_of(s, x) == -1 ==> forall|k: int| 0 <= k < s.len() ==> s[k] != x,
        first_index_of(s, x) >= 0 ==> {
            &&& s[first_index_of(s, x)] == x
            &&& forall|k: int| 0 <= k < first_index_of(s, x) ==> s[k] != x
        },
    decreases s.len(),
{
    if s.len() > 0 && s[0] != x {
        let d = s.drop_first();
        lemma_first_index_of_props(d, x);
        let rd = first_index_of(d, x);
        if rd == -1 {
            assert forall|k: int| 0 <= k < s.len() implies s[k] != x by {
                if k > 0 {
                    assert(d[k - 1] == s[k]);
                    assert(d[k - 1] != x);
                }
            }
        } else {
            let r = first_index_of(s, x);
            assert(r == rd + 1);
            assert(s[r] == d[rd]);
            assert forall|k: int| 0 <= k < r implies s[k] != x by {
                if k > 0 {
                    assert(d[k - 1] == s[k]);
                    assert(d[k - 1] != x);
                }
            }
        }
    }
}

/// Each name resolved to the taxid at its first matching position; names
/// that match nowhere are dropped.
pub open spec fn names_to_taxids(t: TaxoModel, names: Seq<Seq<char>>) -> Seq<Seq<char>>
    decreases names.len(),
{
    if names.len() == 0 {
        Seq::empty()
    } else {
        let rest = names_to_taxids(t, names.drop_last());
        let i = first_index_of(t.names, names.last());
        if i >= 0 {
            rest.push(t.taxids[i])
        } else {
            rest
        }
    }
}

/// The first self-referential position below `i`, or -1 if there is none.
pub open spec fn first_root_upto(t: TaxoModel, i: int) -> int
    decreases i,
{
    if i <= 0 {
        -1
    } else {
        let r = first_root_upto(t, i - 1);
        if r >= 0 {
            r
        } else if t.parents[i - 1] == i - 1 {
            i - 1
        } else {
            -1
        }
    }
}

/// The root used for encoding: the first position that is its own parent.
pub open spec fn first_root(t: TaxoModel) -> int {
    first_root_upto(t, t.len())
}

/// The children of `node` that lie below `i`: positions with parent `node`,
/// other than `node` itself, in ascending order.
pub open spec fn children_below(t: TaxoModel, node: int, i: int) -> Seq<int>
    decreases i,
{
    if i <= 0 {
        Seq::empty()
    } else {
        let rest = children_below(t, node, i - 1);
        if t.parents[i - 1] == node && i - 1 != node {
            rest.push(i - 1)
        } else {
            rest
        }
    }
}

/// All children of `node`, in ascending position order.
pub open spec fn children_of(t: TaxoModel, node: int) -> Seq<int> {
    children_below(t, node, t.len())
}

/// The Newick rendering of the subtree at `node`. A leaf renders as
/// `name_id_distance`; an inner node renders as
/// `(children)name_id:distance`, with a comma between children and with the
/// distance of a self-referential node forced to `0`. The recursion stops
/// when `fuel` is exhausted, which no store whose parent walks all terminate
/// can ever hit when started with `fuel` equal to the store's length.
pub open spec fn newick_of(t: TaxoModel, node: int, fuel: nat) -> Seq<char>
    decreases fuel, 0int,
{
    let kids = children_of(t, node);
    if kids.len() == 0 {
        t.names[node] + seq!['_'] + t.taxids[node] + seq!['_'] + t.dists[node]
    } else if fuel == 0 {
        Seq::empty()
    } else {
        seq!['('] + newick_join(t, kids, (fuel - 1) as nat) + seq![')'] + t.names[node]
            + seq!['_'] + t.taxids[node] + seq![':'] + (if t.parents[node] == node {
            seq!['0']
        } else {
            t.dists[node]
        })
    }
}

/// The renderings of `kids`, joined with commas.
pub open spec fn newick_join(t: TaxoModel, kids: Seq<int>, fuel: nat) -> Seq<char>
    decreases fuel, kids.len(),
{
    if kids.len() == 0 {
        Seq::empty()
    } else if kids.len() == 1 {
        newick_of(t, kids[0], fuel)
    } else {
        newick_of(t, kids[0], fuel) + seq![','] + newick_join(t, kids.drop_first(), fuel)
    }
}

proof fn lemma_newick_join_push(t: TaxoModel, s: Seq<int>, x: int, fuel: nat)
    ensures
        newick_join(t, s.push(x), fuel) == if s.len() == 0 {
            newick_of(t, x, fuel)
        } else {
            newick_join(t, s, fuel) + seq![','] + newick_of(t, x, fuel)
        },
    decreases s.len(),
{
    let sx = s.push(x);
    if s.len() == 0 {
        assert(sx.len() == 1);
        assert(sx[0] == x);
    } else {
        assert(sx[0] == s[0]);
        assert(sx.drop_first() =~= s.drop_first().push(x));
        lemma_newick_join_push(t, s.drop_first(), x, fuel);
        if s.len() == 1 {
            assert(newick_join(t, sx, fuel) == newick_of(t, s[0], fuel) + seq![','] + newick_of(
                t,
                x,
                fuel,
            ));
        } else {
            assert(newick_join(t, sx, fuel) == newick_of(t, s[0], fuel) + seq![','] + (newick_join(
                t,
                s.drop_first(),
                fuel,
            ) + seq![','] + newick_of(t, x, fuel)));
            assert(newick_of(t, s[0], fuel) + seq![','] + (newick_join(t, s.drop_first(), fuel)
                + seq![','] + newick_of(t, x, fuel)) =~= (newick_of(t, s[0], fuel) + seq![',']
                + newick_join(t, s.drop_first(), fuel)) + seq![','] + newick_of(t, x, fuel));
        }
    }
}

fn make_bool_vec(n: usize) -> (v: Vec<bool>)
    ensures
        v@.len() == n,
        forall|i: int| 0 <= i < n ==> !v@[i],
{
    let mut v: Vec<bool> = Vec::new();
    while v.len() < n
        invariant
            v@.len() <= n,
            forall|i: int| 0 <= i < v@.len() ==> !v@[i],
        decreases n - v@.len(),
    {
        v.push(false);
    }
    v
}

fn make_zero_vec(n: usize) -> (v: Vec<usize>)
    ensures
        v@.len() == n,
{
    let mut v: Vec<usize> = Vec::new();
    while v.len() < n
        invariant
            v@.len() <= n,
        decreases n - v@.len(),
    {
        v.push(0);
    }
    v
}

impl Taxonomy {
    pub open spec fn wf(&self) -> bool {
        self@.wf()
    }

    /// The position the given taxid resolves to: the greatest position whose
    /// taxid equals it, if any.
    fn find_last_index(&self, taxid: &String) -> (r: Option<usize>)
        ensures
            match r {
                Some(j) => j < self@.len() && last_index_of(self@.taxids, taxid@) == j as int,
                None => last_index_of(self@.taxids, taxid@) == -1,
            },
    {
        let ghost t = self@;
        let n = self.taxid_vec.len();
        let mut found: Option<usize> = None;
        let mut j: usize = 0;
        while j < n
            invariant
                t == self@,
                n == t.len(),
                j <= n,
                match found {
                    Some(f) => f < j && t.taxids[f as int] == taxid@ && forall|k: int|
                        f < k < j ==> t.taxids[k] != taxid@,
                    None => forall|k: int| 0 <= k < j ==> t.taxids[k] != taxid@,
                },
            decreases n - j,
        {
            if self.taxid_vec[j] == *taxid {
                found = Some(j);
            }
            j += 1;
        }
        proof {
            lemma_last_index_of_props(t.taxids, taxid@);
            let r = last_index_of(t.taxids, taxid@);
            if let Some(f) = found {
                if r == -1 {
                    assert(t.taxids[f as int] != taxid@);
                    assert(false);
                }
                assert(t.taxids[r] == taxid@);
                if r < f as int {
                    assert(t.taxids[f as int] != taxid@);
                    assert(false);
                }
                if r > f as int {
                    assert(t.taxids[r] != taxid@);
                    assert(false);
                }
            } else {
                if r >= 0 {
                    assert(t.taxids[r] == taxid@);
                    assert(false);
                }
            }
        }
        found
    }

    /// Wraps the five columns unchanged.
    pub fn new(
        taxid_vec: Vec<String>,
        parentid_vec: Vec<usize>,
        name_vec: Vec<String>,
        rank_vec: Vec<String>,
        parent_distances: Vec<String>,
    ) -> (r: Taxonomy)
        ensures
            r@.taxids == taxid_vec.deep_view(),
            r@.parents == parentid_vec@.map_values(|u: usize| u as int),
            r@.names == name_vec.deep_view(),
            r@.ranks == rank_vec.deep_view(),
            r@.dists == parent_distances.deep_view(),
    {
        Taxonomy { taxid_vec, parentid_vec, name_vec, rank_vec, parent_distances }
    }

    /// Builds a store from externally supplied records. Each record's
    /// parent identifier is resolved through the taxid column; one that
    /// resolves nowhere silently falls back to position 0, the first
    /// loaded node.
    pub fn from_records(records: &Vec<TaxonRecord>) -> (r: Taxonomy)
        ensures
            r@.wf(),
            r@.len() == records@.len(),
            forall|i: int|
                0 <= i < records@.len() ==> {
                    &&& #[trigger] r@.taxids[i] == records@[i].taxid@
                    &&& r@.names[i] == records@[i].name@
                    &&& r@.ranks[i] == records@[i].rank@
                    &&& r@.dists[i] == records@[i].parent_distance@
                    &&& r@.parents[i] == resolved_parent(records@, i)
                },
    {
        let ghost rs = records@;
        let n = records.len();
        let mut taxid_vec: Vec<String> = Vec::new();
        let mut name_vec: Vec<String> = Vec::new();
        let mut rank_vec: Vec<String> = Vec::new();
        let mut parent_distances: Vec<String> = Vec::new();
        let mut i: usize = 0;
        while i < n
            invariant
                rs == records@,
                n == rs.len(),
                i <= n,
                taxid_vec@.len() == i,
                name_vec@.len() == i,
                rank_vec@.len() == i,
                parent_distances@.len() == i,
                forall|k: int| 0 <= k < i ==> #[trigger] taxid_vec@[k]@ == rs[k].taxid@,
                forall|k: int| 0 <= k < i ==> #[trigger] name_vec@[k]@ == rs[k].name@,
                forall|k: int| 0 <= k < i ==> #[trigger] rank_vec@[k]@ == rs[k].rank@,
                forall|k: int|
                    0 <= k < i ==> #[trigger] parent_distances@[k]@ == rs[k].parent_distance@,
            decreases n - i,
        {
            taxid_vec.push(records[i].taxid.clone());
            name_vec.push(records[i].name.clone());
            rank_vec.push(records[i].rank.clone());
            parent_distances.push(records[i].parent_distance.clone());
            i += 1;
        }
        let mut parentid_vec: Vec<usize> = Vec::new();
        let mut i: usize = 0;
        while i < n
            invariant
                rs == records@,
                n == rs.len(),
                i <= n,
                parentid_vec@.len() == i,
                forall|k: int|
                    0 <= k < i ==> #[trigger] parentid_vec@[k] as int == resolved_parent(rs, k),
                forall|k: int| 0 <= k < i ==> parentid_vec@[k] < n,
            decreases n - i,
        {
            let mut found: Option<usize> = None;
            let mut j: usize = 0;
            while j < n
                invariant
                    rs == records@,
                    n == rs.len(),
                    i < n,
                    j <= n,
                    match found {
                        Some(f) => f < j && record_taxids(rs)[f as int] == rs[i as int].parent_taxid@
                            && forall|k: int|
                            f < k < j ==> record_taxids(rs)[k] != rs[i as int].parent_taxid@,
                        None => forall|k: int|
                            0 <= k < j ==> record_taxids(rs)[k] != rs[i as int].parent_taxid@,
                    },
                decreases n - j,
            {
                if records[j].taxid == records[i].parent_taxid {
                    found = Some(j);
                }
                j += 1;
            }
            proof {
                lemma_last_index_of_props(record_taxids(rs), rs[i as int].parent_taxid@);
                let li = last_index_of(record_taxids(rs), rs[i as int].parent_taxid@);
                match found {
                    Some(f) => {
                        if li == -1 {
                            assert(record_taxids(rs)[f as int] != rs[i as int].parent_taxid@);
                            assert(false);
                        }
                        if li < f as int {
                            assert(record_taxids(rs)[f as int] != rs[i as int].parent_taxid@);
                            assert(false);
                        }
                        if li > f as int {
                            assert(record_taxids(rs)[li] != rs[i as int].parent_taxid@);
                            assert(false);
                        }
                    },
                    None => {
                        if li >= 0 {
                            assert(record_taxids(rs)[li] == rs[i as int].parent_taxid@);
                            assert(false);
                        }
                    },
                }
            }
            match found {
                Some(f) => parentid_vec.push(f),
                None => parentid_vec.push(0),
            }
            i += 1;
        }
        let r = Taxonomy { taxid_vec, parentid_vec, name_vec, rank_vec, parent_distances };
        proof {
            assert forall|i: int| 0 <= i < rs.len() implies 0 <= #[trigger] r@.parents[i]
                < r@.len() by {}
        }
        r
    }

    /// Marks `index` and all its ancestors, walking `parentid_vec` upward and
    /// stopping at the first already-marked position or at a self-referential
    /// root.
    fn add_ancestors_to_keep(&self, marks: &mut Vec<bool>, index: usize)
        requires
            self.wf(),
            old(marks).len() == self@.len(),
            index < self@.len(),
            marks_closed(self@.parents, old(marks)@),
        ensures
            final(marks).len() == old(marks).len(),
            marks_closed(self@.parents, final(marks)@),
            forall|m: int|
                0 <= m < final(marks).len() ==> (final(marks)@[m] <==> old(marks)@[m] || reaches(
                    self@.parents,
                    index as int,
                    m,
                )),
    {
        let ghost t = self@;
        let ghost marks0 = marks@;
        let n = marks.len();
        let mut cur = index;
        proof {
            lemma_reaches_refl(t.parents, index as int);
        }
        while !marks[cur]
            invariant
                self.wf(),
                t == self@,
                marks.len() == n,
                n == t.len(),
                cur < n,
                reaches(t.parents, index as int, cur as int),
                // no mark is ever cleared
                forall|m: int| 0 <= m < n && marks0[m] ==> marks@[m],
                // only the walk from `index` adds marks
                forall|m: int|
                    0 <= m < n && marks@[m] ==> marks0[m] || reaches(t.parents, index as int, m),
                // closure, except that the head of the walk may be missing
                forall|m: int|
                    0 <= m < n && marks@[m] ==> t.parents[m] == m || marks@[t.parents[m]]
                        || t.parents[m] == cur,
                // whatever the walk still owes is reachable from its head
                forall|m: int, f: nat|
                    in_chain(t.parents, index as int, m, f) ==> marks@[m] || reaches(
                        t.parents,
                        cur as int,
                        m,
                    ),
            decreases n - count_true(marks@, n as int),
        {
            let ghost before = marks@;
            marks.set(cur, true);
            proof {
                lemma_count_true_update(before, n as int, cur as int);
                lemma_count_true_le(marks@, n as int);
                assert forall|m: int, f: nat|
                    in_chain(t.parents, index as int, m, f) implies marks@[m] || reaches(
                    t.parents,
                    t.parents[cur as int],
                    m,
                ) by {
                    if !marks@[m] {
                        assert(parents_in_range(t.parents));
                        lemma_in_chain_range(t.parents, index as int, m, f);
                        assert(!before[m]);
                        assert(reaches(t.parents, cur as int, m));
                        let g = choose|g: nat| in_chain(t.parents, cur as int, m, g);
                        assert(in_chain(t.parents, cur as int, m, g));
                        assert(m != cur);
                        assert(g > 0);
                        assert(t.parents[cur as int] != cur);
                        assert(in_chain(t.parents, t.parents[cur as int], m, (g - 1) as nat));
                    }
                }
            }
            let next = self.parentid_vec[cur];
            proof {
                if next != cur {
                    lemma_reaches_step(t.parents, cur as int);
                    lemma_reaches_trans(t.parents, index as int, cur as int, next as int);
                }
            }
            cur = next;
        }
        proof {
            assert(marks_closed(t.parents, marks@));
            assert forall|m: int| 0 <= m < n && reaches(t.parents, index as int, m) implies marks@[m] by {
                let f = choose|f: nat| in_chain(t.parents, index as int, m, f);
                assert(in_chain(t.parents, index as int, m, f));
                if !marks@[m] {
                    assert(reaches(t.parents, cur as int, m));
                    let g = choose|g: nat| in_chain(t.parents, cur as int, m, g);
                    assert(in_chain(t.parents, cur as int, m, g));
                    lemma_closed_reaches(t.parents, marks@, cur as int, m, g);
                }
            }
            assert forall|m: int|
                0 <= m < n && marks@[m] && !marks0[m] implies reaches(t.parents, index as int, m) by {}
        }
    }

    /// Ancestor-preserving prune: every requested taxid that resolves is
    /// retained together with its whole ancestor chain; everything else is
    /// dropped, the survivors keep their relative order and their parent
    /// indices are remapped. Taxids absent from the store are silently
    /// ignored; an empty request yields a zero-node store.
    pub fn prune_by_taxids(&self, taxids: &[String]) -> (r: Taxonomy)
        requires
            self.wf(),
        ensures
            r@ == prune_model(self@, taxids.deep_view()),
            r@.wf(),
    {
        let ghost t = self@;
        let ghost ids = taxids.deep_view();
        let n = self.taxid_vec.len();
        let mut marks = make_bool_vec(n);
        let mut k: usize = 0;
        while k < taxids.len()
            invariant
                self.wf(),
                t == self@,
                ids == taxids.deep_view(),
                k <= taxids.len(),
                ids.len() == taxids.len(),
                marks.len() == n,
                n == t.len(),
                marks_closed(t.parents, marks@),
                forall|m: int| 0 <= m < n ==> (marks@[m] <==> is_kept_upto(t, ids, k as int, m)),
            decreases taxids.len() - k,
        {
            let ghost before = marks@;
            match self.find_last_index(&taxids[k]) {
                Some(r0) => {
                    self.add_ancestors_to_keep(&mut marks, r0);
                },
                None => {},
            }
            proof {
                assert(taxids[k as int]@ == ids[k as int]);
                assert forall|m: int| 0 <= m < n implies (marks@[m] <==> is_kept_upto(
                    t,
                    ids,
                    k + 1,
                    m,
                )) by {
                    let r0 = last_index_of(t.taxids, ids[k as int]);
                    if marks@[m] {
                        if before[m] {
                            let kk = choose|kk: int|
                                0 <= kk < k && last_index_of(t.taxids, ids[kk]) >= 0 && reaches(
                                    t.parents,
                                    last_index_of(t.taxids, ids[kk]),
                                    m,
                                );
                            assert(0 <= kk < k + 1 && last_index_of(t.taxids, ids[kk]) >= 0
                                && reaches(t.parents, last_index_of(t.taxids, ids[kk]), m));
                        } else {
                            assert(r0 >= 0 && reaches(t.parents, r0, m));
                            assert(0 <= k < k + 1 && last_index_of(t.taxids, ids[k as int]) >= 0
                                && reaches(t.parents, last_index_of(t.taxids, ids[k as int]), m));
                        }
                    }
                    if is_kept_upto(t, ids, k + 1, m) {
                        let kk = choose|kk: int|
                            0 <= kk < k + 1 && last_index_of(t.taxids, ids[kk]) >= 0 && reaches(
                                t.parents,
                                last_index_of(t.taxids, ids[kk]),
                                m,
                            );
                        if kk < k {
                            assert(is_kept_upto(t, ids, k as int, m));
                        }
                    }
                }
            }
            k += 1;
        }
        proof {
            assert(forall|m: int| 0 <= m < n ==> (marks@[m] <==> is_kept(t, ids, m)));
        }
        // build the new columns, retaining marked positions in order
        let mut new_taxid_vec: Vec<String> = Vec::new();
        let mut new_parentid_vec: Vec<usize> = Vec::new();
        let mut new_name_vec: Vec<String> = Vec::new();
        let mut new_rank_vec: Vec<String> = Vec::new();
        let mut new_parent_distances: Vec<String> = Vec::new();
        let mut old_to_new = make_zero_vec(n);
        let mut new_to_old: Vec<usize> = Vec::new();
        let mut i: usize = 0;
        while i < n
            invariant
                self.wf(),
                t == self@,
                i <= n,
                n == t.len(),
                marks.len() == n,
                forall|m: int| 0 <= m < n ==> (marks@[m] <==> is_kept(t, ids, m)),
                old_to_new.len() == n,
                new_to_old@.len() == kept_below(t, ids, i as int).len(),
                new_taxid_vec@.len() == new_to_old@.len(),
                new_name_vec@.len() == new_to_old@.len(),
                new_rank_vec@.len() == new_to_old@.len(),
                new_parent_distances@.len() == new_to_old@.len(),
                new_parentid_vec@.len() == new_to_old@.len(),
                forall|p: int|
                    0 <= p < new_to_old@.len() ==> new_to_old@[p] as int == kept_below(
                        t,
                        ids,
                        i as int,
                    )[p],
                forall|p: int|
                    0 <= p < new_to_old@.len() ==> #[trigger] new_taxid_vec@[p]@ == t.taxids[kept_below(
                        t,
                        ids,
                        i as int,
                    )[p]],
                forall|p: int|
                    0 <= p < new_to_old@.len() ==> #[trigger] new_name_vec@[p]@ == t.names[kept_below(
                        t,
                        ids,
                        i as int,
                    )[p]],
                forall|p: int|
                    0 <= p < new_to_old@.len() ==> #[trigger] new_rank_vec@[p]@ == t.ranks[kept_below(
                        t,
                        ids,
                        i as int,
                    )[p]],
                forall|p: int|
                    0 <= p < new_to_old@.len() ==> #[trigger] new_parent_distances@[p]@
                        == t.dists[kept_below(t, ids, i as int)[p]],
                forall|m: int|
                    0 <= m < i && is_kept(t, ids, m) ==> #[trigger] old_to_new@[m] as int
                        == new_index(t, ids, m),
            decreases n - i,
        {
            let ghost kb = kept_below(t, ids, i as int);
            if marks[i] {
                old_to_new.set(i, new_taxid_vec.len());
                new_to_old.push(i);
                new_taxid_vec.push(self.taxid_vec[i].clone());
                new_name_vec.push(self.name_vec[i].clone());
                new_rank_vec.push(self.rank_vec[i].clone());
                new_parentid_vec.push(0);
                new_parent_distances.push(self.parent_distances[i].clone());
                proof {
                    assert(kept_below(t, ids, i + 1) == kb.push(i as int));
                }
            } else {
                proof {
                    assert(kept_below(t, ids, i + 1) == kb);
                }
            }
            i += 1;
        }
        // remap every retained node's parent through the old-to-new map
        let ghost kept = kept_positions(t, ids);
        let rlen = new_parentid_vec.len();
        let mut p: usize = 0;
        while p < rlen
            invariant
                self.wf(),
                t == self@,
                p <= rlen,
                n == t.len(),
                marks.len() == n,
                kept == kept_positions(t, ids),
                rlen == kept.len(),
                forall|m: int| 0 <= m < n ==> (marks@[m] <==> is_kept(t, ids, m)),
                old_to_new.len() == n,
                new_to_old@.len() == rlen,
                new_parentid_vec@.len() == rlen,
                forall|q: int| 0 <= q < rlen ==> new_to_old@[q] as int == kept[q],
                forall|m: int|
                    0 <= m < n && is_kept(t, ids, m) ==> #[trigger] old_to_new@[m] as int
                        == new_index(t, ids, m),
                forall|q: int|
                    0 <= q < p ==> #[trigger] new_parentid_vec@[q] as int == (if is_kept(
                        t,
                        ids,
                        t.parents[kept[q]],
                    ) {
                        new_index(t, ids, t.parents[kept[q]])
                    } else {
                        q
                    }),
            decreases rlen - p,
        {
            proof {
                lemma_kept_below_elem(t, ids, t.len(), p as int);
            }
            let oi = new_to_old[p];
            let op = self.parentid_vec[oi];
            proof {
                assert(t.parents[oi as int] == op as int);
                assert(0 <= t.parents[oi as int] < t.len());
            }
            if marks[op] {
                let np = old_to_new[op];
                new_parentid_vec.set(p, np);
            } else {
                new_parentid_vec.set(p, p);
            }
            p += 1;
        }
        let r = Taxonomy {
            taxid_vec: new_taxid_vec,
            parentid_vec: new_parentid_vec,
            name_vec: new_name_vec,
            rank_vec: new_rank_vec,
            parent_distances: new_parent_distances,
        };
        proof {
            let pm = prune_model(t, ids);
            assert forall|q: int| 0 <= q < rlen implies #[trigger] r@.parents[q] == pm.parents[q] by {
                lemma_kept_below_elem(t, ids, t.len(), q);
            }
            assert(r@.taxids =~= pm.taxids);
            assert(r@.parents =~= pm.parents);
            assert(r@.names =~= pm.names);
            assert(r@.ranks =~= pm.ranks);
            assert(r@.dists =~= pm.dists);
            lemma_prune_model_wf(t, ids);
        }
        r
    }

    /// Resolves each name to a taxid via the first position whose name
    /// matches (non-unique names thus resolve to the earliest bearer) and
    /// prunes by the resolved taxids; names that match nowhere are dropped.
    pub fn prune_by_names(&self, names: &[String]) -> (r: Taxonomy)
        requires
            self.wf(),
        ensures
            r@ == prune_model(self@, names_to_taxids(self@, names.deep_view())),
            r@.wf(),
    {
        let ghost t = self@;
        let ghost nv = names.deep_view();
        let mut taxids: Vec<String> = Vec::new();
        let mut j: usize = 0;
        while j < names.len()
            invariant
                t == self@,
                self.wf(),
                nv == names.deep_view(),
                nv.len() == names.len(),
                j <= names.len(),
                taxids.deep_view() == names_to_taxids(t, nv.take(j as int)),
            decreases names.len() - j,
        {
            let ghost pre = taxids.deep_view();
            match self.find_first_name_index(&names[j]) {
                Some(i) => {
                    taxids.push(self.taxid_vec[i].clone());
                },
                None => {},
            }
            proof {
                assert(nv.take(j + 1).drop_last() =~= nv.take(j as int));
                assert(nv.take(j + 1).last() == nv[j as int]);
                assert(names[j as int]@ == nv[j as int]);
                if first_index_of(t.names, nv[j as int]) >= 0 {
                    assert(taxids.deep_view() =~= pre.push(
                        t.taxids[first_index_of(t.names, nv[j as int])],
                    ));
                }
            }
            j += 1;
        }
        proof {
            assert(nv.take(nv.len() as int) =~= nv);
        }
        self.prune_by_taxids(taxids.as_slice())
    }

    /// The first position whose name equals the given one, if any.
    fn find_first_name_index(&self, name: &String) -> (r: Option<usize>)
        requires
            self.wf(),
        ensures
            match r {
                Some(j) => j < self@.len() && first_index_of(self@.names, name@) == j as int,
                None => first_index_of(self@.names, name@) == -1,
            },
    {
        let ghost t = self@;
        let n = self.name_vec.len();
        let mut j: usize = 0;
        while j < n
            invariant
                t == self@,
                self.wf(),
                n == t.names.len(),
                j <= n,
                forall|k: int| 0 <= k < j ==> t.names[k] != name@,
            decreases n - j,
        {
            if self.name_vec[j] == *name {
                proof {
                    lemma_first_index_of_props(t.names, name@);
                    let r = first_index_of(t.names, name@);
                    if r < 0 {
                        assert(t.names[j as int] != name@);
                        assert(false);
                    }
                    if r < j as int {
                        assert(t.names[r] != name@);
                        assert(false);
                    }
                    if r > j as int {
                        assert(t.names[j as int] != name@);
                        assert(false);
                    }
                }
                return Some(j);
            }
            j += 1;
        }
        proof {
            lemma_first_index_of_props(t.names, name@);
        }
        None
    }

    /// Serializes the store to Newick text, rooted at the first
    /// self-referential position; with no such position the store has no
    /// root and the encoding fails. No trailing `;` is appended.
    pub fn to_newick(&self) -> (r: Result<String, crate::errors::TaxoError>)
        requires
            self.wf(),
        ensures
            match r {
                Ok(s) => first_root(self@) >= 0 && s@ == newick_of(
                    self@,
                    first_root(self@),
                    self@.len() as nat,
                ),
                Err(e) => first_root(self@) == -1 && e == crate::errors::TaxoError::EmptyResult,
            },
    {
        let ghost t = self@;
        let n = self.parentid_vec.len();
        let mut root: Option<usize> = None;
        let mut j: usize = 0;
        while j < n
            invariant
                t == self@,
                self.wf(),
                n == t.len(),
                j <= n,
                match root {
                    Some(rt) => rt < n && first_root_upto(t, j as int) == rt as int,
                    None => first_root_upto(t, j as int) == -1,
                },
            decreases n - j,
        {
            if root.is_none() && self.parentid_vec[j] == j {
                root = Some(j);
            }
            j += 1;
        }
        match root {
            Some(rt) => Ok(self.newick_recursive(rt, n)),
            None => Err(crate::errors::TaxoError::EmptyResult),
        }
    }

    /// Renders the subtree at `node_index`, with recursion depth bounded by
    /// `fuel`.
    fn newick_recursive(&self, node_index: usize, fuel: usize) -> (r: String)
        requires
            self.wf(),
            (node_index as int) < self@.len(),
        ensures
            r@ == newick_of(self@, node_index as int, fuel as nat),
        decreases fuel,
    {
        let ghost t = self@;
        let n = self.parentid_vec.len();
        let ghost kids = children_of(t, node_index as int);
        let mut children: Vec<usize> = Vec::new();
        let mut j: usize = 0;
        while j < n
            invariant
                t == self@,
                self.wf(),
                n == t.len(),
                j <= n,
                node_index < n,
                children@.len() == children_below(t, node_index as int, j as int).len(),
                forall|p: int|
                    0 <= p < children@.len() ==> #[trigger] children@[p] as int == children_below(
                        t,
                        node_index as int,
                        j as int,
                    )[p],
                forall|p: int| 0 <= p < children@.len() ==> children@[p] < n,
            decreases n - j,
        {
            if self.parentid_vec[j] == node_index && j != node_index {
                children.push(j);
            }
            j += 1;
        }
        proof {
            assert(children@.len() == kids.len());
            reveal_strlit("_");
            reveal_strlit(":");
            reveal_strlit("(");
            reveal_strlit(")");
            reveal_strlit(",");
            reveal_strlit("0");
        }
        if children.len() == 0 {
            let mut out = self.name_vec[node_index].clone();
            out.append("_");
            out.append(self.taxid_vec[node_index].as_str());
            out.append("_");
            out.append(self.parent_distances[node_index].as_str());
            proof {
                reveal_strlit("_");
                assert(("_")@ =~= seq!['_']);
                assert(out@ =~= t.names[node_index as int] + seq!['_'] + t.taxids[node_index as int]
                    + seq!['_'] + t.dists[node_index as int]);
            }
            out
        } else if fuel == 0 {
            String::new()
        } else {
            let mut out = String::from_str("(");
            proof {
                reveal_strlit("(");
                assert(("(")@ =~= seq!['(']);
            }
            let mut idx: usize = 0;
            while idx < children.len()
                invariant
                    t == self@,
                    self.wf(),
                    n == t.len(),
                    node_index < n,
                    fuel >= 1,
                    idx <= children.len(),
                    kids == children_of(t, node_index as int),
                    children@.len() == kids.len(),
                    kids.len() >= 1,
                    forall|p: int|
                        0 <= p < children@.len() ==> #[trigger] children@[p] as int == kids[p],
                    forall|p: int| 0 <= p < children@.len() ==> children@[p] < n,
                    idx == 0 ==> out@ == seq!['('],
                    idx > 0 ==> out@ == seq!['('] + newick_join(
                        t,
                        kids.take(idx as int),
                        (fuel - 1) as nat,
                    ),
                decreases children.len() - idx,
            {
                let ghost pre = out@;
                if idx > 0 {
                    out.append(",");
                }
                let c = children[idx];
                let piece = self.newick_recursive(c, fuel - 1);
                out.append(piece.as_str());
                proof {
                    reveal_strlit(",");
                    assert((",")@ =~= seq![',']);
                    lemma_newick_join_push(t, kids.take(idx as int), kids[idx as int], (fuel
                        - 1) as nat);
                    assert(kids.take(idx + 1) =~= kids.take(idx as int).push(kids[idx as int]));
                    if idx == 0 {
                        assert(out@ =~= seq!['('] + newick_join(
                            t,
                            kids.take(1),
                            (fuel - 1) as nat,
                        ));
                    } else {
                        assert(out@ =~= seq!['('] + newick_join(
                            t,
                            kids.take(idx + 1),
                            (fuel - 1) as nat,
                        ));
                    }
                }
                idx += 1;
            }
            proof {
                assert(kids.take(kids.len() as int) =~= kids);
            }
            out.append(")");
            out.append(self.name_vec[node_index].as_str());
            out.append("_");
            out.append(self.taxid_vec[node_index].as_str());
            out.append(":");
            if self.parentid_vec[node_index] == node_index {
                out.append("0");
            } else {
                out.append(self.parent_distances[node_index].as_str());
            }
            proof {
                reveal_strlit(")");
                reveal_strlit("_");
                reveal_strlit(":");
                reveal_strlit("0");
                assert((")")@ =~= seq![')']);
                assert(("_")@ =~= seq!['_']);
                assert((":")@ =~= seq![':']);
                assert(("0")@ =~= seq!['0']);
                assert(out@ =~= newick_of(t, node_index as int, fuel as nat));
            }
            out
        }
    }
}

/// Prunes `taxonomy` to the requested taxids and their ancestors.
pub fn prune_taxonomy(taxonomy: &Taxonomy, taxids: &[String]) -> (r: Taxonomy)
    requires
        taxonomy.wf(),
    ensures
        r@ == prune_model(taxonomy@, taxids.deep_view()),
        r@.wf(),
{
    taxonomy.prune_by_taxids(taxids)
}

/// Prunes `taxonomy` to the taxa bearing the requested names, and their
/// ancestors.
pub fn prune_taxonomy_by_names(taxonomy: &Taxonomy, names: &[String]) -> (r: Taxonomy)
    requires
        taxonomy.wf(),
    ensures
        r@ == prune_model(taxonomy@, names_to_taxids(taxonomy@, names.deep_view())),
        r@.wf(),
{
    taxonomy.prune_by_names(names)
}

/// The parent walk from `from`, as a sequence: `from`, its parent, and so
/// on, stopping at a self-referential position or after `fuel` steps.
pub open spec fn chain_from(parents: Seq<int>, from: int, fuel: nat) -> Seq<int>
    decreases fuel,
{
    if !(0 <= from < parents.len()) || parents[from] == from || fuel == 0 {
        seq![from]
    } else {
        seq![from] + chain_from(parents, parents[from], (fuel - 1) as nat)
    }
}

proof fn lemma_chain_from_shape(parents: Seq<int>, from: int, fuel: nat)
    ensures
        chain_from(parents, from, fuel).len() >= 1,
        chain_from(parents, from, fuel)[0] == from,
    decreases fuel,
{
}

/// Everything on the chain sequence is reachable from its start.
proof fn lemma_chain_contains_reaches(parents: Seq<int>, from: int, fuel: nat, m: int)
    requires
        chain_from(parents, from, fuel).contains(m),
    ensures
        reaches(parents, from, m),
    decreases fuel,
{
    let ch = chain_from(parents, from, fuel);
    if !(0 <= from < parents.len()) || parents[from] == from || fuel == 0 {
        assert(m == from);
        lemma_reaches_refl(parents, from);
    } else {
        if m == from {
            lemma_reaches_refl(parents, from);
        } else {
            let sub = chain_from(parents, parents[from], (fuel - 1) as nat);
            let q = choose|q: int| 0 <= q < ch.len() && ch[q] == m;
            assert(ch[q] == m);
            assert(q >= 1);
            assert(sub[q - 1] == m);
            assert(sub.contains(m));
            lemma_chain_contains_reaches(parents, parents[from], (fuel - 1) as nat, m);
            lemma_reaches_step(parents, from);
            lemma_reaches_trans(parents, from, parents[from], m);
        }
    }
}

/// Everything reachable from `from` is on the chain sequence, provided the
/// chain ends at a self-referential root.
proof fn lemma_reaches_chain_contains(parents: Seq<int>, from: int, m: int, f: nat, g: nat)
    requires
        0 <= from < parents.len(),
        in_chain(parents, from, m, f),
        ({
            let ch = chain_from(parents, from, g);
            parents[ch.last()] == ch.last()
        }),
    ensures
        chain_from(parents, from, g).contains(m),
    decreases f,
{
    let ch = chain_from(parents, from, g);
    if m == from {
        assert(ch[0] == m);
    } else {
        assert(parents[from] != from);
        if g == 0 {
            assert(ch == seq![from]);
            assert(ch.last() == from);
            assert(false);
        }
        let sub = chain_from(parents, parents[from], (g - 1) as nat);
        assert(ch == seq![from] + sub);
        lemma_chain_from_shape(parents, parents[from], (g - 1) as nat);
        assert(sub.last() == ch[1 + (sub.len() - 1)]);
        assert(sub.last() == ch.last());
        if !(0 <= parents[from] < parents.len()) {
            assert(sub == seq![parents[from]]);
            assert(in_chain(parents, parents[from], m, (f - 1) as nat));
            lemma_in_chain_range_start(parents, parents[from], m, (f - 1) as nat);
        } else {
            lemma_reaches_chain_contains(parents, parents[from], m, (f - 1) as nat, (g - 1) as nat);
            let q = choose|q: int| 0 <= q < sub.len() && sub[q] == m;
            assert(ch[q + 1] == m);
            assert(ch.contains(m));
        }
    }
}

/// An in-chain walk with a target different from its start needs a valid
/// start.
proof fn lemma_in_chain_range_start(parents: Seq<int>, from: int, m: int, f: nat)
    requires
        in_chain(parents, from, m, f),
        !(0 <= from < parents.len()),
    ensures
        m == from,
{
}

/// Pruning by an empty id set yields a zero-node store, whatever the store
/// holds.
pub proof fn lemma_prune_empty_ids(t: TaxoModel, ids: Seq<Seq<char>>)
    requires
        ids.len() == 0,
    ensures
        prune_model(t, ids).taxids == Seq::<Seq<char>>::empty(),
        prune_model(t, ids).parents == Seq::<int>::empty(),
        prune_model(t, ids).names == Seq::<Seq<char>>::empty(),
        prune_model(t, ids).ranks == Seq::<Seq<char>>::empty(),
        prune_model(t, ids).dists == Seq::<Seq<char>>::empty(),
{
    lemma_kept_below_none(t, ids, t.len());
    assert(prune_model(t, ids).taxids =~= Seq::<Seq<char>>::empty());
    assert(prune_model(t, ids).parents =~= Seq::<int>::empty());
    assert(prune_model(t, ids).names =~= Seq::<Seq<char>>::empty());
    assert(prune_model(t, ids).ranks =~= Seq::<Seq<char>>::empty());
    assert(prune_model(t, ids).dists =~= Seq::<Seq<char>>::empty());
}

proof fn lemma_kept_below_none(t: TaxoModel, ids: Seq<Seq<char>>, i: int)
    requires
        ids.len() == 0,
    ensures
        kept_below(t, ids, i).len() == 0,
    decreases i,
{
    if i > 0 {
        lemma_kept_below_none(t, ids, i - 1);
    }
}

/// Pruning by a single taxid that resolves to position `r` retains exactly
/// the parent chain from `r` to its root — one store position per chain
/// entry and nothing else — provided that chain does terminate at a
/// self-referential root and does not revisit a position.
pub proof fn lemma_prune_single_keeps_chain(t: TaxoModel, ids: Seq<Seq<char>>)
    requires
        t.wf(),
        ids.len() == 1,
        last_index_of(t.taxids, ids[0]) >= 0,
        ({
            let ch = chain_from(t.parents, last_index_of(t.taxids, ids[0]), t.len() as nat);
            &&& t.parents[ch.last()] == ch.last()
            &&& ch.no_duplicates()
        }),
    ensures
        ({
            let ch = chain_from(t.parents, last_index_of(t.taxids, ids[0]), t.len() as nat);
            &&& prune_model(t, ids).len() == ch.len()
            &&& forall|m: int| is_kept(t, ids, m) <==> #[trigger] ch.contains(m)
        }),
{
    let r = last_index_of(t.taxids, ids[0]);
    let n = t.len();
    let ch = chain_from(t.parents, r, n as nat);
    lemma_last_index_of_props(t.taxids, ids[0]);
    assert forall|m: int| is_kept(t, ids, m) implies #[trigger] ch.contains(m) by {
        let k = choose|k: int|
            0 <= k < ids.len() && last_index_of(t.taxids, ids[k]) >= 0 && reaches(
                t.parents,
                last_index_of(t.taxids, ids[k]),
                m,
            );
        assert(k == 0);
        let f = choose|f: nat| in_chain(t.parents, r, m, f);
        assert(in_chain(t.parents, r, m, f));
        lemma_reaches_chain_contains(t.parents, r, m, f, n as nat);
    }
    assert forall|m: int| #[trigger] ch.contains(m) implies is_kept(t, ids, m) by {
        lemma_chain_contains_reaches(t.parents, r, n as nat, m);
        assert(0 <= 0 < ids.len() && last_index_of(t.taxids, ids[0]) >= 0 && reaches(
            t.parents,
            last_index_of(t.taxids, ids[0]),
            m,
        ));
    }
    // both sequences are duplicate-free listings of the same member set
    let kept = kept_positions(t, ids);
    assert forall|n1: int, n2: int|
        0 <= n1 < kept.len() && 0 <= n2 < kept.len() && n1 != n2 implies kept[n1] != kept[n2] by {
        lemma_kept_below_elem(t, ids, n, n1);
        lemma_kept_below_elem(t, ids, n, n2);
    }
    assert(kept.no_duplicates());
    assert forall|x: int| #[trigger] kept.contains(x) implies ch.contains(x) by {
        let q = choose|q: int| 0 <= q < kept.len() && kept[q] == x;
        lemma_kept_below_elem(t, ids, n, q);
    }
    assert forall|x: int| #[trigger] ch.contains(x) implies kept.contains(x) by {
        lemma_chain_contains_reaches(t.parents, r, n as nat, x);
        let f = choose|f: nat| in_chain(t.parents, r, x, f);
        lemma_in_chain_range(t.parents, r, x, f);
        lemma_kept_positions_complete(t, ids, x);
    }
    assert(kept.to_set() =~= ch.to_set());
    kept.unique_seq_to_set();
    ch.unique_seq_to_set();
    assert(prune_model(t, ids).len() == kept.len());
}

/// Pruning an already-pruned store by the same id set returns it unchanged:
/// the prune is idempotent.
pub proof fn lemma_prune_idempotent(t: TaxoModel, ids: Seq<Seq<char>>)
    requires
        t.wf(),
    ensures
        prune_model(prune_model(t, ids), ids) == prune_model(t, ids),
{
    let t1 = prune_model(t, ids);
    let kept = kept_positions(t, ids);
    lemma_prune_model_wf(t, ids);
    lemma_kept_below_sorted(t, ids, t.len());
    // every position of the pruned store is retained again
    assert forall|m1: int| 0 <= m1 < t1.len() implies is_kept(t1, ids, m1) by {
        lemma_kept_below_elem(t, ids, t.len(), m1);
        let m = kept[m1];
        let k = choose|k: int|
            0 <= k < ids.len() && last_index_of(t.taxids, ids[k]) >= 0 && reaches(
                t.parents,
                last_index_of(t.taxids, ids[k]),
                m,
            );
        let rk = last_index_of(t.taxids, ids[k]);
        lemma_last_index_of_props(t.taxids, ids[k]);
        lemma_reaches_refl(t.parents, rk);
        assert(is_kept(t, ids, rk));
        lemma_kept_below_index(t, ids, t.len(), rk);
        let rk1 = new_index(t, ids, rk);
        lemma_resolution_transfer(t, ids, ids[k], rk);
        let f = choose|f: nat| in_chain(t.parents, rk, m, f);
        lemma_chain_to_pruned(t, ids, rk, m, f);
        assert(0 <= k < ids.len() && last_index_of(t1.taxids, ids[k]) >= 0 && reaches(
            t1.parents,
            last_index_of(t1.taxids, ids[k]),
            m1,
        ));
    }
    lemma_kept_below_identity(t1, ids, t1.len());
    let t2 = prune_model(t1, ids);
    let kept1 = kept_positions(t1, ids);
    assert forall|q: int| 0 <= q < t1.len() implies #[trigger] kept1[q] == q by {}
    assert forall|q: int| 0 <= q < t1.len() implies #[trigger] t2.parents[q] == t1.parents[q] by {
        assert(0 <= t1.parents[q] < t1.len());
        assert(is_kept(t1, ids, t1.parents[q]));
        assert(new_index(t1, ids, t1.parents[q]) == kept_below(t1, ids, t1.parents[q]).len());
        lemma_kept_below_identity(t1, ids, t1.parents[q]);
    }
    assert(t2.taxids =~= t1.taxids);
    assert(t2.parents =~= t1.parents);
    assert(t2.names =~= t1.names);
    assert(t2.ranks =~= t1.ranks);
    assert(t2.dists =~= t1.dists);
}

/// When every valid position is retained, the retained positions below `i`
/// are exactly `0, 1, ..., i - 1`.
proof fn lemma_kept_below_identity(t: TaxoModel, ids: Seq<Seq<char>>, i: int)
    requires
        i <= t.len(),
        forall|m: int| 0 <= m < t.len() ==> is_kept(t, ids, m),
    ensures
        kept_below(t, ids, i).len() == if i <= 0 {
            0
        } else {
            i
        },
        forall|q: int| 0 <= q < i ==> #[trigger] kept_below(t, ids, i)[q] == q,
    decreases i,
{
    if i > 0 {
        lemma_kept_below_identity(t, ids, i - 1);
        assert(is_kept(t, ids, i - 1));
    }
}

/// A taxid that resolves to a retained position resolves, in the pruned
/// store, to that position's new index.
proof fn lemma_resolution_transfer(t: TaxoModel, ids: Seq<Seq<char>>, x: Seq<char>, rk: int)
    requires
        t.wf(),
        0 <= rk < t.len(),
        last_index_of(t.taxids, x) == rk,
        is_kept(t, ids, rk),
    ensures
        last_index_of(prune_model(t, ids).taxids, x) == new_index(t, ids, rk),
{
    let t1 = prune_model(t, ids);
    let kept = kept_positions(t, ids);
    let rk1 = new_index(t, ids, rk);
    lemma_kept_below_index(t, ids, t.len(), rk);
    lemma_kept_below_sorted(t, ids, t.len());
    lemma_last_index_of_props(t.taxids, x);
    lemma_last_index_of_props(t1.taxids, x);
    assert(t1.taxids[rk1] == t.taxids[rk]);
    let r = last_index_of(t1.taxids, x);
    if r == -1 {
        assert(t1.taxids[rk1] != x);
        assert(false);
    }
    if r < rk1 {
        assert(t1.taxids[rk1] != x);
        assert(false);
    }
    if r > rk1 {
        lemma_kept_below_elem(t, ids, t.len(), r);
        assert(t1.taxids[r] == t.taxids[kept[r]]);
        assert(kept[r] > kept[rk1]);
        assert(t.taxids[kept[r]] != x);
        assert(false);
    }
}

/// A parent walk between retained positions maps, step for step, onto a
/// parent walk in the pruned store.
proof fn lemma_chain_to_pruned(t: TaxoModel, ids: Seq<Seq<char>>, a: int, b: int, f: nat)
    requires
        t.wf(),
        0 <= a < t.len(),
        is_kept(t, ids, a),
        in_chain(t.parents, a, b, f),
    ensures
        is_kept(t, ids, b),
        reaches(prune_model(t, ids).parents, new_index(t, ids, a), new_index(t, ids, b)),
    decreases f,
{
    let t1 = prune_model(t, ids);
    let kept = kept_positions(t, ids);
    lemma_kept_below_index(t, ids, t.len(), a);
    if b == a {
        lemma_reaches_refl(t1.parents, new_index(t, ids, a));
    } else {
        let p = t.parents[a];
        // the kept set is closed under one parent step
        let k = choose|k: int|
            0 <= k < ids.len() && last_index_of(t.taxids, ids[k]) >= 0 && reaches(
                t.parents,
                last_index_of(t.taxids, ids[k]),
                a,
            );
        let rk = last_index_of(t.taxids, ids[k]);
        lemma_reaches_step(t.parents, a);
        lemma_reaches_trans(t.parents, rk, a, p);
        assert(0 <= k < ids.len() && last_index_of(t.taxids, ids[k]) >= 0 && reaches(
            t.parents,
            last_index_of(t.taxids, ids[k]),
            p,
        ));
        assert(is_kept(t, ids, p));
        lemma_kept_below_index(t, ids, t.len(), p);
        assert(t1.parents[new_index(t, ids, a)] == new_index(t, ids, p));
        lemma_chain_to_pruned(t, ids, p, b, (f - 1) as nat);
        lemma_reaches_step_front(t1.parents, new_index(t, ids, a), new_index(t, ids, p));
        lemma_reaches_trans(
            t1.parents,
            new_index(t, ids, a),
            new_index(t, ids, p),
            new_index(t, ids, b),
        );
    }
}

/// One explicit parent step, stated over the pruned store's parents.
proof fn lemma_reaches_step_front(parents: Seq<int>, a: int, p: int)
    requires
        0 <= a < parents.len(),
        parents[a] == p,
    ensures
        reaches(parents, a, p),
{
    if p == a {
        lemma_reaches_refl(parents, a);
    } else {
        lemma_reaches_step(parents, a);
    }
}

/// The number of leaf renderings the Newick recursion makes below `node`:
/// it follows the recursion of `newick_of` exactly — the same children, the
/// same fuel policy — counting one for each node rendered in leaf format.
pub open spec fn leaf_render_count(t: TaxoModel, node: int, fuel: nat) -> int
    decreases fuel, 0int,
{
    let kids = children_of(t, node);
    if kids.len() == 0 {
        1
    } else if fuel == 0 {
        0
    } else {
        leaf_render_join(t, kids, (fuel - 1) as nat)
    }
}

pub open spec fn leaf_render_join(t: TaxoModel, kids: Seq<int>, fuel: nat) -> int
    decreases fuel, kids.len(),
{
    if kids.len() == 0 {
        0
    } else {
        leaf_render_count(t, kids[0], fuel) + leaf_render_join(t, kids.drop_first(), fuel)
    }
}

proof fn lemma_leaf_join_push(t: TaxoModel, s: Seq<int>, x: int, fuel: nat)
    ensures
        leaf_render_join(t, s.push(x), fuel) == leaf_render_join(t, s, fuel) + leaf_render_count(
            t,
            x,
            fuel,
        ),
    decreases s.len(),
{
    let sx = s.push(x);
    assert(leaf_render_join(t, Seq::<int>::empty(), fuel) == 0);
    if s.len() == 0 {
        assert(sx[0] == x);
        assert(sx.drop_first() =~= Seq::<int>::empty());
        assert(leaf_render_join(t, sx, fuel) == leaf_render_count(t, x, fuel)
            + leaf_render_join(t, sx.drop_first(), fuel));
    } else {
        assert(sx[0] == s[0]);
        assert(sx.drop_first() =~= s.drop_first().push(x));
        lemma_leaf_join_push(t, s.drop_first(), x, fuel);
        assert(leaf_render_join(t, sx, fuel) == leaf_render_count(t, s[0], fuel)
            + leaf_render_join(t, sx.drop_first(), fuel));
        assert(leaf_render_join(t, s, fuel) == leaf_render_count(t, s[0], fuel)
            + leaf_render_join(t, s.drop_first(), fuel));
    }
}

/// The positions whose parent walk passes through `n`.
pub open spec fn desc_set(t: TaxoModel, n: int) -> Set<int> {
    Set::new(|i: int| 0 <= i < t.len() && reaches(t.parents, i, n))
}

/// The zero-children positions whose parent walk passes through `n`.
pub open spec fn leaf_desc_set(t: TaxoModel, n: int) -> Set<int> {
    Set::new(
        |i: int| 0 <= i < t.len() && reaches(t.parents, i, n) && children_of(t, i).len() == 0,
    )
}

/// The positions with no children at all.
pub open spec fn zero_child_positions(t: TaxoModel) -> Set<int> {
    Set::new(|i: int| 0 <= i < t.len() && children_of(t, i).len() == 0)
}

/// Every position's parent walk ends at the self-referential position `r`.
pub open spec fn all_reach_root(t: TaxoModel, r: int) -> bool {
    &&& 0 <= r < t.len()
    &&& t.parents[r] == r
    &&& forall|i: int| 0 <= i < t.len() ==> reaches(t.parents, i, r)
}

proof fn lemma_children_below_elem(t: TaxoModel, node: int, i: int, q: int)
    requires
        0 <= q < children_below(t, node, i).len(),
    ensures
        0 <= children_below(t, node, i)[q] < i,
        t.parents[children_below(t, node, i)[q]] == node,
        children_below(t, node, i)[q] != node,
    decreases i,
{
    if i > 0 {
        let prev = children_below(t, node, i - 1);
        if q < prev.len() {
            lemma_children_below_elem(t, node, i - 1, q);
        }
    }
}

proof fn lemma_children_below_sorted(t: TaxoModel, node: int, i: int)
    ensures
        forall|q1: int, q2: int|
            0 <= q1 < q2 < children_below(t, node, i).len() ==> #[trigger] children_below(
                t,
                node,
                i,
            )[q1] < #[trigger] children_below(t, node, i)[q2],
    decreases i,
{
    if i > 0 {
        lemma_children_below_sorted(t, node, i - 1);
        let prev = children_below(t, node, i - 1);
        assert forall|q1: int, q2: int|
            0 <= q1 < q2 < children_below(t, node, i).len() implies #[trigger] children_below(
            t,
            node,
            i,
        )[q1] < #[trigger] children_below(t, node, i)[q2] by {
            if q2 < prev.len() {
            } else {
                lemma_children_below_elem(t, node, i - 1, q1);
            }
        }
    }
}

proof fn lemma_children_below_complete(t: TaxoModel, node: int, i: int, j: int)
    requires
        0 <= j < i,
        t.parents[j] == node,
        j != node,
    ensures
        children_below(t, node, i).contains(j),
    decreases i,
{
    if j == i - 1 {
        let prev = children_below(t, node, i - 1);
        assert(children_below(t, node, i)[prev.len() as int] == j);
    } else {
        lemma_children_below_complete(t, node, i - 1, j);
        let prev = children_below(t, node, i - 1);
        let q = choose|q: int| 0 <= q < prev.len() && prev[q] == j;
        assert(children_below(t, node, i)[q] == j);
    }
}

/// Two targets of one walk lie on a common walk themselves.
proof fn lemma_walk_comparable(parents: Seq<int>, a: int, b: int, c: int, f: nat, g: nat)
    requires
        in_chain(parents, a, b, f),
        in_chain(parents, a, c, g),
    ensures
        reaches(parents, b, c) || reaches(parents, c, b),
    decreases f,
{
    if a == b {
        assert(reaches(parents, b, c));
    } else if a == c {
        assert(reaches(parents, c, b));
    } else {
        lemma_walk_comparable(parents, parents[a], b, c, (f - 1) as nat, (g - 1) as nat);
    }
}

/// On a walk that reaches a self-referential root, two mutually reachable
/// positions coincide: no such walk passes around a cycle.
proof fn lemma_no_cycle(parents: Seq<int>, x: int, y: int, r: int, f: nat)
    requires
        in_chain(parents, x, r, f),
        parents.len() > r >= 0,
        parents[r] == r,
        reaches(parents, x, y),
        reaches(parents, y, x),
    ensures
        x == y,
    decreases f,
{
    if x != y {
        if x == r {
            let g = choose|g: nat| in_chain(parents, x, y, g);
            assert(in_chain(parents, x, y, g));
            assert(false);
        } else {
            let g = choose|g: nat| in_chain(parents, x, y, g);
            assert(in_chain(parents, x, y, g));
            let px = parents[x];
            assert(in_chain(parents, px, y, (g - 1) as nat));
            assert(reaches(parents, px, y));
            lemma_reaches_trans(parents, px, y, x);
            lemma_reaches_step(parents, x);
            if px == x {
                assert(false);
            }
            lemma_no_cycle(parents, px, x, r, (f - 1) as nat);
            assert(false);
        }
    }
}

/// A position below `n` other than `n` itself lies below one of `n`'s
/// children.
proof fn lemma_desc_through_child(t: TaxoModel, i: int, n: int, f: nat)
    requires
        t.wf(),
        0 <= i < t.len(),
        in_chain(t.parents, i, n, f),
        i != n,
    ensures
        exists|c: int|
            #[trigger] children_of(t, n).contains(c) && reaches(t.parents, i, c),
    decreases f,
{
    let p = t.parents[i];
    if p == n {
        lemma_children_below_complete(t, n, t.len(), i);
        lemma_reaches_refl(t.parents, i);
        assert(children_of(t, n).contains(i) && reaches(t.parents, i, i));
    } else {
        lemma_desc_through_child(t, p, n, (f - 1) as nat);
        let c = choose|c: int|
            #[trigger] children_of(t, n).contains(c) && reaches(t.parents, p, c);
        lemma_reaches_step(t.parents, i);
        lemma_reaches_trans(t.parents, i, p, c);
        assert(children_of(t, n).contains(c) && reaches(t.parents, i, c));
    }
}

/// The positions below a child of `n` lie below `n` too, and `n` is not
/// among them; so a child's descendant set is strictly smaller.
proof fn lemma_child_desc_smaller(t: TaxoModel, n: int, c: int, r: int)
    requires
        t.wf(),
        all_reach_root(t, r),
        0 <= n < t.len(),
        children_of(t, n).contains(c),
    ensures
        0 <= c < t.len(),
        desc_set(t, c).finite(),
        desc_set(t, n).finite(),
        desc_set(t, c).len() < desc_set(t, n).len(),
        desc_set(t, n).len() <= t.len(),
{
    let q = choose|q: int|
        0 <= q < children_of(t, n).len() && children_of(t, n)[q] == c;
    lemma_children_below_elem(t, n, t.len(), q);
    lemma_int_range_bounds(t, n);
    lemma_int_range_bounds(t, c);
    assert forall|i: int| desc_set(t, c).contains(i) implies desc_set(t, n).remove(n).contains(
        i,
    ) by {
        lemma_reaches_step(t.parents, c);
        lemma_reaches_trans(t.parents, i, c, n);
        if i == n {
            // n and c would be mutually reachable, around a cycle
            assert(reaches(t.parents, n, r));
            let g = choose|g: nat| in_chain(t.parents, n, r, g);
            assert(in_chain(t.parents, n, r, g));
            lemma_no_cycle(t.parents, n, c, r, g);
        }
    }
    vstd::set_lib::lemma_len_subset(desc_set(t, c), desc_set(t, n).remove(n));
    lemma_reaches_refl(t.parents, n);
    assert(desc_set(t, n).contains(n));
    assert(desc_set(t, n).remove(n).len() == desc_set(t, n).len() - 1);
}

/// A descendant set is a finite subset of the position range.
proof fn lemma_int_range_bounds(t: TaxoModel, n: int)
    ensures
        desc_set(t, n).finite(),
        desc_set(t, n).len() <= t.len(),
        leaf_desc_set(t, n).finite(),
{
    vstd::set_lib::lemma_int_range(0, t.len());
    assert(desc_set(t, n).subset_of(vstd::set_lib::set_int_range(0, t.len())));
    vstd::set_lib::lemma_len_subset(desc_set(t, n), vstd::set_lib::set_int_range(0, t.len()));
    assert(leaf_desc_set(t, n).subset_of(vstd::set_lib::set_int_range(0, t.len())));
    vstd::set_lib::lemma_len_subset(
        leaf_desc_set(t, n),
        vstd::set_lib::set_int_range(0, t.len()),
    );
}

/// Positions below two distinct children of one node are distinct.
proof fn lemma_sibling_desc_disjoint(t: TaxoModel, n: int, c1: int, c2: int, r: int)
    requires
        t.wf(),
        all_reach_root(t, r),
        0 <= n < t.len(),
        children_of(t, n).contains(c1),
        children_of(t, n).contains(c2),
        c1 != c2,
    ensures
        desc_set(t, c1).disjoint(desc_set(t, c2)),
{
    let q1 = choose|q: int|
        0 <= q < children_of(t, n).len() && children_of(t, n)[q] == c1;
    lemma_children_below_elem(t, n, t.len(), q1);
    let q2 = choose|q: int|
        0 <= q < children_of(t, n).len() && children_of(t, n)[q] == c2;
    lemma_children_below_elem(t, n, t.len(), q2);
    assert forall|i: int| !(desc_set(t, c1).contains(i) && desc_set(t, c2).contains(i)) by {
        if desc_set(t, c1).contains(i) && desc_set(t, c2).contains(i) {
            let f = choose|f: nat| in_chain(t.parents, i, c1, f);
            let g = choose|g: nat| in_chain(t.parents, i, c2, g);
            assert(in_chain(t.parents, i, c1, f));
            assert(in_chain(t.parents, i, c2, g));
            lemma_walk_comparable(t.parents, i, c1, c2, f, g);
            assert(reaches(t.parents, n, r));
            let gr = choose|gr: nat| in_chain(t.parents, n, r, gr);
            assert(in_chain(t.parents, n, r, gr));
            if reaches(t.parents, c1, c2) {
                let h = choose|h: nat| in_chain(t.parents, c1, c2, h);
                assert(in_chain(t.parents, c1, c2, h));
                assert(in_chain(t.parents, n, c2, (h - 1) as nat));
                assert(reaches(t.parents, n, c2));
                lemma_reaches_step(t.parents, c2);
                lemma_no_cycle(t.parents, n, c2, r, gr);
            } else {
                let h = choose|h: nat| in_chain(t.parents, c2, c1, h);
                assert(in_chain(t.parents, c2, c1, h));
                assert(in_chain(t.parents, n, c1, (h - 1) as nat));
                assert(reaches(t.parents, n, c1));
                lemma_reaches_step(t.parents, c1);
                lemma_no_cycle(t.parents, n, c1, r, gr);
            }
        }
    }
}

/// The union of the zero-children descendants of the first `q` children.
spec fn leaf_desc_union(t: TaxoModel, kids: Seq<int>, q: int) -> Set<int>
    decreases q,
{
    if q <= 0 {
        Set::empty()
    } else {
        leaf_desc_union(t, kids, q - 1) + leaf_desc_set(t, kids[q - 1])
    }
}

proof fn lemma_union_membership(t: TaxoModel, kids: Seq<int>, q: int)
    ensures
        forall|i: int|
            #[trigger] leaf_desc_union(t, kids, q).contains(i) <==> exists|j: int|
                0 <= j < q && leaf_desc_set(t, #[trigger] kids[j]).contains(i),
    decreases q,
{
    if q > 0 {
        lemma_union_membership(t, kids, q - 1);
        assert forall|i: int|
            #[trigger] leaf_desc_union(t, kids, q).contains(i) implies exists|j: int|
            0 <= j < q && leaf_desc_set(t, #[trigger] kids[j]).contains(i) by {
            if leaf_desc_union(t, kids, q - 1).contains(i) {
                let j = choose|j: int|
                    0 <= j < q - 1 && leaf_desc_set(t, #[trigger] kids[j]).contains(i);
                assert(0 <= j < q && leaf_desc_set(t, kids[j]).contains(i));
            } else {
                assert(0 <= q - 1 < q && leaf_desc_set(t, kids[q - 1]).contains(i));
            }
        }
        assert forall|i: int|
            (exists|j: int|
                0 <= j < q && leaf_desc_set(t, #[trigger] kids[j]).contains(
                    i,
                )) implies #[trigger] leaf_desc_union(t, kids, q).contains(i) by {
            let j = choose|j: int| 0 <= j < q && leaf_desc_set(t, #[trigger] kids[j]).contains(i);
            if j < q - 1 {
                assert(leaf_desc_union(t, kids, q - 1).contains(i));
            } else {
                assert(leaf_desc_set(t, kids[q - 1]).contains(i));
            }
        }
    }
}

/// The per-child counts add up: each child's zero-children descendants are
/// disjoint from every earlier child's.
proof fn lemma_count_children(t: TaxoModel, n: int, q: int, fuel: nat, r: int)
    requires
        t.wf(),
        all_reach_root(t, r),
        0 <= n < t.len(),
        0 <= q <= children_of(t, n).len(),
        fuel + 1 >= desc_set(t, n).len(),
        desc_set(t, n).finite(),
    ensures
        leaf_desc_union(t, children_of(t, n), q).finite(),
        leaf_desc_union(t, children_of(t, n), q).len() == leaf_render_join(
            t,
            children_of(t, n).take(q),
            fuel,
        ),
    decreases fuel, q,
{
    let kids = children_of(t, n);
    if q == 0 {
        assert(kids.take(0) =~= Seq::<int>::empty());
    } else {
        lemma_count_children(t, n, q - 1, fuel, r);
        lemma_children_below_elem(t, n, t.len(), q - 1);
        let c = kids[q - 1];
        lemma_children_below_complete(t, n, t.len(), c);
        lemma_child_desc_smaller(t, n, c, r);
        lemma_count_at(t, c, fuel, r);
        lemma_int_range_bounds(t, c);
        // the new child's leaves are disjoint from all earlier ones
        lemma_union_membership(t, kids, q - 1);
        lemma_children_below_sorted(t, n, t.len());
        assert forall|i: int|
            !(leaf_desc_union(t, kids, q - 1).contains(i) && leaf_desc_set(t, c).contains(i)) by {
            if leaf_desc_union(t, kids, q - 1).contains(i) && leaf_desc_set(t, c).contains(i) {
                let j = choose|j: int|
                    0 <= j < q - 1 && leaf_desc_set(t, #[trigger] kids[j]).contains(i);
                lemma_children_below_elem(t, n, t.len(), j);
                lemma_children_below_complete(t, n, t.len(), kids[j]);
                lemma_sibling_desc_disjoint(t, n, kids[j], c, r);
                assert(desc_set(t, kids[j]).contains(i));
                assert(desc_set(t, c).contains(i));
                assert(false);
            }
        }
        assert(leaf_desc_union(t, kids, q - 1).disjoint(leaf_desc_set(t, c)));
        vstd::set_lib::lemma_set_disjoint_lens(leaf_desc_union(t, kids, q - 1), leaf_desc_set(
            t,
            c,
        ));
        assert(kids.take(q).drop_last() =~= kids.take(q - 1));
        lemma_leaf_join_push_take(t, kids, q, fuel);
    }
}

proof fn lemma_leaf_join_push_take(t: TaxoModel, kids: Seq<int>, q: int, fuel: nat)
    requires
        0 < q <= kids.len(),
    ensures
        leaf_render_join(t, kids.take(q), fuel) == leaf_render_join(t, kids.take(q - 1), fuel)
            + leaf_render_count(t, kids[q - 1], fuel),
{
    assert(kids.take(q) =~= kids.take(q - 1).push(kids[q - 1]));
    lemma_leaf_join_push(t, kids.take(q - 1), kids[q - 1], fuel);
}

/// The encoding recursion below `n` renders exactly one leaf for each
/// zero-children position whose walk passes `n`, given enough fuel.
proof fn lemma_count_at(t: TaxoModel, n: int, fuel: nat, r: int)
    requires
        t.wf(),
        all_reach_root(t, r),
        0 <= n < t.len(),
        fuel >= desc_set(t, n).len(),
    ensures
        leaf_render_count(t, n, fuel) == leaf_desc_set(t, n).len(),
    decreases fuel, 0int,
{
    let kids = children_of(t, n);
    lemma_int_range_bounds(t, n);
    lemma_reaches_refl(t.parents, n);
    assert(desc_set(t, n).contains(n));
    if kids.len() == 0 {
        assert forall|i: int| #[trigger] leaf_desc_set(t, n).contains(i) implies i == n by {
            if i != n {
                let f = choose|f: nat| in_chain(t.parents, i, n, f);
                assert(in_chain(t.parents, i, n, f));
                lemma_desc_through_child(t, i, n, f);
                let c = choose|c: int|
                    #[trigger] children_of(t, n).contains(c) && reaches(t.parents, i, c);
                let q = choose|q: int| 0 <= q < kids.len() && kids[q] == c;
                assert(false);
            }
        }
        assert(leaf_desc_set(t, n) =~= Set::empty().insert(n));
    } else {
        // fuel cannot be exhausted: the descendant set holds at least n
        assert(desc_set(t, n).len() >= 1) by {
            assert(desc_set(t, n).remove(n).len() == desc_set(t, n).len() - 1);
        }
        lemma_count_children(t, n, kids.len() as int, (fuel - 1) as nat, r);
        assert(kids.take(kids.len() as int) =~= kids);
        // the node's leaves are exactly its children's leaves
        lemma_union_membership(t, kids, kids.len() as int);
        assert forall|i: int| #[trigger] leaf_desc_set(t, n).contains(i) implies leaf_desc_union(
            t,
            kids,
            kids.len() as int,
        ).contains(i) by {
            assert(i != n);
            let f = choose|f: nat| in_chain(t.parents, i, n, f);
            assert(in_chain(t.parents, i, n, f));
            lemma_desc_through_child(t, i, n, f);
            let c = choose|c: int|
                #[trigger] children_of(t, n).contains(c) && reaches(t.parents, i, c);
            let q = choose|q: int| 0 <= q < kids.len() && kids[q] == c;
            assert(leaf_desc_set(t, kids[q]).contains(i));
        }
        assert forall|i: int|
            #[trigger] leaf_desc_union(t, kids, kids.len() as int).contains(
                i,
            ) implies leaf_desc_set(t, n).contains(i) by {
            let j = choose|j: int|
                0 <= j < kids.len() && leaf_desc_set(t, #[trigger] kids[j]).contains(i);
            lemma_children_below_elem(t, n, t.len(), j);
            lemma_reaches_step(t.parents, kids[j]);
            lemma_reaches_trans(t.parents, i, kids[j], n);
        }
        assert(leaf_desc_set(t, n) =~= leaf_desc_union(t, kids, kids.len() as int));
    }
}

/// Leaf-count invariant: on a store whose every position walks up to the
/// one self-referential root, the encoding recursion — started, as
/// `to_newick` starts it, with fuel equal to the store's size — renders
/// exactly one leaf label for each position with zero children.
pub proof fn lemma_leaf_count(t: TaxoModel, r: int)
    requires
        t.wf(),
        all_reach_root(t, r),
    ensures
        leaf_render_count(t, r, t.len() as nat) == zero_child_positions(t).len(),
{
    lemma_int_range_bounds(t, r);
    lemma_count_at(t, r, t.len() as nat, r);
    assert(leaf_desc_set(t, r) =~= zero_child_positions(t));
}

/// Serializes `taxonomy` to Newick text.
pub fn taxonomy_to_newick(taxonomy: &Taxonomy) -> (r: Result<String, crate::errors::TaxoError>)
    requires
        taxonomy.wf(),
    ensures
        match r {
            Ok(s) => first_root(taxonomy@) >= 0 && s@ == newick_of(
                taxonomy@,
                first_root(taxonomy@),
                taxonomy@.len() as nat,
            ),
            Err(e) => first_root(taxonomy@) == -1 && e == crate::errors::TaxoError::EmptyResult,
        },
{
    taxonomy.to_newick()
}

} // verus!
