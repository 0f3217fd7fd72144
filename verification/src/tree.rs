use crate::strutil::{contains_usize, push_char};
use vstd::prelude::*;

verus! {

broadcast use vstd::seq::axiom_seq_index_decreases;

/// One node of the nested, owned tree that leaf-driven pruning builds.
/// `parent` 0 denotes the table-local root. Branch length and bootstrap are
/// carried as already-rendered decimal text; `None` stands for a stored
/// value of zero, which the encoder omits.
pub struct Node {
    pub node: usize,
    pub parent: usize,
    pub name: String,
    pub length: Option<String>,
    pub bootstrap: Option<String>,
    pub rank: Option<String>,
    pub children: Vec<Node>,
}

/// One row of the backing adjacency table, as handed over by the storage
/// collaborator: the same fields as [`Node`], without children.
pub struct NodeRecord {
    pub node: usize,
    pub parent: usize,
    pub name: String,
    pub length: Option<String>,
    pub bootstrap: Option<String>,
    pub rank: Option<String>,
}

/// Mathematical model of a [`Node`].
pub ghost struct NodeModel {
    pub node: int,
    pub parent: int,
    pub name: Seq<char>,
    pub length: Option<Seq<char>>,
    pub bootstrap: Option<Seq<char>>,
    pub rank: Option<Seq<char>>,
    pub children: Seq<NodeModel>,
}

pub open spec fn opt_view(o: Option<String>) -> Option<Seq<char>> {
    match o {
        Some(s) => Some(s@),
        None => None,
    }
}

pub open spec fn node_model(n: Node) -> NodeModel
    decreases n, 1int,
{
    NodeModel {
        node: n.node as int,
        parent: n.parent as int,
        name: n.name@,
        length: opt_view(n.length),
        bootstrap: opt_view(n.bootstrap),
        rank: opt_view(n.rank),
        children: node_model_seq(n.children@),
    }
}

pub open spec fn node_model_seq(ns: Seq<Node>) -> Seq<NodeModel>
    decreases ns, 0int,
{
    if ns.len() == 0 {
        Seq::empty()
    } else {
        seq![node_model(ns[0])] + node_model_seq(ns.drop_first())
    }
}

proof fn lemma_node_model_seq_props(ns: Seq<Node>)
    ensures
        node_model_seq(ns).len() == ns.len(),
        forall|i: int|
            0 <= i < ns.len() ==> #[trigger] node_model_seq(ns)[i] == node_model(ns[i]),
    decreases ns.len(),
{
    if ns.len() > 0 {
        lemma_node_model_seq_props(ns.drop_first());
        assert forall|i: int|
            0 <= i < ns.len() implies #[trigger] node_model_seq(ns)[i] == node_model(ns[i]) by {
            if i > 0 {
                assert(node_model_seq(ns)[i] == node_model_seq(ns.drop_first())[i - 1]);
                assert(ns.drop_first()[i - 1] == ns[i]);
            }
        }
    }
}

pub open spec fn opt_model(o: Option<Node>) -> Option<NodeModel> {
    match o {
        Some(n) => Some(node_model(n)),
        None => None,
    }
}

/// The text of an optional string, or empty.
pub open spec fn or_empty(o: Option<Seq<char>>) -> Seq<char> {
    match o {
        Some(s) => s,
        None => Seq::empty(),
    }
}

/// Whether the text begins with the three-character species-rank marker.
pub open spec fn has_species_prefix(s: Seq<char>) -> bool {
    s.len() >= 3 && s[0] == 's' && s[1] == '_' && s[2] == '_'
}

/// The label a node is written under: its rank when that carries the
/// species marker, otherwise its name.
pub open spec fn node_label(name: Seq<char>, rank: Seq<char>) -> Seq<char> {
    if has_species_prefix(rank) {
        rank
    } else {
        name
    }
}

/// `;` becomes `+` and a space becomes `_`, for Newick syntax safety.
pub open spec fn sanitize_char(c: char) -> char {
    if c == ';' {
        '+'
    } else if c == ' ' {
        '_'
    } else {
        c
    }
}

pub open spec fn sanitize(s: Seq<char>) -> Seq<char> {
    Seq::new(s.len(), |i: int| sanitize_char(s[i]))
}

/// The Newick rendering of a nested node: `(children)` only when children
/// exist, then the sanitized label, then `:length` only when a length is
/// present, then `[bootstrap]` only when a bootstrap is present. No
/// trailing `;` — the caller appends it once.
pub open spec fn nested_newick(m: NodeModel) -> Seq<char>
    decreases m, 1int,
{
    (if m.children.len() > 0 {
        seq!['('] + nested_join(m.children) + seq![')']
    } else {
        Seq::empty()
    }) + sanitize(node_label(m.name, or_empty(m.rank))) + (match m.length {
        Some(l) => seq![':'] + l,
        None => Seq::empty(),
    }) + (match m.bootstrap {
        Some(b) => seq!['['] + b + seq![']'],
        None => Seq::empty(),
    })
}

/// The renderings of the children, joined with commas.
pub open spec fn nested_join(ns: Seq<NodeModel>) -> Seq<char>
    decreases ns, 0int,
{
    if ns.len() == 0 {
        Seq::empty()
    } else if ns.len() == 1 {
        nested_newick(ns[0])
    } else {
        nested_newick(ns[0]) + seq![','] + nested_join(ns.drop_first())
    }
}

proof fn lemma_nested_join_push(s: Seq<NodeModel>, x: NodeModel)
    ensures
        nested_join(s.push(x)) == if s.len() == 0 {
            nested_newick(x)
        } else {
            nested_join(s) + seq![','] + nested_newick(x)
        },
    decreases s.len(),
{
    let sx = s.push(x);
    if s.len() == 0 {
        assert(sx.len() == 1);
        assert(sx[0] == x);
    } else {
        assert(sx[0] == s[0]);
        assert(sx.drop_first() =~= s.drop_first().push(x));
        lemma_nested_join_push(s.drop_first(), x);
        if s.len() == 1 {
            assert(nested_join(sx) == nested_newick(s[0]) + seq![','] + nested_newick(x));
        } else {
            assert(nested_join(sx) == nested_newick(s[0]) + seq![','] + (nested_join(
                s.drop_first(),
            ) + seq![','] + nested_newick(x)));
            assert(nested_newick(s[0]) + seq![','] + (nested_join(s.drop_first()) + seq![',']
                + nested_newick(x)) =~= (nested_newick(s[0]) + seq![','] + nested_join(
                s.drop_first(),
            )) + seq![','] + nested_newick(x));
        }
    }
}

/// The first row whose node id is `id`, or -1 when there is none: the row
/// a single-node fetch returns.
pub open spec fn row_index(rows: Seq<NodeRecord>, id: usize) -> int
    decreases rows.len(),
{
    if rows.len() == 0 {
        -1
    } else if rows[0].node == id {
        0
    } else {
        let r = row_index(rows.drop_first(), id);
        if r == -1 {
            -1
        } else {
            r + 1
        }
    }
}

pub proof fn lemma_row_index_props(rows: Seq<NodeRecord>, id: usize)
    ensures
        -1 <= row_index(rows, id) < rows.len(),
        row_index(rows, id) == -1 ==> forall|k: int| 0 <= k < rows.len() ==> rows[k].node != id,
        row_index(rows, id) >= 0 ==> {
            &&& rows[row_index(rows, id)].node == id
            &&& forall|k: int| 0 <= k < row_index(rows, id) ==> rows[k].node != id
        },
    decreases rows.len(),
{
    if rows.len() > 0 && rows[0].node != id {
        let d = rows.drop_first();
        lemma_row_index_props(d, id);
        let rd = row_index(d, id);
        if rd == -1 {
            assert forall|k: int| 0 <= k < rows.len() implies rows[k].node != id by {
                if k > 0 {
                    assert(d[k - 1] == rows[k]);
                }
            }
        } else {
            let r = row_index(rows, id);
            assert(r == rd + 1);
            assert(rows[r] == d[rd]);
            assert forall|k: int| 0 <= k < r implies rows[k].node != id by {
                if k > 0 {
                    assert(d[k - 1] == rows[k]);
                }
            }
        }
    }
}

/// The ids of the rows below `i` whose parent is `id`, in row order: the
/// ordered children list the backing store hands back.
pub open spec fn child_ids_below(rows: Seq<NodeRecord>, id: usize, i: int) -> Seq<usize>
    decreases i,
{
    if i <= 0 {
        Seq::empty()
    } else {
        let rest = child_ids_below(rows, id, i - 1);
        if rows[i - 1].parent == id {
            rest.push(rows[i - 1].node)
        } else {
            rest
        }
    }
}

pub open spec fn child_ids(rows: Seq<NodeRecord>, id: usize) -> Seq<usize> {
    child_ids_below(rows, id, rows.len() as int)
}

/// Whether a row's rank is one of the requested rank labels.
pub open spec fn rank_matches(rec: NodeRecord, ranks: Seq<Seq<char>>) -> bool {
    match rec.rank {
        Some(r) => ranks.contains(r@),
        None => false,
    }
}

pub open spec fn selected_below(rows: Seq<NodeRecord>, ranks: Seq<Seq<char>>, i: int) -> Seq<usize>
    decreases i,
{
    if i <= 0 {
        Seq::empty()
    } else {
        let rest = selected_below(rows, ranks, i - 1);
        if rank_matches(rows[i - 1], ranks) {
            rest.push(rows[i - 1].node)
        } else {
            rest
        }
    }
}

/// The ids of all rows whose rank is one of the requested labels, in row
/// order: the leaf set that drives pruning.
pub open spec fn selected_leaves(rows: Seq<NodeRecord>, ranks: Seq<Seq<char>>) -> Seq<usize> {
    selected_below(rows, ranks, rows.len() as int)
}

/// The pruned subtree at `id`. The node's own row is the first row bearing
/// its id; its children are the rows naming it as parent, in row order. A
/// node is retained iff it is a requested leaf that ends up with no
/// retained children, or at least one of its children is retained. `fuel`
/// bounds the recursion depth; a table whose parent links form no cycle
/// never exhausts it when it starts at one more than the row count.
pub open spec fn prune_tree(
    rows: Seq<NodeRecord>,
    id: usize,
    leaves: Seq<usize>,
    fuel: nat,
) -> Option<NodeModel>
    decreases fuel, 0int,
{
    if fuel == 0 {
        None
    } else {
        let i = row_index(rows, id);
        if i < 0 {
            None
        } else {
            let built = prune_children(rows, child_ids(rows, id), leaves, (fuel - 1) as nat);
            if leaves.contains(id) && built.len() == 0 {
                Some(row_node(rows[i], built))
            } else if built.len() > 0 {
                Some(row_node(rows[i], built))
            } else {
                None
            }
        }
    }
}

/// The node a row describes, with the given children attached.
pub open spec fn row_node(rec: NodeRecord, children: Seq<NodeModel>) -> NodeModel {
    NodeModel {
        node: rec.node as int,
        parent: rec.parent as int,
        name: rec.name@,
        length: opt_view(rec.length),
        bootstrap: opt_view(rec.bootstrap),
        rank: opt_view(rec.rank),
        children: children,
    }
}

/// The retained subtrees among the children with the given ids, in order.
pub open spec fn prune_children(
    rows: Seq<NodeRecord>,
    kid_ids: Seq<usize>,
    leaves: Seq<usize>,
    fuel: nat,
) -> Seq<NodeModel>
    decreases fuel, kid_ids.len(),
{
    if kid_ids.len() == 0 {
        Seq::empty()
    } else {
        let rest = prune_children(rows, kid_ids.drop_last(), leaves, fuel);
        match prune_tree(rows, kid_ids.last(), leaves, fuel) {
            Some(m) => rest.push(m),
            None => rest,
        }
    }
}

/// All node ids whose stored rank is a member of `ranks`, in row order.
pub fn get_leaf_nodes_by_rank(records: &Vec<NodeRecord>, ranks: &Vec<String>) -> (r: Vec<usize>)
    ensures
        r@ == selected_leaves(records@, ranks.deep_view()),
{
    let ghost rows = records@;
    let ghost rv = ranks.deep_view();
    let mut out: Vec<usize> = Vec::new();
    let mut i: usize = 0;
    while i < records.len()
        invariant
            rows == records@,
            rv == ranks.deep_view(),
            i <= rows.len(),
            out@ == selected_below(rows, rv, i as int),
        decreases records.len() - i,
    {
        let matched = match &records[i].rank {
            Some(r) => crate::strutil::contains_string(ranks, r),
            None => false,
        };
        if matched {
            out.push(records[i].node);
        }
        proof {
            assert(rank_matches(rows[i as int], rv) == matched);
        }
        i += 1;
    }
    out
}

/// Builds the pruned subtree rooted at `node_id` from the adjacency rows,
/// or `None` when nothing below `node_id` (itself included) is retained or
/// when no row bears `node_id`.
pub fn build_pruned_tree(records: &Vec<NodeRecord>, node_id: usize, leaf_ids: &Vec<usize>) -> (r:
    Option<Node>)
    requires
        records@.len() < usize::MAX,
    ensures
        opt_model(r) == prune_tree(records@, node_id, leaf_ids@, (records@.len() + 1) as nat),
{
    build_pruned_rec(records, node_id, leaf_ids, records.len() + 1)
}

fn clone_opt_string(o: &Option<String>) -> (r: Option<String>)
    ensures
        r == *o,
{
    match o {
        Some(s) => Some(s.clone()),
        None => None,
    }
}

fn build_pruned_rec(records: &Vec<NodeRecord>, node_id: usize, leaf_ids: &Vec<usize>, fuel: usize)
    -> (r: Option<Node>)
    ensures
        opt_model(r) == prune_tree(records@, node_id, leaf_ids@, fuel as nat),
    decreases fuel,
{
    let ghost rows = records@;
    if fuel == 0 {
        return None;
    }
    // the node's own row: the first row bearing its id
    let n = records.len();
    let mut row: Option<usize> = None;
    let mut j: usize = 0;
    while j < n
        invariant
            rows == records@,
            n == rows.len(),
            j <= n,
            match row {
                Some(f) => f < n && row_index(rows, node_id) == f as int,
                None => forall|k: int| 0 <= k < j ==> rows[k].node != node_id,
            },
        decreases n - j,
    {
        if row.is_none() && records[j].node == node_id {
            row = Some(j);
            proof {
                lemma_row_index_props(rows, node_id);
                let ri = row_index(rows, node_id);
                if ri < 0 {
                    assert(rows[j as int].node != node_id);
                    assert(false);
                }
                if ri < j as int {
                    assert(rows[ri].node != node_id);
                    assert(false);
                }
                if ri > j as int {
                    assert(rows[j as int].node != node_id);
                    assert(false);
                }
            }
        }
        j += 1;
    }
    let i = match row {
        Some(i) => i,
        None => {
            proof {
                lemma_row_index_props(rows, node_id);
                if row_index(rows, node_id) >= 0 {
                    assert(rows[row_index(rows, node_id)].node == node_id);
                    assert(false);
                }
            }
            return None;
        },
    };
    // the ordered list of direct children ids
    let ghost kids = child_ids(rows, node_id);
    let mut kid_ids: Vec<usize> = Vec::new();
    let mut j: usize = 0;
    while j < n
        invariant
            rows == records@,
            n == rows.len(),
            j <= n,
            kid_ids@ == child_ids_below(rows, node_id, j as int),
        decreases n - j,
    {
        if records[j].parent == node_id {
            kid_ids.push(records[j].node);
        }
        j += 1;
    }
    // recurse into each child, keeping the retained ones in order
    let mut children: Vec<Node> = Vec::new();
    let mut q: usize = 0;
    while q < kid_ids.len()
        invariant
            rows == records@,
            kid_ids@ == kids,
            q <= kids.len(),
            fuel >= 1,
            node_model_seq(children@) == prune_children(
                rows,
                kids.take(q as int),
                leaf_ids@,
                (fuel - 1) as nat,
            ),
        decreases kid_ids.len() - q,
    {
        let ghost pre = children@;
        let sub = build_pruned_rec(records, kid_ids[q], leaf_ids, fuel - 1);
        match sub {
            Some(child) => {
                children.push(child);
                proof {
                    lemma_node_model_seq_push(pre, children@[pre.len() as int]);
                    assert(children@ =~= pre.push(children@[pre.len() as int]));
                }
            },
            None => {},
        }
        proof {
            assert(kids.take(q + 1).drop_last() =~= kids.take(q as int));
            assert(kids.take(q + 1).last() == kids[q as int]);
        }
        q += 1;
    }
    proof {
        assert(kids.take(kids.len() as int) =~= kids);
    }
    let is_specified_leaf = contains_usize(leaf_ids, node_id);
    let keep = children.len() > 0;
    if (is_specified_leaf && !keep) || keep {
        let rec = Node {
            node: records[i].node,
            parent: records[i].parent,
            name: records[i].name.clone(),
            length: clone_opt_string(&records[i].length),
            bootstrap: clone_opt_string(&records[i].bootstrap),
            rank: clone_opt_string(&records[i].rank),
            children,
        };
        proof {
            assert(node_model(rec) == row_node(
                rows[i as int],
                prune_children(rows, kids, leaf_ids@, (fuel - 1) as nat),
            ));
        }
        Some(rec)
    } else {
        None
    }
}

proof fn lemma_node_model_seq_push(s: Seq<Node>, x: Node)
    ensures
        node_model_seq(s.push(x)) == node_model_seq(s).push(node_model(x)),
    decreases s.len(),
{
    let sx = s.push(x);
    if s.len() == 0 {
        assert(sx.len() == 1);
        assert(sx[0] == x);
        assert(sx.drop_first().len() == 0);
        assert(node_model_seq(sx.drop_first()) =~= Seq::<NodeModel>::empty());
        assert(node_model_seq(s) =~= Seq::<NodeModel>::empty());
        assert(node_model_seq(sx) =~= node_model_seq(s).push(node_model(x)));
    } else {
        assert(sx[0] == s[0]);
        assert(sx.drop_first() =~= s.drop_first().push(x));
        lemma_node_model_seq_push(s.drop_first(), x);
        assert(node_model_seq(sx) == seq![node_model(s[0])] + node_model_seq(
            s.drop_first(),
        ).push(node_model(x)));
        assert(node_model_seq(s) == seq![node_model(s[0])] + node_model_seq(s.drop_first()));
        assert(seq![node_model(s[0])] + node_model_seq(s.drop_first()).push(node_model(x)) =~= (
        seq![node_model(s[0])] + node_model_seq(s.drop_first())).push(node_model(x)));
    }
}

/// Appends the Newick rendering of `node` to `newick`.
#[verifier::rlimit(50)]
pub fn write_node_to_newick(node: &Node, newick: &mut String)
    ensures
        final(newick)@ == old(newick)@ + nested_newick(node_model(*node)),
    decreases *node,
{
    let ghost base = newick@;
    let ghost kids = node_model_seq(node.children@);
    proof {
        lemma_node_model_seq_props(node.children@);
    }
    if node.children.len() > 0 {
        newick.append("(");
        proof {
            reveal_strlit("(");
            assert(("(")@ =~= seq!['(']);
        }
        let mut i: usize = 0;
        while i < node.children.len()
            invariant
                kids == node_model_seq(node.children@),
                kids.len() == node.children@.len(),
                forall|p: int|
                    0 <= p < kids.len() ==> #[trigger] kids[p] == node_model(node.children@[p]),
                i <= kids.len(),
                kids.len() > 0,
                i == 0 ==> newick@ == base + seq!['('],
                i > 0 ==> newick@ == base + seq!['('] + nested_join(kids.take(i as int)),
            decreases kids.len() - i,
        {
            if i > 0 {
                newick.append(",");
            }
            write_node_to_newick(&node.children[i], newick);
            proof {
                reveal_strlit(",");
                assert((",")@ =~= seq![',']);
                lemma_nested_join_push(kids.take(i as int), kids[i as int]);
                assert(kids.take(i + 1) =~= kids.take(i as int).push(kids[i as int]));
                if i == 0 {
                    assert(newick@ =~= base + seq!['('] + nested_join(kids.take(1)));
                } else {
                    assert(newick@ =~= base + seq!['('] + nested_join(kids.take(i + 1)));
                }
            }
            i += 1;
        }
        newick.append(")");
        proof {
            reveal_strlit(")");
            assert((")")@ =~= seq![')']);
            assert(kids.take(kids.len() as int) =~= kids);
            assert(newick@ =~= base + seq!['('] + nested_join(kids) + seq![')']);
        }
    }
    let ghost mid = newick@;
    // the label: the rank when it carries the species marker, else the name
    let use_rank = match &node.rank {
        Some(r) => {
            r.unicode_len() >= 3 && r.as_str().get_char(0) == 's' && r.as_str().get_char(1) == '_'
                && r.as_str().get_char(2) == '_'
        },
        None => false,
    };
    let label: &String = if use_rank {
        match &node.rank {
            Some(r) => r,
            None => &node.name,
        }
    } else {
        &node.name
    };
    proof {
        assert(label@ == node_label(node.name@, or_empty(opt_view(node.rank))));
    }
    let llen = label.as_str().unicode_len();
    let mut i: usize = 0;
    while i < llen
        invariant
            llen == label@.len(),
            i <= llen,
            newick@ == mid + sanitize(label@).take(i as int),
        decreases llen - i,
    {
        let c = label.as_str().get_char(i);
        let c2 = if c == ';' {
            '+'
        } else if c == ' ' {
            '_'
        } else {
            c
        };
        push_char(newick, c2);
        proof {
            assert(sanitize(label@).take(i + 1) =~= sanitize(label@).take(i as int).push(
                sanitize_char(label@[i as int]),
            ));
        }
        i += 1;
    }
    proof {
        assert(sanitize(label@).take(llen as int) =~= sanitize(label@));
    }
    // branch length, only when one is present
    match &node.length {
        Some(l) => {
            newick.append(":");
            newick.append(l.as_str());
            proof {
                reveal_strlit(":");
                assert((":")@ =~= seq![':']);
            }
        },
        None => {},
    }
    // bootstrap, only when one is present
    match &node.bootstrap {
        Some(b) => {
            newick.append("[");
            newick.append(b.as_str());
            newick.append("]");
            proof {
                reveal_strlit("[");
                reveal_strlit("]");
                assert(("[")@ =~= seq!['[']);
                assert(("]")@ =~= seq![']']);
            }
        },
        None => {},
    }
    proof {
        assert(newick@ =~= base + nested_newick(node_model(*node)));
    }
}

} // verus!
