//! The inclusion graph of one translation unit.

use crate::shortest::{labels_ok, leads, lemma_shortest_paths};
use vstd::prelude::*;

verus! {

/// Identity of a physical file, compared by value.
pub type FileID = (u64, u64, u64);

/// The cost that stands for infinity: that of a file which no path from the root
/// has reached.
pub const UNREACHED: usize = usize::MAX - 1;

/// One file of the graph.
#[derive(Debug)]
pub struct IncludeEntry {
    id: FileID,
    includes: Vec<FileID>,
    used: bool,
    costs: usize,
    pred: Option<FileID>,
}

/// What an [`IncludeEntry`] stands for.
pub struct Node {
    /// The file.
    pub id: FileID,
    /// The files that it names in its directives, in the order in which they were inserted.
    pub includes: Seq<FileID>,
    /// Whether the root refers to a symbol of this file.
    pub used: bool,
    /// The length of the shortest path from the root that is known, [`UNREACHED`]
    /// while none is.
    pub cost: nat,
    /// The direct successor of the root through which the file was reached.
    pub pred: Option<FileID>,
}

impl View for IncludeEntry {
    type V = Node;

    closed spec fn view(&self) -> Node {
        Node {
            id: self.id,
            includes: self.includes@,
            used: self.used,
            cost: self.costs as nat,
            pred: self.pred,
        }
    }
}

/// Whether `g` has a node for `id`.
pub open spec fn has_node(g: Seq<Node>, id: FileID) -> bool {
    exists|i: int| 0 <= i < g.len() && (#[trigger] g[i]).id == id
}

/// The position of the node for `id`, where `g` has one.
pub open spec fn node_index(g: Seq<Node>, id: FileID) -> int {
    choose|i: int| 0 <= i < g.len() && (#[trigger] g[i]).id == id
}

/// No file has two nodes.
pub open spec fn distinct_ids(g: Seq<Node>) -> bool {
    forall|i: int, j: int|
        0 <= i < g.len() && 0 <= j < g.len() && (#[trigger] g[i]).id == (#[trigger] g[j]).id ==> i
            == j
}

/// No file has two nodes, no node names a file twice, and every file named has a node.
pub open spec fn well_formed(g: Seq<Node>) -> bool {
    &&& distinct_ids(g)
    &&& forall|i: int| 0 <= i < g.len() ==> (#[trigger] g[i]).includes.no_duplicates()
    &&& forall|i: int, k: int|
        0 <= i < g.len() && 0 <= k < g[i].includes.len() ==> has_node(
            g,
            #[trigger] g[i].includes[k],
        )
}

/// Whether `h` has the nodes of `g`, with the same successors and marks: the two
/// differ at most in costs and predecessors.
pub open spec fn same_shape(g: Seq<Node>, h: Seq<Node>) -> bool {
    &&& g.len() == h.len()
    &&& forall|i: int|
        0 <= i < g.len() ==> (#[trigger] h[i]).id == g[i].id && h[i].includes == g[i].includes
            && h[i].used == g[i].used
}

/// The edges that leave one node, in the order of its successors.
pub open spec fn edges_of_node(n: Node) -> Seq<(FileID, FileID)> {
    n.includes.map_values(|to: FileID| (n.id, to))
}

/// The edges of `g`: node by node, and for each node in the order of its successors.
pub open spec fn edge_list(g: Seq<Node>) -> Seq<(FileID, FileID)>
    decreases g.len(),
{
    if g.len() == 0 {
        Seq::empty()
    } else {
        edge_list(g.drop_last()) + edges_of_node(g.last())
    }
}

/// The state from which the relaxation starts: the root at cost 0 with itself as
/// predecessor, each of its direct successors at cost 1 with itself as predecessor
/// (a root that names itself counts as a successor), every other node at
/// [`UNREACHED`] without a predecessor.
pub open spec fn initialised(g: Seq<Node>, root: FileID) -> Seq<Node> {
    let r = node_index(g, root);
    Seq::new(
        g.len(),
        |i: int|
            if g[r].includes.contains(g[i].id) {
                Node { cost: 1, pred: Some(g[i].id), ..g[i] }
            } else if i == r {
                Node { cost: 0, pred: Some(root), ..g[i] }
            } else {
                Node { cost: UNREACHED as nat, pred: None, ..g[i] }
            },
    )
}

/// Whether an edge from `from` to `to` gives `to` a lower cost than it has.
pub open spec fn improves(from: Node, to: Node) -> bool {
    from.cost + 1 < to.cost
}

/// One relaxation: where the edge improves on the cost of its target, the target
/// takes the cost of the source plus one, and the predecessor of the source.
pub open spec fn relaxed(g: Seq<Node>, e: (FileID, FileID)) -> Seq<Node> {
    let u = node_index(g, e.0);
    let v = node_index(g, e.1);
    if improves(g[u], g[v]) {
        g.update(v, Node { cost: g[u].cost + 1, pred: g[u].pred, ..g[v] })
    } else {
        g
    }
}

/// The first `k` of `edges` relaxed in order.
pub open spec fn relaxed_along(g: Seq<Node>, edges: Seq<(FileID, FileID)>, k: nat) -> Seq<Node>
    decreases k,
{
    if k == 0 {
        g
    } else {
        relaxed(relaxed_along(g, edges, (k - 1) as nat), edges[k - 1])
    }
}

/// All of `edges` relaxed in order, `rounds` times over.
pub open spec fn relaxed_rounds(g: Seq<Node>, edges: Seq<(FileID, FileID)>, rounds: nat) -> Seq<
    Node,
>
    decreases rounds,
{
    if rounds == 0 {
        g
    } else {
        relaxed_along(relaxed_rounds(g, edges, (rounds - 1) as nat), edges, edges.len())
    }
}

/// `g` with a node for `root`, and with the costs and predecessors that the
/// relaxation of all edges, one round less than there are nodes, leaves.
pub open spec fn with_shortest_paths(g: Seq<Node>, root: FileID) -> Seq<Node> {
    let h = with_node(g, root);
    relaxed_rounds(initialised(h, root), edge_list(h), (h.len() - 1) as nat)
}

/// Whether some used node has `via` as its predecessor.
pub open spec fn justifies(g: Seq<Node>, via: FileID) -> bool {
    exists|i: int| 0 <= i < g.len() && (#[trigger] g[i]).used && g[i].pred == Some(via)
}

/// The direct successors of `root` that are the predecessor of no used node, in
/// the order in which they were inserted.
pub open spec fn unused_of(g: Seq<Node>, root: FileID) -> Seq<FileID> {
    g[node_index(g, root)].includes.filter(|via: FileID| !justifies(g, via))
}

/// A node as it is created: unused, without successors.
pub open spec fn fresh_node(id: FileID) -> Node {
    Node { id, includes: Seq::empty(), used: false, cost: 0, pred: None }
}

/// `g` with a node for `id`, appended where there was none.
pub open spec fn with_node(g: Seq<Node>, id: FileID) -> Seq<Node> {
    if has_node(g, id) {
        g
    } else {
        g.push(fresh_node(id))
    }
}

/// `g` with the edge from `from` to `to`, appended to the successors of `from`
/// where it was not among them.
pub open spec fn with_edge(g: Seq<Node>, from: FileID, to: FileID) -> Seq<Node> {
    let i = node_index(g, from);
    if g[i].includes.contains(to) {
        g
    } else {
        g.update(i, Node { includes: g[i].includes.push(to), ..g[i] })
    }
}

/// `g` with the node for `id` marked as used.
pub open spec fn with_used(g: Seq<Node>, id: FileID) -> Seq<Node> {
    let i = node_index(g, id);
    g.update(i, Node { used: true, ..g[i] })
}

/// A node that `g` has stays where it is when a node is appended.
pub proof fn lemma_with_node(g: Seq<Node>, id: FileID)
    requires
        well_formed(g),
    ensures
        well_formed(with_node(g, id)),
        has_node(with_node(g, id), id),
        forall|other: FileID| has_node(g, other) ==> has_node(with_node(g, id), other),
{
    let h = with_node(g, id);
    if !has_node(g, id) {
        assert(h[g.len() as int].id == id);
        assert forall|other: FileID| has_node(g, other) implies has_node(h, other) by {
            let i = node_index(g, other);
            assert(h[i].id == other);
        }
        assert forall|i: int, k: int|
            0 <= i < h.len() && 0 <= k < h[i].includes.len() implies has_node(
            h,
            #[trigger] h[i].includes[k],
        ) by {
            assert(i < g.len());
            assert(has_node(g, g[i].includes[k]));
        }
    }
}

/// An edge between two nodes of `g` keeps the graph well formed, and its nodes in place.
pub proof fn lemma_with_edge(g: Seq<Node>, from: FileID, to: FileID)
    requires
        well_formed(g),
        has_node(g, from),
        has_node(g, to),
    ensures
        well_formed(with_edge(g, from, to)),
        forall|other: FileID| has_node(g, other) <==> has_node(with_edge(g, from, to), other),
{
    let h = with_edge(g, from, to);
    let i = node_index(g, from);
    assert(h.len() == g.len());
    assert forall|j: int| 0 <= j < g.len() implies (#[trigger] h[j]).id == g[j].id by {}
    assert forall|other: FileID| has_node(g, other) <==> has_node(h, other) by {
        if has_node(g, other) {
            let j = node_index(g, other);
            assert(h[j].id == other);
        }
        if has_node(h, other) {
            let j = node_index(h, other);
            assert(g[j].id == other);
        }
    }
    if !g[i].includes.contains(to) {
        assert forall|j: int| 0 <= j < h.len() implies (#[trigger] h[j]).includes.no_duplicates() by {
            if j != i {
                assert(h[j] == g[j]);
            }
        }
        assert forall|j: int, k: int|
            0 <= j < h.len() && 0 <= k < h[j].includes.len() implies has_node(
            h,
            #[trigger] h[j].includes[k],
        ) by {
            if j == i && k == g[i].includes.len() {
                assert(h[j].includes[k] == to);
            } else {
                assert(h[j].includes[k] == g[j].includes[k]);
                assert(has_node(g, g[j].includes[k]));
            }
        }
    }
}

/// Marking a node of `g` keeps the graph well formed, and its nodes in place.
pub proof fn lemma_with_used(g: Seq<Node>, id: FileID)
    requires
        well_formed(g),
        has_node(g, id),
    ensures
        well_formed(with_used(g, id)),
        forall|other: FileID| has_node(g, other) <==> has_node(with_used(g, id), other),
{
    let h = with_used(g, id);
    assert(h.len() == g.len());
    assert forall|j: int| 0 <= j < g.len() implies (#[trigger] h[j]).id == g[j].id && h[j].includes
        == g[j].includes by {}
    assert forall|other: FileID| has_node(g, other) <==> has_node(h, other) by {
        if has_node(g, other) {
            let j = node_index(g, other);
            assert(h[j].id == other);
        }
        if has_node(h, other) {
            let j = node_index(h, other);
            assert(g[j].id == other);
        }
    }
    assert forall|j: int, k: int|
        0 <= j < h.len() && 0 <= k < h[j].includes.len() implies has_node(
        h,
        #[trigger] h[j].includes[k],
    ) by {
        assert(h[j].includes[k] == g[j].includes[k]);
        assert(has_node(g, g[j].includes[k]));
    }
}

/// In a graph without double nodes a node is found where it stands.
pub proof fn lemma_node_index(g: Seq<Node>, i: int)
    requires
        distinct_ids(g),
        0 <= i < g.len(),
    ensures
        node_index(g, g[i].id) == i,
        has_node(g, g[i].id),
{
    let j = node_index(g, g[i].id);
    assert(g[j].id == g[i].id);
}

/// Graphs of the same shape have the same nodes at the same places.
pub proof fn lemma_same_shape(g: Seq<Node>, h: Seq<Node>)
    requires
        same_shape(g, h),
        well_formed(g),
    ensures
        well_formed(h),
        edge_list(g) == edge_list(h),
        forall|id: FileID| has_node(g, id) == has_node(h, id),
        forall|id: FileID| has_node(g, id) ==> node_index(g, id) == node_index(h, id),
{
    assert forall|id: FileID| has_node(g, id) == has_node(h, id) by {
        if has_node(g, id) {
            let j = node_index(g, id);
            assert(h[j].id == id);
        }
        if has_node(h, id) {
            let j = node_index(h, id);
            assert(g[j].id == id);
        }
    }
    assert(distinct_ids(h)) by {
        assert forall|i: int, j: int|
            0 <= i < h.len() && 0 <= j < h.len() && (#[trigger] h[i]).id == (#[trigger] h[j]).id implies i
            == j by {
            assert(g[i].id == g[j].id);
        }
    }
    assert forall|id: FileID| has_node(g, id) implies node_index(g, id) == node_index(h, id) by {
        let j = node_index(g, id);
        assert(h[j].id == id);
        lemma_node_index(h, j);
    }
    assert forall|i: int| 0 <= i < h.len() implies (#[trigger] h[i]).includes.no_duplicates() by {
        assert(h[i].includes == g[i].includes);
    }
    assert forall|i: int, k: int|
        0 <= i < h.len() && 0 <= k < h[i].includes.len() implies has_node(
        h,
        #[trigger] h[i].includes[k],
    ) by {
        assert(h[i].includes[k] == g[i].includes[k]);
        assert(has_node(g, g[i].includes[k]));
    }
    lemma_edge_list_shape(g, h);
}

/// Graphs of the same shape have the same edges.
pub proof fn lemma_edge_list_shape(g: Seq<Node>, h: Seq<Node>)
    requires
        same_shape(g, h),
    ensures
        edge_list(g) == edge_list(h),
    decreases g.len(),
{
    if g.len() > 0 {
        lemma_edge_list_shape(g.drop_last(), h.drop_last());
        assert(h.last().id == g.last().id);
        assert(edges_of_node(g.last()) =~= edges_of_node(h.last()));
    }
}

/// Whether `edge` leaves the node at `i` for the `k`-th file that the node names.
pub open spec fn is_edge_at(g: Seq<Node>, i: int, k: int, edge: (FileID, FileID)) -> bool {
    &&& 0 <= i < g.len()
    &&& 0 <= k < g[i].includes.len()
    &&& edge == (g[i].id, g[i].includes[k])
}

/// Whether `edge` leaves a node of `g` for one of the files that the node names.
pub open spec fn is_edge(g: Seq<Node>, edge: (FileID, FileID)) -> bool {
    exists|i: int, k: int| #[trigger] is_edge_at(g, i, k, edge)
}

/// The edges of the first `n` nodes are edges of the graph.
pub proof fn lemma_edge_members(g: Seq<Node>, n: int)
    requires
        0 <= n <= g.len(),
    ensures
        forall|e: int|
            0 <= e < edge_list(g.take(n)).len() ==> is_edge(g, #[trigger] edge_list(g.take(n))[e]),
    decreases n,
{
    if n > 0 {
        lemma_edge_members(g, n - 1);
        let p = g.take(n);
        assert(p.drop_last() =~= g.take(n - 1));
        assert(p.last() == g[n - 1]);
        let before = edge_list(g.take(n - 1));
        assert forall|e: int| 0 <= e < edge_list(p).len() implies is_edge(
            g,
            #[trigger] edge_list(p)[e],
        ) by {
            if e < before.len() {
                assert(edge_list(p)[e] == before[e]);
            } else {
                let k = e - before.len();
                assert(is_edge_at(g, n - 1, k, edge_list(p)[e]));
            }
        }
    }
}

/// Every entry of the edge list is an edge, and both its ends are nodes where the
/// graph is well formed.
pub proof fn lemma_edge_ends(g: Seq<Node>)
    ensures
        forall|e: int| 0 <= e < edge_list(g).len() ==> is_edge(g, #[trigger] edge_list(g)[e]),
        well_formed(g) ==> forall|e: int|
            0 <= e < edge_list(g).len() ==> has_node(g, (#[trigger] edge_list(g)[e]).0) && has_node(
                g,
                edge_list(g)[e].1,
            ),
{
    lemma_edge_members(g, g.len() as int);
    assert(g.take(g.len() as int) =~= g);
    if well_formed(g) {
        assert forall|e: int| 0 <= e < edge_list(g).len() implies has_node(
            g,
            (#[trigger] edge_list(g)[e]).0,
        ) && has_node(g, edge_list(g)[e].1) by {
            let edge = edge_list(g)[e];
            let (i, k) = choose|i: int, k: int| #[trigger] is_edge_at(g, i, k, edge);
            lemma_node_index(g, i);
            assert(has_node(g, g[i].includes[k]));
        }
    }
}

/// `g` after the edge from `from` to `to` was inserted: with a node for `from`, a
/// node for `to`, and the edge between them.
pub open spec fn inserted(g: Seq<Node>, from: FileID, to: FileID) -> Seq<Node> {
    with_edge(with_node(with_node(g, from), to), from, to)
}

/// `g` after `id` was marked: with a node for `id`, marked as used.
pub open spec fn marked(g: Seq<Node>, id: FileID) -> Seq<Node> {
    with_used(with_node(g, id), id)
}

/// Whether `g` has the edge from `from` to `to`.
pub open spec fn has_edge(g: Seq<Node>, from: FileID, to: FileID) -> bool {
    exists|i: int| 0 <= i < g.len() && (#[trigger] g[i]).id == from && g[i].includes.contains(to)
}

/// Whether `g` has a node for `id` that is marked as used.
pub open spec fn is_marked(g: Seq<Node>, id: FileID) -> bool {
    exists|i: int| 0 <= i < g.len() && (#[trigger] g[i]).id == id && g[i].used
}

/// A new node brings no edge and no mark.
pub proof fn lemma_with_node_edges(g: Seq<Node>, id: FileID)
    ensures
        forall|u: FileID, v: FileID| has_edge(with_node(g, id), u, v) <==> has_edge(g, u, v),
        forall|u: FileID| is_marked(with_node(g, id), u) <==> is_marked(g, u),
        forall|u: FileID| has_node(with_node(g, id), u) <==> has_node(g, u) || u == id,
{
    let h = with_node(g, id);
    assert forall|u: FileID, v: FileID| has_edge(h, u, v) <==> has_edge(g, u, v) by {
        if has_edge(g, u, v) {
            let i = choose|i: int|
                0 <= i < g.len() && (#[trigger] g[i]).id == u && g[i].includes.contains(v);
            assert(h[i].id == u && h[i].includes.contains(v));
        }
        if has_edge(h, u, v) {
            let i = choose|i: int|
                0 <= i < h.len() && (#[trigger] h[i]).id == u && h[i].includes.contains(v);
            if i < g.len() {
                assert(g[i].id == u && g[i].includes.contains(v));
            } else {
                assert(h[i].includes =~= Seq::<FileID>::empty());
            }
        }
    }
    assert forall|u: FileID| is_marked(h, u) <==> is_marked(g, u) by {
        if is_marked(g, u) {
            let i = choose|i: int| 0 <= i < g.len() && (#[trigger] g[i]).id == u && g[i].used;
            assert(h[i].id == u && h[i].used);
        }
        if is_marked(h, u) {
            let i = choose|i: int| 0 <= i < h.len() && (#[trigger] h[i]).id == u && h[i].used;
            assert(g[i].id == u && g[i].used);
        }
    }
    assert forall|u: FileID| has_node(h, u) <==> has_node(g, u) || u == id by {
        if has_node(g, u) {
            let i = node_index(g, u);
            assert(h[i].id == u);
        }
        if u == id && !has_node(g, id) {
            assert(h[g.len() as int].id == id);
        }
        if has_node(h, u) {
            let i = node_index(h, u);
            if i < g.len() {
                assert(g[i].id == u);
            }
        }
    }
}

/// What an insertion changes: the graph gets the two nodes and the edge between
/// them, and nothing else; no mark changes.
pub proof fn lemma_inserted(g: Seq<Node>, from: FileID, to: FileID)
    requires
        well_formed(g),
    ensures
        well_formed(inserted(g, from, to)),
        forall|u: FileID, v: FileID|
            has_edge(inserted(g, from, to), u, v) <==> has_edge(g, u, v) || (u == from && v == to),
        forall|u: FileID| has_node(inserted(g, from, to), u) <==> has_node(g, u) || u == from || u == to,
        forall|u: FileID| is_marked(inserted(g, from, to), u) <==> is_marked(g, u),
{
    let a = with_node(g, from);
    let b = with_node(a, to);
    let h = with_edge(b, from, to);
    lemma_with_node(g, from);
    lemma_with_node(a, to);
    lemma_with_edge(b, from, to);
    lemma_with_node_edges(g, from);
    lemma_with_node_edges(a, to);
    let i = node_index(b, from);
    assert(b[i].id == from);
    assert forall|j: int| 0 <= j < b.len() implies (#[trigger] h[j]).id == b[j].id && h[j].used
        == b[j].used by {}
    assert forall|u: FileID| is_marked(h, u) <==> is_marked(b, u) by {
        if is_marked(b, u) {
            let j = choose|j: int| 0 <= j < b.len() && (#[trigger] b[j]).id == u && b[j].used;
            assert(h[j].id == u && h[j].used);
        }
        if is_marked(h, u) {
            let j = choose|j: int| 0 <= j < h.len() && (#[trigger] h[j]).id == u && h[j].used;
            assert(b[j].id == u && b[j].used);
        }
    }
    assert forall|u: FileID, v: FileID|
        has_edge(h, u, v) <==> has_edge(b, u, v) || (u == from && v == to) by {
        if has_edge(b, u, v) {
            let j = choose|j: int|
                0 <= j < b.len() && (#[trigger] b[j]).id == u && b[j].includes.contains(v);
            if j == i && !b[i].includes.contains(to) {
                let k = b[j].includes.index_of(v);
                assert(h[j].includes[k] == v);
            }
            assert(h[j].id == u && h[j].includes.contains(v));
        }
        if u == from && v == to {
            if !b[i].includes.contains(to) {
                assert(h[i].includes[b[i].includes.len() as int] == to);
            }
            assert(h[i].id == from && h[i].includes.contains(to));
        }
        if has_edge(h, u, v) {
            let j = choose|j: int|
                0 <= j < h.len() && (#[trigger] h[j]).id == u && h[j].includes.contains(v);
            if j == i && !b[i].includes.contains(to) {
                let k = h[j].includes.index_of(v);
                if k < b[i].includes.len() {
                    assert(b[i].includes[k] == v);
                }
            } else {
                assert(h[j] == b[j]);
            }
        }
    }
}

/// What a mark changes: the graph gets the node, which is marked, and nothing
/// else; no edge changes.
pub proof fn lemma_marked(g: Seq<Node>, id: FileID)
    requires
        well_formed(g),
    ensures
        well_formed(marked(g, id)),
        forall|u: FileID, v: FileID| has_edge(marked(g, id), u, v) <==> has_edge(g, u, v),
        forall|u: FileID| has_node(marked(g, id), u) <==> has_node(g, u) || u == id,
        forall|u: FileID| is_marked(marked(g, id), u) <==> is_marked(g, u) || u == id,
{
    let a = with_node(g, id);
    let h = with_used(a, id);
    lemma_with_node(g, id);
    lemma_with_used(a, id);
    lemma_with_node_edges(g, id);
    let i = node_index(a, id);
    assert(a[i].id == id);
    assert forall|j: int| 0 <= j < a.len() implies (#[trigger] h[j]).id == a[j].id
        && h[j].includes == a[j].includes by {}
    assert forall|u: FileID, v: FileID| has_edge(h, u, v) <==> has_edge(a, u, v) by {
        if has_edge(a, u, v) {
            let j = choose|j: int|
                0 <= j < a.len() && (#[trigger] a[j]).id == u && a[j].includes.contains(v);
            assert(h[j].id == u && h[j].includes.contains(v));
        }
        if has_edge(h, u, v) {
            let j = choose|j: int|
                0 <= j < h.len() && (#[trigger] h[j]).id == u && h[j].includes.contains(v);
            assert(a[j].id == u && a[j].includes.contains(v));
        }
    }
    assert forall|u: FileID| is_marked(h, u) <==> is_marked(a, u) || u == id by {
        if is_marked(a, u) {
            let j = choose|j: int| 0 <= j < a.len() && (#[trigger] a[j]).id == u && a[j].used;
            assert(h[j].id == u && h[j].used);
        }
        if u == id {
            assert(h[i].id == id && h[i].used);
        }
        if is_marked(h, u) {
            let j = choose|j: int| 0 <= j < h.len() && (#[trigger] h[j]).id == u && h[j].used;
            if j != i {
                assert(a[j].id == u && a[j].used);
            }
        }
    }
}

/// The files that `unused_of` lists are the direct successors of the root that
/// are the predecessor of no used node: every one of them, each as often as the
/// root names it.
pub proof fn lemma_unused_canonical(g: Seq<Node>, root: FileID)
    ensures
        forall|file: FileID|
            unused_of(g, root).contains(file) <==> g[node_index(g, root)].includes.contains(file)
                && !justifies(g, file),
        g[node_index(g, root)].includes.no_duplicates() ==> unused_of(g, root).no_duplicates(),
{
    let all = g[node_index(g, root)].includes;
    lemma_filtered(all, |via: FileID| !justifies(g, via));
}

/// What a filter keeps: the items that meet the condition, and no item twice
/// where none stood twice.
pub proof fn lemma_filtered(all: Seq<FileID>, keep: spec_fn(FileID) -> bool)
    ensures
        forall|file: FileID| all.filter(keep).contains(file) <==> all.contains(file) && keep(file),
        all.no_duplicates() ==> all.filter(keep).no_duplicates(),
    decreases all.len(),
{
    reveal(Seq::filter);
    if all.len() > 0 {
        let before = all.drop_last();
        let last = all.last();
        lemma_filtered(before, keep);
        let kept = before.filter(keep);
        assert forall|file: FileID| all.filter(keep).contains(file) <==> all.contains(file) && keep(
            file,
        ) by {
            if all.contains(file) {
                let k = all.index_of(file);
                if k < before.len() {
                    assert(before[k] == file);
                }
            }
            if before.contains(file) {
                let k = before.index_of(file);
                assert(all[k] == file);
            }
            if keep(last) {
                assert(all.filter(keep) == kept.push(last));
                if kept.contains(file) {
                    let k = kept.index_of(file);
                    assert(kept.push(last)[k] == file);
                }
                if file == last {
                    assert(kept.push(last)[kept.len() as int] == last);
                    assert(all[all.len() - 1] == last);
                }
                if kept.push(last).contains(file) {
                    let k = kept.push(last).index_of(file);
                    if k < kept.len() {
                        assert(kept[k] == file);
                    }
                }
            } else {
                assert(all[all.len() - 1] == last);
            }
        }
        if all.no_duplicates() {
            assert(before.no_duplicates());
            if keep(last) {
                if kept.contains(last) {
                    assert(before.contains(last));
                    let k = before.index_of(last);
                    assert(before[k] == last);
                    assert(all[k] == last);
                    assert(all[all.len() - 1] == last);
                }
                let now = kept.push(last);
                assert forall|i: int, j: int|
                    0 <= i < now.len() && 0 <= j < now.len() && i != j implies now[i] != now[j] by {
                    if i < kept.len() && j < kept.len() {
                    } else if i < kept.len() {
                        assert(kept.contains(kept[i]));
                    } else if j < kept.len() {
                        assert(kept.contains(kept[j]));
                    }
                }
            }
        }
    }
}

/// Whether two identities are the same.
pub fn same_file(a: &FileID, b: &FileID) -> (r: bool)
    ensures
        r == (*a == *b),
{
    a.0 == b.0 && a.1 == b.1 && a.2 == b.2
}

/// Whether `id` occurs in `list`.
pub fn list_contains(list: &Vec<FileID>, id: &FileID) -> (r: bool)
    ensures
        r == list@.contains(*id),
{
    let mut k: usize = 0;
    while k < list.len()
        invariant
            k <= list.len(),
            forall|j: int| 0 <= j < k ==> list@[j] != *id,
        decreases list.len() - k,
    {
        if same_file(&list[k], id) {
            return true;
        }
        k += 1;
    }
    false
}

impl IncludeEntry {
    /// A node for `id` that names no file.
    pub fn new(id: FileID) -> (entry: IncludeEntry)
        ensures
            entry@ == fresh_node(id),
    {
        IncludeEntry { id, includes: Vec::new(), used: false, costs: 0, pred: None }
    }

    /// A node for `id` that names `to`.
    pub fn new_with(id: FileID, to: FileID) -> (entry: IncludeEntry)
        ensures
            entry@ == (Node { includes: seq![to], ..fresh_node(id) }),
    {
        let mut includes = Vec::new();
        includes.push(to);
        IncludeEntry { id, includes, used: false, costs: 0, pred: None }
    }
}

/// The files of one translation unit and the directives between them.
#[derive(Debug)]
pub struct IncludeGraph {
    nodes: Vec<IncludeEntry>,
}

impl View for IncludeGraph {
    type V = Seq<Node>;

    closed spec fn view(&self) -> Seq<Node> {
        self.nodes@.map_values(|e: IncludeEntry| e@)
    }
}

impl IncludeGraph {
    /// The invariant of the graph.
    pub open spec fn wf(&self) -> bool {
        well_formed(self@)
    }

    /// The empty graph.
    pub fn new() -> (graph: IncludeGraph)
        ensures
            graph@ == Seq::<Node>::empty(),
            graph.wf(),
    {
        let graph = IncludeGraph { nodes: Vec::new() };
        assert(graph@ =~= Seq::<Node>::empty());
        graph
    }

    /// The number of files.
    pub fn len(&self) -> (n: usize)
        ensures
            n == self@.len(),
    {
        self.nodes.len()
    }

    /// The position of the node for `id`.
    pub fn find(&self, id: &FileID) -> (r: Option<usize>)
        ensures
            match r {
                Some(i) => i < self@.len() && self@[i as int].id == *id,
                None => !has_node(self@, *id),
            },
            self.wf() && r is Some ==> r->Some_0 == node_index(self@, *id),
    {
        let mut i: usize = 0;
        while i < self.nodes.len()
            invariant
                i <= self.nodes.len(),
                forall|j: int| 0 <= j < i ==> (#[trigger] self@[j]).id != *id,
            decreases self.nodes.len() - i,
        {
            if same_file(&self.nodes[i].id, id) {
                return Some(i);
            }
            i += 1;
        }
        None
    }

    /// Adds the node for `id` where it has none, and gives its position.
    fn ensure_node(&mut self, id: FileID) -> (i: usize)
        requires
            old(self).wf(),
        ensures
            final(self)@ == with_node(old(self)@, id),
            final(self).wf(),
            i < final(self)@.len(),
            i == node_index(final(self)@, id),
            final(self)@[i as int].id == id,
    {
        proof {
            lemma_with_node(self@, id);
        }
        match self.find(&id) {
            Some(i) => i,
            None => {
                let i = self.nodes.len();
                self.nodes.push(IncludeEntry::new(id));
                assert(self@ =~= old(self)@.push(fresh_node(id)));
                assert(self@[i as int].id == id);
                i
            },
        }
    }

    /// Adds the edge from `from` to `to`, and the nodes of both where they are
    /// missing: first the node of `from`, then that of `to`, each behind the nodes
    /// that are there, and `to` behind the files that `from` names already.
    pub fn insert(&mut self, from: FileID, to: FileID)
        requires
            old(self).wf(),
        ensures
            final(self)@ == inserted(old(self)@, from, to),
            final(self).wf(),
            forall|u: FileID, v: FileID|
                has_edge(final(self)@, u, v) <==> has_edge(old(self)@, u, v) || (u == from && v
                    == to),
            forall|u: FileID|
                has_node(final(self)@, u) <==> has_node(old(self)@, u) || u == from || u == to,
            forall|u: FileID| is_marked(final(self)@, u) <==> is_marked(old(self)@, u),
    {
        proof {
            lemma_inserted(old(self)@, from, to);
            lemma_with_node(old(self)@, from);
            lemma_with_node(with_node(old(self)@, from), to);
            lemma_with_node_edges(old(self)@, from);
        }
        match self.find(&from) {
            Some(i) => {
                let _ = self.ensure_node(to);
                let ghost g = self@;
                proof {
                    lemma_with_edge(g, from, to);
                    lemma_node_index(g, i as int);
                }
                if !list_contains(&self.nodes[i].includes, &to) {
                    self.nodes[i].includes.push(to);
                    assert(self@ =~= g.update(
                        i as int,
                        Node { includes: g[i as int].includes.push(to), ..g[i as int] },
                    ));
                }
            },
            None => {
                // A new source comes with its first successor.
                let known = match self.find(&to) {
                    Some(k) => {
                        assert(self@[k as int].id == to);
                        true
                    },
                    None => same_file(&from, &to),
                };
                let ghost g = old(self)@;
                assert(known == (has_node(g, to) || to == from));
                let ghost at = g.len() as int;
                let ghost both = with_node(with_node(g, from), to);
                self.nodes.push(IncludeEntry::new_with(from, to));
                if !known {
                    self.nodes.push(IncludeEntry::new(to));
                }
                proof {
                    assert(with_node(g, from) =~= g.push(fresh_node(from)));
                    assert(has_node(with_node(g, from), to) == known);
                    assert(both[at].id == from);
                    lemma_node_index(both, at);
                    assert(both[at].includes =~= Seq::<FileID>::empty());
                    assert(both[at].includes.push(to) =~= seq![to]);
                    assert(self@ =~= inserted(g, from, to));
                }
            },
        }
    }

    /// Marks the file as one that the root refers to, adding its node where it is missing.
    pub fn mark_used(&mut self, key: &FileID)
        requires
            old(self).wf(),
        ensures
            final(self)@ == marked(old(self)@, *key),
            final(self).wf(),
            forall|u: FileID, v: FileID| has_edge(final(self)@, u, v) <==> has_edge(old(self)@, u, v),
            forall|u: FileID| has_node(final(self)@, u) <==> has_node(old(self)@, u) || u == *key,
            forall|u: FileID| is_marked(final(self)@, u) <==> is_marked(old(self)@, u) || u == *key,
    {
        proof {
            lemma_marked(old(self)@, *key);
        }
        let i = self.ensure_node(*key);
        let ghost g = self@;
        proof {
            lemma_with_used(g, *key);
        }
        self.nodes[i].used = true;
        assert(self@ =~= g.update(i as int, Node { used: true, ..g[i as int] }));
    }

    /// Gives the node at `i` a cost and a predecessor.
    fn set_label(&mut self, i: usize, costs: usize, pred: Option<FileID>)
        requires
            i < old(self)@.len(),
        ensures
            final(self)@ == old(self)@.update(
                i as int,
                Node { cost: costs as nat, pred, ..old(self)@[i as int] },
            ),
    {
        self.nodes[i].costs = costs;
        self.nodes[i].pred = pred;
        assert(self@ =~= old(self)@.update(
            i as int,
            Node { cost: costs as nat, pred, ..old(self)@[i as int] },
        ));
    }

    /// The cost of the node at `i`.
    fn cost_at(&self, i: usize) -> (costs: usize)
        requires
            i < self@.len(),
        ensures
            costs == self@[i as int].cost,
    {
        self.nodes[i].costs
    }

    /// The predecessor of the node at `i`.
    fn pred_at(&self, i: usize) -> (pred: Option<FileID>)
        requires
            i < self@.len(),
        ensures
            pred == self@[i as int].pred,
    {
        self.nodes[i].pred
    }

    /// The files that the node at `i` names.
    fn includes_at(&self, i: usize) -> (list: &Vec<FileID>)
        requires
            i < self@.len(),
        ensures
            list@ == self@[i as int].includes,
    {
        &self.nodes[i].includes
    }

    /// The edges, node by node, each as the pair of its two files.
    pub fn edges(&self) -> (edges: Vec<(FileID, FileID)>)
        ensures
            edges@ == edge_list(self@),
    {
        let mut edges: Vec<(FileID, FileID)> = Vec::new();
        let mut i: usize = 0;
        assert(self@.take(0) =~= Seq::<Node>::empty());
        while i < self.nodes.len()
            invariant
                i <= self.nodes.len(),
                edges@ == edge_list(self@.take(i as int)),
            decreases self.nodes.len() - i,
        {
            let ghost before = edges@;
            let mut k: usize = 0;
            while k < self.nodes[i].includes.len()
                invariant
                    i < self.nodes.len(),
                    k <= self.nodes[i as int].includes.len(),
                    edges@ == before + edges_of_node(self@[i as int]).take(k as int),
                decreases self.nodes[i as int].includes.len() - k,
            {
                edges.push((self.nodes[i].id, self.nodes[i].includes[k]));
                assert(edges_of_node(self@[i as int]).take(k + 1) =~= edges_of_node(
                    self@[i as int],
                ).take(k as int).push((self@[i as int].id, self@[i as int].includes[k as int])));
                k += 1;
            }
            proof {
                let p = self@.take(i + 1);
                assert(p.drop_last() =~= self@.take(i as int));
                assert(p.last() == self@[i as int]);
                assert(edges_of_node(self@[i as int]).take(k as int) =~= edges_of_node(
                    self@[i as int],
                ));
            }
            i += 1;
        }
        assert(self@.take(i as int) =~= self@);
        edges
    }

    /// The positions of the nodes at the two ends of each edge.
    fn positions(&self, edges: &Vec<(FileID, FileID)>) -> (links: Vec<(usize, usize)>)
        requires
            self.wf(),
            edges@ == edge_list(self@),
        ensures
            links@.len() == edges@.len(),
            forall|e: int|
                0 <= e < links@.len() ==> (#[trigger] links@[e]).0 == node_index(
                    self@,
                    edges@[e].0,
                ) && links@[e].1 == node_index(self@, edges@[e].1) && links@[e].0 < self@.len()
                    && links@[e].1 < self@.len(),
    {
        let mut links: Vec<(usize, usize)> = Vec::new();
        let mut e: usize = 0;
        proof {
            lemma_edge_ends(self@);
        }
        while e < edges.len()
            invariant
                e <= edges@.len(),
                links@.len() == e,
                self.wf(),
                edges@ == edge_list(self@),
                forall|e: int|
                    0 <= e < edge_list(self@).len() ==> has_node(
                        self@,
                        (#[trigger] edge_list(self@)[e]).0,
                    ) && has_node(self@, edge_list(self@)[e].1),
                forall|d: int|
                    0 <= d < links@.len() ==> (#[trigger] links@[d]).0 == node_index(
                        self@,
                        edges@[d].0,
                    ) && links@[d].1 == node_index(self@, edges@[d].1) && links@[d].0 < self@.len()
                        && links@[d].1 < self@.len(),
            decreases edges@.len() - e,
        {
            let u = match self.find(&edges[e].0) {
                Some(u) => u,
                None => 0,
            };
            let v = match self.find(&edges[e].1) {
                Some(v) => v,
                None => 0,
            };
            assert(has_node(self@, edge_list(self@)[e as int].0));
            links.push((u, v));
            e += 1;
        }
        links
    }

    /// Computes for every node its cost, the length of the shortest path from
    /// `start`, and its predecessor, the direct successor of `start` through which
    /// that path was found. Adds the node for `start` where it is missing.
    ///
    /// The result is that of the relaxation of all edges in their order, one round
    /// less than there are nodes, which settles which of two paths of the same
    /// length gives the predecessor. Every label is then the one that a path from
    /// `start` gives, and no path from `start` is shorter than the cost of the node
    /// in which it ends.
    pub fn shortest_paths(&mut self, start: &FileID)
        requires
            old(self).wf(),
        ensures
            final(self)@ == with_shortest_paths(old(self)@, *start),
            final(self).wf(),
            labels_ok(with_node(old(self)@, *start), *start, final(self)@),
            forall|path: Seq<FileID>| #[trigger]
                leads(with_node(old(self)@, *start), *start, path) ==> final(self)@[node_index(
                    with_node(old(self)@, *start),
                    path.last(),
                )].cost <= path.len(),
    {
        proof {
            lemma_shortest_paths(old(self)@, *start);
        }
        let r = self.ensure_node(*start);
        let ghost g = self@;
        let n = self.nodes.len();
        let edges = self.edges();
        let links = self.positions(&edges);
        proof {
            lemma_edge_ends(g);
        }

        let mut i: usize = 0;
        while i < n
            invariant
                i <= n,
                n == self@.len(),
                same_shape(g, self@),
                forall|j: int|
                    0 <= j < i ==> (#[trigger] self@[j]).cost == UNREACHED && self@[j].pred
                        is None,
            decreases n - i,
        {
            self.set_label(i, UNREACHED, None);
            i += 1;
        }

        self.set_label(r, 0, Some(*start));

        let count = self.includes_at(r).len();
        let mut k: usize = 0;
        while k < count
            invariant
                r < n,
                n == self@.len(),
                well_formed(g),
                r == node_index(g, *start),
                same_shape(g, self@),
                count == g[r as int].includes.len(),
                k <= count,
                forall|j: int|
                    0 <= j < n ==> #[trigger] self@[j] == if g[r as int].includes.take(
                        k as int,
                    ).contains(g[j].id) {
                        Node { cost: 1, pred: Some(g[j].id), ..g[j] }
                    } else if j == r {
                        Node { cost: 0, pred: Some(*start), ..g[j] }
                    } else {
                        Node { cost: UNREACHED as nat, pred: None, ..g[j] }
                    },
            decreases count - k,
        {
            let to = self.includes_at(r)[k];
            let ghost before = self@;
            let ghost done = g[r as int].includes.take(k as int);
            let ghost next = g[r as int].includes.take(k + 1);
            proof {
                assert(to == g[r as int].includes[k as int]);
                assert(has_node(g, to));
                lemma_same_shape(g, self@);
                assert(next =~= done.push(to));
                assert forall|id: FileID| next.contains(id) <==> done.contains(id) || id == to by {
                    if done.contains(id) {
                        let m = done.index_of(id);
                        assert(next[m] == id);
                    }
                    if id == to {
                        assert(next[k as int] == to);
                    }
                }
            }
            let v = match self.find(&to) {
                Some(v) => v,
                None => 0,
            };
            self.set_label(v, 1, Some(to));
            proof {
                assert forall|j: int| 0 <= j < n implies #[trigger] self@[j] == if next.contains(
                    g[j].id,
                ) {
                    Node { cost: 1, pred: Some(g[j].id), ..g[j] }
                } else if j == r {
                    Node { cost: 0, pred: Some(*start), ..g[j] }
                } else {
                    Node { cost: UNREACHED as nat, pred: None, ..g[j] }
                } by {
                    if j == v {
                        assert(g[j].id == to);
                    } else {
                        assert(self@[j] == before[j]);
                        assert(g[j].id != to);
                    }
                }
            }
            k += 1;
        }
        proof {
            assert(g[r as int].includes.take(k as int) =~= g[r as int].includes);
            assert(self@ =~= initialised(g, *start));
        }

        let ghost list = edge_list(g);
        let mut round: usize = 1;
        while round < n
            invariant
                1 <= round <= n,
                n == self@.len(),
                n == g.len(),
                well_formed(g),
                same_shape(g, self@),
                list == edge_list(g),
                edges@ == list,
                links@.len() == list.len(),
                forall|e: int|
                    0 <= e < list.len() ==> has_node(g, (#[trigger] list[e]).0) && has_node(
                        g,
                        list[e].1,
                    ),
                forall|e: int|
                    0 <= e < links@.len() ==> (#[trigger] links@[e]).0 == node_index(g, list[e].0)
                        && links@[e].1 == node_index(g, list[e].1) && links@[e].0 < n
                        && links@[e].1 < n,
                forall|j: int| 0 <= j < n ==> (#[trigger] self@[j]).cost <= UNREACHED,
                self@ == relaxed_rounds(initialised(g, *start), list, (round - 1) as nat),
            decreases n - round,
        {
            let ghost at_start = self@;
            let mut e: usize = 0;
            while e < links.len()
                invariant
                    e <= links@.len(),
                    n == self@.len(),
                    n == g.len(),
                    well_formed(g),
                    same_shape(g, self@),
                    links@.len() == list.len(),
                    forall|e: int|
                        0 <= e < list.len() ==> has_node(g, (#[trigger] list[e]).0) && has_node(
                            g,
                            list[e].1,
                        ),
                    forall|e: int|
                        0 <= e < links@.len() ==> (#[trigger] links@[e]).0 == node_index(
                            g,
                            list[e].0,
                        ) && links@[e].1 == node_index(g, list[e].1) && links@[e].0 < n
                            && links@[e].1 < n,
                    forall|j: int| 0 <= j < n ==> (#[trigger] self@[j]).cost <= UNREACHED,
                    self@ == relaxed_along(at_start, list, e as nat),
                decreases links@.len() - e,
            {
                let u = links[e].0;
                let v = links[e].1;
                let ghost before = self@;
                proof {
                    lemma_same_shape(g, before);
                    assert(has_node(g, list[e as int].0));
                    assert(u == node_index(before, list[e as int].0));
                    assert(v == node_index(before, list[e as int].1));
                }
                let cost = self.cost_at(u);
                let pred = self.pred_at(u);
                if cost + 1 < self.cost_at(v) {
                    self.set_label(v, cost + 1, pred);
                }
                proof {
                    assert(self@ =~= relaxed(before, list[e as int]));
                }
                e += 1;
            }
            round += 1;
        }
        proof {
            lemma_same_shape(g, self@);
        }
    }

    /// The cost of `id`: the length of the shortest path that the last call of
    /// [`IncludeGraph::shortest_paths`] found to it, `None` where it found none
    /// or the graph has no such node.
    pub fn cost(&self, id: &FileID) -> (r: Option<usize>)
        requires
            self.wf(),
        ensures
            r == if has_node(self@, *id) && self@[node_index(self@, *id)].cost < UNREACHED {
                Some(self@[node_index(self@, *id)].cost as usize)
            } else {
                None
            },
    {
        match self.find(id) {
            Some(i) => {
                let costs = self.cost_at(i);
                if costs < UNREACHED {
                    Some(costs)
                } else {
                    None
                }
            },
            None => None,
        }
    }

    /// The predecessor of `id`: the direct successor of the root through which
    /// the shortest path to it leads, `None` where there is none or the graph
    /// has no such node.
    pub fn pred(&self, id: &FileID) -> (r: Option<FileID>)
        requires
            self.wf(),
        ensures
            r == if has_node(self@, *id) {
                self@[node_index(self@, *id)].pred
            } else {
                None
            },
    {
        match self.find(id) {
            Some(i) => self.pred_at(i),
            None => None,
        }
    }

    /// Whether the file is marked as used.
    pub fn is_used(&self, id: &FileID) -> (r: bool)
        requires
            self.wf(),
        ensures
            r == (has_node(self@, *id) && self@[node_index(self@, *id)].used),
    {
        match self.find(id) {
            Some(i) => {
                assert(self@[i as int].used == self.nodes@[i as int].used);
                self.nodes[i].used
            },
            None => false,
        }
    }

    /// Whether some used node has `via` as its predecessor.
    pub fn is_justified(&self, via: &FileID) -> (r: bool)
        ensures
            r == justifies(self@, *via),
    {
        let mut i: usize = 0;
        while i < self.nodes.len()
            invariant
                i <= self.nodes.len(),
                forall|j: int|
                    0 <= j < i ==> !((#[trigger] self@[j]).used && self@[j].pred == Some(*via)),
            decreases self.nodes.len() - i,
        {
            if self.nodes[i].used {
                match &self.nodes[i].pred {
                    Some(p) => {
                        if same_file(p, via) {
                            assert(self@[i as int].used && self@[i as int].pred == Some(*via));
                            return true;
                        }
                    },
                    None => {},
                }
            }
            i += 1;
        }
        false
    }

    /// The direct successors of `main` that no used file was reached through: the
    /// directives of `main` that can go. Computes the shortest paths from `main`
    /// first, which changes the costs and predecessors of the graph.
    pub fn unused(&mut self, main: &FileID) -> (result: Vec<FileID>)
        requires
            old(self).wf(),
        ensures
            final(self)@ == with_shortest_paths(old(self)@, *main),
            final(self).wf(),
            result@ == unused_of(final(self)@, *main),
            result@.no_duplicates(),
            forall|k: int|
                0 <= k < result@.len() ==> has_edge(final(self)@, *main, #[trigger] result@[k])
                    && !justifies(final(self)@, result@[k]),
    {
        self.shortest_paths(main);
        proof {
            lemma_with_node(old(self)@, *main);
            lemma_same_shape(with_node(old(self)@, *main), self@);
            lemma_unused_canonical(self@, *main);
            let at = node_index(self@, *main);
            assert(self@[at].id == *main);
            assert forall|k: int| 0 <= k < unused_of(self@, *main).len() implies has_edge(
                self@,
                *main,
                #[trigger] unused_of(self@, *main)[k],
            ) && !justifies(self@, unused_of(self@, *main)[k]) by {
                assert(unused_of(self@, *main).contains(unused_of(self@, *main)[k]));
            }
        }
        let r = match self.find(main) {
            Some(r) => r,
            None => 0,
        };
        let ghost g = self@;
        let ghost keep = |via: FileID| !justifies(g, via);
        let mut result: Vec<FileID> = Vec::new();
        let mut k: usize = 0;
        assert(g[r as int].includes.take(0) =~= Seq::<FileID>::empty());
        proof {
            reveal(Seq::filter);
        }
        let count = self.includes_at(r).len();
        while k < count
            invariant
                r < self@.len(),
                g == self@,
                keep == |via: FileID| !justifies(g, via),
                count == g[r as int].includes.len(),
                k <= count,
                result@ == g[r as int].includes.take(k as int).filter(keep),
            decreases count - k,
        {
            let via = self.includes_at(r)[k];
            proof {
                reveal(Seq::filter);
                let next = g[r as int].includes.take(k + 1);
                assert(next.drop_last() =~= g[r as int].includes.take(k as int));
                assert(next.last() == via);
            }
            if !self.is_justified(&via) {
                result.push(via);
            }
            k += 1;
        }
        assert(g[r as int].includes.take(k as int) =~= g[r as int].includes);
        result
    }
}

} // verus!
