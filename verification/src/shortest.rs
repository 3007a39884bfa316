//! What the costs and predecessors of the graph mean: the cost of a file is the
//! length of its shortest path from the root, and its predecessor is the direct
//! successor of the root at which such a path starts.

use crate::includes::{
    edge_list, edges_of_node, has_edge, has_node, improves, initialised, is_edge, is_edge_at,
    lemma_edge_ends, lemma_node_index, lemma_same_shape, lemma_with_node, node_index, relaxed,
    relaxed_along, relaxed_rounds, same_shape, well_formed, with_node, with_shortest_paths, FileID,
    Node, UNREACHED,
};
use vstd::prelude::*;
use vstd::set_lib::{lemma_int_range, lemma_len_subset, set_int_range};

verus! {

/// Whether the graph has the edge from the file at `i` of the path to the next.
pub open spec fn is_step(g: Seq<Node>, path: Seq<FileID>, i: int) -> bool {
    has_edge(g, path[i], path[i + 1])
}

/// Whether `path` is a path of the graph: it holds a file, and an edge leads
/// from each of its files to the next.
pub open spec fn is_path(g: Seq<Node>, path: Seq<FileID>) -> bool {
    &&& path.len() >= 1
    &&& forall|i: int| 0 <= i < path.len() - 1 ==> #[trigger] is_step(g, path, i)
}

/// Whether `path` is a path that starts at a direct successor of `root`: with
/// the edge from the root in front, it is a path from the root that has as many
/// edges as `path` has files.
pub open spec fn leads(g: Seq<Node>, root: FileID, path: Seq<FileID>) -> bool {
    is_path(g, path) && has_edge(g, root, path[0])
}

/// Whether `path` shows that the label is right: it leads from the root to the
/// file of the label, has as many files as the cost says, and starts at the
/// predecessor.
pub open spec fn certifies(g: Seq<Node>, root: FileID, path: Seq<FileID>, label: Node) -> bool {
    &&& leads(g, root, path)
    &&& path.last() == label.id
    &&& path.len() == label.cost
    &&& label.pred == Some(path[0])
}

/// Whether the cost and the predecessor of a node are what a path from the root
/// gives: a direct successor of the root has cost 1 and itself as predecessor;
/// a root that is none has cost 0 and itself as predecessor; any other node is
/// unreached, or some path from the root ends in it that has the length of its
/// cost and leaves the root through its predecessor.
pub open spec fn label_ok(g: Seq<Node>, root: FileID, label: Node) -> bool {
    if has_edge(g, root, label.id) {
        label.cost == 1 && label.pred == Some(label.id)
    } else if label.id == root {
        label.cost == 0 && label.pred == Some(root)
    } else {
        ||| label.cost == UNREACHED && label.pred is None
        ||| 2 <= label.cost < UNREACHED && exists|path: Seq<FileID>| #[trigger]
            certifies(g, root, path, label)
    }
}

/// Whether `t` is `g` with costs and predecessors that paths from the root give.
pub open spec fn labels_ok(g: Seq<Node>, root: FileID, t: Seq<Node>) -> bool {
    &&& same_shape(g, t)
    &&& forall|i: int| 0 <= i < t.len() ==> label_ok(g, root, #[trigger] t[i])
}

/// Whether each of `edges` is an edge of the graph.
pub open spec fn edges_ok(g: Seq<Node>, edges: Seq<(FileID, FileID)>) -> bool {
    forall|e: int| 0 <= e < edges.len() ==> has_edge(g, (#[trigger] edges[e]).0, edges[e].1)
}

/// Whether no path of at most `k` files that leads from the root to a file is
/// shorter than the cost of the file.
pub open spec fn covered(g: Seq<Node>, root: FileID, t: Seq<Node>, k: nat) -> bool {
    forall|path: Seq<FileID>| #[trigger]
        leads(g, root, path) && path.len() <= k ==> t[node_index(g, path.last())].cost
            <= path.len()
}

/// Whether no node of `t` costs more than it does in `s`.
pub open spec fn no_dearer(s: Seq<Node>, t: Seq<Node>) -> bool {
    &&& s.len() == t.len()
    &&& forall|i: int| 0 <= i < s.len() ==> (#[trigger] t[i]).cost <= s[i].cost
}

/// The ends of an edge are nodes.
pub proof fn lemma_edge_nodes(g: Seq<Node>, from: FileID, to: FileID)
    requires
        well_formed(g),
        has_edge(g, from, to),
    ensures
        has_node(g, from),
        has_node(g, to),
        g[node_index(g, from)].id == from,
        g[node_index(g, to)].id == to,
        0 <= node_index(g, from) < g.len(),
        0 <= node_index(g, to) < g.len(),
{
    let i = choose|i: int|
        0 <= i < g.len() && (#[trigger] g[i]).id == from && g[i].includes.contains(to);
    let k = g[i].includes.index_of(to);
    assert(has_node(g, g[i].includes[k]));
}

/// Every file of a path that leads from the root is a node.
pub proof fn lemma_path_nodes(g: Seq<Node>, root: FileID, path: Seq<FileID>, i: int)
    requires
        well_formed(g),
        leads(g, root, path),
        0 <= i < path.len(),
    ensures
        has_node(g, path[i]),
        0 <= node_index(g, path[i]) < g.len(),
        g[node_index(g, path[i])].id == path[i],
{
    if i == 0 {
        lemma_edge_nodes(g, root, path[0]);
    } else {
        assert(is_step(g, path, i - 1));
        lemma_edge_nodes(g, path[i - 1], path[i]);
    }
}

/// Every edge of the graph stands in its list of edges.
pub proof fn lemma_edge_listed(g: Seq<Node>, i: int, k: int)
    requires
        0 <= i < g.len(),
        0 <= k < g[i].includes.len(),
    ensures
        edge_list(g).contains((g[i].id, g[i].includes[k])),
    decreases g.len(),
{
    let before = edge_list(g.drop_last());
    let last = edges_of_node(g.last());
    if i == g.len() - 1 {
        assert(last[k] == (g[i].id, g[i].includes[k]));
        assert(edge_list(g)[before.len() + k] == last[k]);
    } else {
        lemma_edge_listed(g.drop_last(), i, k);
        let e = before.index_of((g[i].id, g[i].includes[k]));
        assert(edge_list(g)[e] == before[e]);
    }
}

/// The list of the edges of a graph holds its edges, and nothing else.
pub proof fn lemma_edge_list(g: Seq<Node>)
    requires
        well_formed(g),
    ensures
        edges_ok(g, edge_list(g)),
        forall|from: FileID, to: FileID|
            has_edge(g, from, to) ==> edge_list(g).contains((from, to)),
{
    lemma_edge_ends(g);
    assert forall|e: int| 0 <= e < edge_list(g).len() implies has_edge(
        g,
        (#[trigger] edge_list(g)[e]).0,
        edge_list(g)[e].1,
    ) by {
        let edge = edge_list(g)[e];
        assert(is_edge(g, edge));
        let (i, k) = choose|i: int, k: int| #[trigger] is_edge_at(g, i, k, edge);
        assert(g[i].id == edge.0 && g[i].includes.contains(edge.1));
    }
    assert forall|from: FileID, to: FileID| has_edge(g, from, to) implies edge_list(g).contains(
        (from, to),
    ) by {
        let i = choose|i: int|
            0 <= i < g.len() && (#[trigger] g[i]).id == from && g[i].includes.contains(to);
        let k = g[i].includes.index_of(to);
        lemma_edge_listed(g, i, k);
    }
}

/// The state from which the relaxation starts gives every node a right label,
/// and no path of one file is shorter than a cost.
pub proof fn lemma_initial(g: Seq<Node>, root: FileID)
    requires
        well_formed(g),
        has_node(g, root),
    ensures
        labels_ok(g, root, initialised(g, root)),
        covered(g, root, initialised(g, root), 1),
{
    let t = initialised(g, root);
    let r = node_index(g, root);
    assert(g[r].id == root);
    assert forall|i: int| 0 <= i < t.len() implies label_ok(g, root, #[trigger] t[i]) by {
        lemma_node_index(g, i);
        if has_edge(g, root, g[i].id) {
            let j = choose|j: int|
                0 <= j < g.len() && (#[trigger] g[j]).id == root && g[j].includes.contains(
                    g[i].id,
                );
            assert(j == r);
        } else {
            if g[r].includes.contains(g[i].id) {
                assert(has_edge(g, root, g[i].id));
            }
            if g[i].id == root {
                assert(i == r);
            }
        }
    }
    assert forall|path: Seq<FileID>| #[trigger]
        leads(g, root, path) && path.len() <= 1 implies t[node_index(g, path.last())].cost
        <= path.len() by {
        lemma_path_nodes(g, root, path, 0);
        let i = node_index(g, path[0]);
        assert(label_ok(g, root, t[i]));
    }
}

/// One relaxation keeps the labels right, makes no node dearer, and leaves the
/// target of its edge at most one dearer than the source.
pub proof fn lemma_relaxed(g: Seq<Node>, root: FileID, t: Seq<Node>, e: (FileID, FileID))
    requires
        well_formed(g),
        labels_ok(g, root, t),
        has_edge(g, e.0, e.1),
    ensures
        labels_ok(g, root, relaxed(t, e)),
        no_dearer(t, relaxed(t, e)),
        relaxed(t, e)[node_index(g, e.1)].cost <= t[node_index(g, e.0)].cost + 1,
{
    lemma_edge_nodes(g, e.0, e.1);
    lemma_same_shape(g, t);
    let u = node_index(g, e.0);
    let v = node_index(g, e.1);
    assert(u == node_index(t, e.0));
    assert(v == node_index(t, e.1));
    let s = relaxed(t, e);
    assert(label_ok(g, root, t[u]));
    assert(label_ok(g, root, t[v]));
    assert(t[u].id == e.0 && t[v].id == e.1);
    if improves(t[u], t[v]) {
        let label = s[v];
        assert(label.id == e.1);
        if has_edge(g, root, e.0) {
            let path = seq![e.0, e.1];
            assert forall|i: int| 0 <= i < path.len() - 1 implies #[trigger] is_step(
                g,
                path,
                i,
            ) by {}
            assert(certifies(g, root, path, label));
        } else if e.0 == root {
            assert(has_edge(g, root, e.1));
        } else {
            let before = choose|path: Seq<FileID>| #[trigger] certifies(g, root, path, t[u]);
            let path = before.push(e.1);
            assert forall|i: int| 0 <= i < path.len() - 1 implies #[trigger] is_step(
                g,
                path,
                i,
            ) by {
                if i < before.len() - 1 {
                    assert(is_step(g, before, i));
                }
            }
            assert(path[0] == before[0]);
            assert(certifies(g, root, path, label));
        }
        assert(label_ok(g, root, label));
        assert forall|i: int| 0 <= i < s.len() implies label_ok(g, root, #[trigger] s[i]) by {
            if i != v {
                assert(s[i] == t[i]);
            }
        }
    }
}

/// The relaxation of some edges keeps the labels right and makes no node dearer.
pub proof fn lemma_along(
    g: Seq<Node>,
    root: FileID,
    t: Seq<Node>,
    edges: Seq<(FileID, FileID)>,
    from: nat,
    to: nat,
)
    requires
        well_formed(g),
        labels_ok(g, root, t),
        edges_ok(g, edges),
        from <= to <= edges.len(),
    ensures
        labels_ok(g, root, relaxed_along(t, edges, to)),
        no_dearer(relaxed_along(t, edges, from), relaxed_along(t, edges, to)),
        no_dearer(t, relaxed_along(t, edges, to)),
    decreases to,
{
    if to > 0 {
        let j = (to - 1) as nat;
        lemma_along(g, root, t, edges, if from <= j {
            from
        } else {
            j
        }, j);
        lemma_relaxed(g, root, relaxed_along(t, edges, j), edges[j as int]);
    }
}

/// One round over all edges lengthens the paths that are covered by one file.
pub proof fn lemma_round(
    g: Seq<Node>,
    root: FileID,
    t: Seq<Node>,
    edges: Seq<(FileID, FileID)>,
    k: nat,
)
    requires
        well_formed(g),
        labels_ok(g, root, t),
        edges_ok(g, edges),
        forall|from: FileID, to: FileID| has_edge(g, from, to) ==> edges.contains((from, to)),
        covered(g, root, t, k),
        k >= 1,
    ensures
        labels_ok(g, root, relaxed_along(t, edges, edges.len())),
        covered(g, root, relaxed_along(t, edges, edges.len()), k + 1),
        no_dearer(t, relaxed_along(t, edges, edges.len())),
{
    let end = relaxed_along(t, edges, edges.len());
    lemma_along(g, root, t, edges, 0, edges.len());
    assert forall|path: Seq<FileID>| #[trigger]
        leads(g, root, path) && path.len() <= k + 1 implies end[node_index(g, path.last())].cost
        <= path.len() by {
        let last = (path.len() - 1) as int;
        lemma_path_nodes(g, root, path, last);
        let v = node_index(g, path.last());
        if path.len() <= k {
            assert(t[v].cost <= path.len());
        } else {
            let front = path.drop_last();
            assert forall|i: int| 0 <= i < front.len() - 1 implies #[trigger] is_step(
                g,
                front,
                i,
            ) by {
                assert(is_step(g, path, i));
            }
            assert(front[0] == path[0]);
            assert(leads(g, root, front));
            assert(front.last() == path[last - 1]);
            lemma_path_nodes(g, root, path, last - 1);
            let u = node_index(g, path[last - 1]);
            assert(t[u].cost <= k);
            assert(is_step(g, path, last - 1));
            let e = edges.index_of((path[last - 1], path[last]));
            lemma_along(g, root, t, edges, 0, e as nat);
            let here = relaxed_along(t, edges, e as nat);
            lemma_relaxed(g, root, here, edges[e]);
            lemma_along(g, root, t, edges, (e + 1) as nat, edges.len());
            assert(relaxed_along(t, edges, (e + 1) as nat) == relaxed(here, edges[e]));
            assert(here[u].cost <= k);
            assert(relaxed_along(t, edges, (e + 1) as nat)[v].cost <= k + 1);
        }
    }
}

/// Rounds over all edges keep the labels right, and each lengthens the paths
/// that are covered by one file.
pub proof fn lemma_rounds(
    g: Seq<Node>,
    root: FileID,
    t: Seq<Node>,
    edges: Seq<(FileID, FileID)>,
    rounds: nat,
)
    requires
        well_formed(g),
        labels_ok(g, root, t),
        edges_ok(g, edges),
        forall|from: FileID, to: FileID| has_edge(g, from, to) ==> edges.contains((from, to)),
        covered(g, root, t, 1),
    ensures
        labels_ok(g, root, relaxed_rounds(t, edges, rounds)),
        covered(g, root, relaxed_rounds(t, edges, rounds), rounds + 1),
    decreases rounds,
{
    if rounds > 0 {
        lemma_rounds(g, root, t, edges, (rounds - 1) as nat);
        lemma_round(g, root, relaxed_rounds(t, edges, (rounds - 1) as nat), edges, rounds);
    }
}

/// A list of more positions than the graph has nodes names a position twice.
pub proof fn lemma_pigeonhole(places: Seq<int>, n: int)
    requires
        forall|i: int| 0 <= i < places.len() ==> 0 <= #[trigger] places[i] < n,
        places.len() > n,
        n >= 0,
    ensures
        exists|i: int, j: int| 0 <= i < j < places.len() && places[i] == places[j],
{
    if places.no_duplicates() {
        places.unique_seq_to_set();
        lemma_int_range(0, n);
        assert forall|x: int| places.to_set().contains(x) implies set_int_range(0, n).contains(
            x,
        ) by {
            let i = choose|i: int| 0 <= i < places.len() && places[i] == x;
            assert(0 <= places[i] < n);
        }
        lemma_len_subset(places.to_set(), set_int_range(0, n));
        assert(false);
    }
    let (i, j) = choose|i: int, j: int|
        0 <= i < places.len() && 0 <= j < places.len() && i != j && places[i] == places[j];
    if i < j {
        assert(0 <= i < j < places.len() && places[i] == places[j]);
    } else {
        assert(0 <= j < i < places.len() && places[j] == places[i]);
    }
}

/// A path that leads from the root to a file can be cut down to one that has
/// no more files than the graph has nodes.
pub proof fn lemma_short_path(g: Seq<Node>, root: FileID, path: Seq<FileID>) -> (short: Seq<FileID>)
    requires
        well_formed(g),
        leads(g, root, path),
    ensures
        leads(g, root, short),
        short.last() == path.last(),
        short.len() <= path.len(),
        short.len() <= g.len(),
    decreases path.len(),
{
    if path.len() <= g.len() {
        path
    } else {
        let places = Seq::new(path.len(), |i: int| node_index(g, path[i]));
        assert forall|i: int| 0 <= i < places.len() implies 0 <= #[trigger] places[i] < g.len() by {
            lemma_path_nodes(g, root, path, i);
        }
        lemma_pigeonhole(places, g.len() as int);
        let (i, j) = choose|i: int, j: int|
            0 <= i < j < places.len() && places[i] == places[j];
        lemma_path_nodes(g, root, path, i);
        lemma_path_nodes(g, root, path, j);
        assert(path[i] == path[j]);
        let cut = path.take(i + 1) + path.skip(j + 1);
        assert(cut.len() == path.len() - (j - i));
        assert(cut[0] == path[0]);
        assert forall|m: int| 0 <= m < cut.len() - 1 implies #[trigger] is_step(g, cut, m) by {
            if m < i {
                assert(is_step(g, path, m));
                assert(cut[m] == path[m] && cut[m + 1] == path[m + 1]);
            } else if m == i {
                assert(is_step(g, path, j));
                assert(cut[m] == path[i]);
                assert(cut[m + 1] == path[j + 1]);
            } else {
                assert(is_step(g, path, m + (j - i)));
                assert(cut[m] == path[m + (j - i)]);
                assert(cut[m + 1] == path[m + (j - i) + 1]);
            }
        }
        assert(cut.last() == path.last()) by {
            if j + 1 < path.len() {
                assert(cut[cut.len() - 1] == path[path.len() - 1]);
            } else {
                assert(cut =~= path.take(i + 1));
            }
        }
        lemma_short_path(g, root, cut)
    }
}

/// What the shortest paths are. After the relaxation every node has the label
/// that a path from the root gives it (see [`label_ok`]): a direct successor of
/// the root costs 1 and is its own predecessor; any other node that a path
/// reaches has as its cost the length of such a path, and as its predecessor the
/// direct successor of the root at which that path starts. And no path from the
/// root to a node is shorter than the cost of the node.
pub proof fn lemma_shortest_paths(g: Seq<Node>, root: FileID)
    requires
        well_formed(g),
    ensures
        labels_ok(with_node(g, root), root, with_shortest_paths(g, root)),
        forall|path: Seq<FileID>| #[trigger]
            leads(with_node(g, root), root, path) ==> with_shortest_paths(g, root)[node_index(
                with_node(g, root),
                path.last(),
            )].cost <= path.len(),
{
    let h = with_node(g, root);
    lemma_with_node(g, root);
    lemma_edge_list(h);
    lemma_initial(h, root);
    let rounds = (h.len() - 1) as nat;
    assert(h.len() >= 1) by {
        let r = node_index(h, root);
        assert(0 <= r < h.len());
    }
    lemma_rounds(h, root, initialised(h, root), edge_list(h), rounds);
    let end = with_shortest_paths(g, root);
    assert forall|path: Seq<FileID>| #[trigger]
        leads(h, root, path) implies end[node_index(h, path.last())].cost <= path.len() by {
        let short = lemma_short_path(h, root, path);
        assert(leads(h, root, short) && short.len() <= h.len());
    }
}

/// A used file that a path from the root reaches has a predecessor, which is a
/// direct successor of the root or, for the root itself, the root; what has this
/// predecessor justifies it, so that it is not among the unused files.
pub proof fn lemma_reached_has_pred(g: Seq<Node>, root: FileID, path: Seq<FileID>)
    requires
        well_formed(g),
        g.len() + 1 < UNREACHED,
        leads(with_node(g, root), root, path),
    ensures
        ({
            let h = with_node(g, root);
            let label = with_shortest_paths(g, root)[node_index(h, path.last())];
            &&& label.id == path.last()
            &&& label.cost <= path.len()
            &&& label.cost < UNREACHED
            &&& label.pred matches Some(via) && (has_edge(h, root, via) || (via == root
                && label.id == root))
        }),
{
    let h = with_node(g, root);
    lemma_with_node(g, root);
    lemma_shortest_paths(g, root);
    let end = with_shortest_paths(g, root);
    let short = lemma_short_path(h, root, path);
    lemma_path_nodes(h, root, path, path.len() - 1);
    let at = node_index(h, path.last());
    let label = end[at];
    assert(label_ok(h, root, label));
    assert(leads(h, root, short));
    assert(label.cost <= short.len());
    if !has_edge(h, root, label.id) && label.id != root {
        let proof_path = choose|p: Seq<FileID>| #[trigger] certifies(h, root, p, label);
        assert(has_edge(h, root, proof_path[0]));
    }
}

} // verus!
