//! Assembly of the rows of the commit graph.
//!
//! A traversal hands over the commits one at a time, each with its edges and
//! its text. Every commit becomes a row; an edge that skips elided history
//! may get a placeholder row of its own, right below the commit that holds
//! the edge. The heads are the commits that no edge points to.

use vstd::prelude::*;
use vstd::string::StringSliceAdditionalSpecFns;
use renderdag::GraphRow;
use renderdag::GraphRowRenderer;
use crate::graph::CommitId;
use crate::graph::GraphEdge;
use crate::graph::GraphEdgeType;
use crate::recorder::copy_bytes;
use crate::recorder::FormatOp;
use crate::recorder::FormatOpView;
use crate::recorder::FormatRecorder;
use crate::renderer::convert_graph_edges;
use crate::renderer::into_ancestors;
use crate::renderer::key_view;
use crate::renderer::links_view;
use crate::renderer::new_renderer;
use crate::renderer::next_row;
use crate::renderer::rendered_row;
use crate::renderer::lanes_after;
use crate::renderer::open_lanes;
use crate::renderer::Lane;
use crate::renderer::KeyView;
use crate::renderer::RowKey;

verus! {

/// One commit as the traversal yields it: its edges in their order, and the
/// text of its line.
#[derive(Debug)]
pub struct GraphNode {
    pub commit_id: CommitId,
    pub edges: Vec<GraphEdge<CommitId>>,
    pub msg: FormatRecorder,
}

/// A `GraphNode` as a mathematical value.
pub struct NodeView {
    pub id: Seq<u8>,
    pub edges: Seq<GraphEdge<Seq<u8>>>,
    pub msg: Seq<FormatOpView>,
}

/// An edge of a node as a mathematical value.
pub open spec fn edge_view(edge: GraphEdge<CommitId>) -> GraphEdge<Seq<u8>> {
    GraphEdge { target: edge.target@, edge_type: edge.edge_type }
}

/// The edges of a node as mathematical values.
pub open spec fn edges_view(edges: Seq<GraphEdge<CommitId>>) -> Seq<GraphEdge<Seq<u8>>> {
    edges.map_values(|e: GraphEdge<CommitId>| edge_view(e))
}

/// Commit identifiers as sequences of bytes.
pub open spec fn ids_view(ids: Seq<CommitId>) -> Seq<Seq<u8>> {
    ids.map_values(|c: CommitId| c@)
}

impl View for GraphNode {
    type V = NodeView;

    open spec fn view(&self) -> NodeView {
        NodeView { id: self.commit_id@, edges: edges_view(self.edges@), msg: self.msg@ }
    }
}

/// The nodes of a traversal as mathematical values.
pub open spec fn nodes_view(nodes: Seq<GraphNode>) -> Seq<NodeView> {
    nodes.map_values(|n: GraphNode| n@)
}

/// One row of the graph.
pub struct CommitNode {
    /// The commit of the row; `None` for a row that stands for elided history.
    pub commit_id: Option<CommitId>,
    /// The key under which the row was laid out.
    pub key: RowKey,
    /// The edges of the row as they were laid out, in order.
    pub edges: Vec<GraphEdge<RowKey>>,
    /// The text of the row.
    pub msg: FormatRecorder,
    /// The lanes of the row.
    pub row: GraphRow<RowKey>,
}

/// What a row holds, but for its lanes.
pub struct RowView {
    pub commit_id: Option<Seq<u8>>,
    pub key: KeyView,
    pub edges: Seq<GraphEdge<KeyView>>,
    pub msg: Seq<FormatOpView>,
}

impl View for CommitNode {
    type V = RowView;

    open spec fn view(&self) -> RowView {
        RowView {
            commit_id: match self.commit_id {
                Some(id) => Some(id@),
                None => None,
            },
            key: key_view(self.key),
            edges: links_view(self.edges@),
            msg: self.msg@,
        }
    }
}

/// Rows as mathematical values, without their lanes.
pub open spec fn rows_view(rows: Seq<CommitNode>) -> Seq<RowView> {
    rows.map_values(|r: CommitNode| r@)
}

/// The edges of a node that are drawn towards a target, in order, each as
/// it is laid out. A direct edge stays direct. An indirect edge stays
/// indirect, or, where elided history gets rows of its own, becomes a
/// direct edge to the placeholder of its target. Missing edges are left out.
pub open spec fn classified(edges: Seq<GraphEdge<Seq<u8>>>, elide: bool) -> Seq<GraphEdge<KeyView>>
    decreases edges.len(),
{
    if edges.len() == 0 {
        Seq::empty()
    } else {
        let rest = classified(edges.drop_last(), elide);
        let edge = edges.last();
        match edge.edge_type {
            GraphEdgeType::Missing => rest,
            GraphEdgeType::Direct => rest.push(
                GraphEdge { target: (edge.target, false), edge_type: GraphEdgeType::Direct },
            ),
            GraphEdgeType::Indirect => if elide {
                rest.push(
                    GraphEdge { target: (edge.target, true), edge_type: GraphEdgeType::Direct },
                )
            } else {
                rest.push(
                    GraphEdge { target: (edge.target, false), edge_type: GraphEdgeType::Indirect },
                )
            },
        }
    }
}

/// The target of the last missing edge, if there is one.
pub open spec fn last_missing(edges: Seq<GraphEdge<Seq<u8>>>) -> Option<Seq<u8>>
    decreases edges.len(),
{
    if edges.len() == 0 {
        None
    } else if edges.last().edge_type == GraphEdgeType::Missing {
        Some(edges.last().target)
    } else {
        last_missing(edges.drop_last())
    }
}

/// The edges that a node's row is laid out with: the classified edges, then
/// one missing edge if the node has any. A node with several missing edges
/// shows only the last of them.
pub open spec fn graphlog_edges(edges: Seq<GraphEdge<Seq<u8>>>, elide: bool) -> Seq<
    GraphEdge<KeyView>,
> {
    match last_missing(edges) {
        Some(target) => classified(edges, elide).push(
            GraphEdge { target: (target, false), edge_type: GraphEdgeType::Missing },
        ),
        None => classified(edges, elide),
    }
}

/// The targets that get a placeholder row: those of the indirect edges, in
/// order, where elided history gets rows of its own, and none otherwise.
pub open spec fn elided_targets(edges: Seq<GraphEdge<Seq<u8>>>, elide: bool) -> Seq<Seq<u8>>
    decreases edges.len(),
{
    if edges.len() == 0 {
        Seq::empty()
    } else {
        let rest = elided_targets(edges.drop_last(), elide);
        if elide && edges.last().edge_type == GraphEdgeType::Indirect {
            rest.push(edges.last().target)
        } else {
            rest
        }
    }
}

/// Classifies the edges of one node: the edges to lay its row out with, and
/// the targets that get a placeholder row below it.
pub fn classify_edges(edges: &Vec<GraphEdge<CommitId>>, use_elided_nodes: bool) -> (out: (
    Vec<GraphEdge<RowKey>>,
    Vec<CommitId>,
))
    ensures
        links_view(out.0@) == graphlog_edges(edges_view(edges@), use_elided_nodes),
        ids_view(out.1@) == elided_targets(edges_view(edges@), use_elided_nodes),
{
    let mut graphlog_edges: Vec<GraphEdge<RowKey>> = Vec::new();
    let mut missing_edge_id: Option<CommitId> = None;
    let mut elided_targets: Vec<CommitId> = Vec::new();
    let ghost all = edges_view(edges@);
    let mut i: usize = 0;
    while i < edges.len()
        invariant
            0 <= i <= edges@.len(),
            all == edges_view(edges@),
            links_view(graphlog_edges@) == classified(all.take(i as int), use_elided_nodes),
            ids_view(elided_targets@) == self::elided_targets(
                all.take(i as int),
                use_elided_nodes,
            ),
            match missing_edge_id {
                Some(id) => last_missing(all.take(i as int)) == Some(id@),
                None => last_missing(all.take(i as int)) == None::<Seq<u8>>,
            },
        decreases edges@.len() - i,
    {
        let edge = &edges[i];
        let ghost links_before = graphlog_edges@;
        let ghost elided_before = elided_targets@;
        proof {
            assert(all.take(i + 1).drop_last() =~= all.take(i as int));
            assert(all.take(i + 1).last() == edge_view(*edge));
        }
        match edge.edge_type {
            GraphEdgeType::Missing => {
                missing_edge_id = Some(edge.target.clone());
            },
            GraphEdgeType::Direct => {
                graphlog_edges.push(GraphEdge::direct((edge.target.clone(), false)));
            },
            GraphEdgeType::Indirect => {
                if use_elided_nodes {
                    elided_targets.push(edge.target.clone());
                    graphlog_edges.push(GraphEdge::direct((edge.target.clone(), true)));
                } else {
                    graphlog_edges.push(GraphEdge::indirect((edge.target.clone(), false)));
                }
            },
        }
        proof {
            if graphlog_edges@.len() > links_before.len() {
                assert(links_view(graphlog_edges@) =~= links_view(links_before).push(
                    crate::renderer::link_view(graphlog_edges@.last()),
                ));
            }
            if elided_targets@.len() > elided_before.len() {
                assert(ids_view(elided_targets@) =~= ids_view(elided_before).push(
                    elided_targets@.last()@,
                ));
            }
        }
        i = i + 1;
    }
    proof {
        assert(all.take(i as int) =~= all);
    }
    if let Some(missing_edge_id) = missing_edge_id {
        let ghost links_before = graphlog_edges@;
        graphlog_edges.push(GraphEdge::missing((missing_edge_id, false)));
        proof {
            assert(links_view(graphlog_edges@) =~= links_view(links_before).push(
                crate::renderer::link_view(graphlog_edges@.last()),
            ));
        }
    }
    (graphlog_edges, elided_targets)
}

/// The targets of a node's edges, in order, whatever their kind.
pub open spec fn node_targets(node: NodeView) -> Seq<Seq<u8>> {
    node.edges.map_values(|e: GraphEdge<Seq<u8>>| e.target)
}

/// The targets recorded for commit `id`: those of every node with that
/// identifier, in the order of the traversal.
pub open spec fn parents_of(nodes: Seq<NodeView>, id: Seq<u8>) -> Seq<Seq<u8>>
    decreases nodes.len(),
{
    if nodes.len() == 0 {
        Seq::empty()
    } else if nodes.last().id == id {
        parents_of(nodes.drop_last(), id) + node_targets(nodes.last())
    } else {
        parents_of(nodes.drop_last(), id)
    }
}

/// Whether the traversal yielded a node for commit `id`.
pub open spec fn is_node_id(nodes: Seq<NodeView>, id: Seq<u8>) -> bool {
    exists|j: int| 0 <= j < nodes.len() && (#[trigger] nodes[j]).id == id
}

/// Whether some edge of some node points to commit `id`.
pub open spec fn is_edge_target(nodes: Seq<NodeView>, id: Seq<u8>) -> bool {
    exists|j: int, k: int|
        0 <= j < nodes.len() && 0 <= k < nodes[j].edges.len() && (
        #[trigger] nodes[j].edges[k]).target == id
}

/// Whether `parents` holds an entry for commit `id`.
pub open spec fn has_entry(parents: Seq<(CommitId, Vec<CommitId>)>, id: Seq<u8>) -> bool {
    exists|a: int| 0 <= a < parents.len() && (#[trigger] parents[a]).0@ == id
}

/// Whether some entry of `parents` lists commit `id` among its targets.
pub open spec fn lists_target(parents: Seq<(CommitId, Vec<CommitId>)>, id: Seq<u8>) -> bool {
    exists|a: int, k: int|
        0 <= a < parents.len() && 0 <= k < parents[a].1@.len() && (
        #[trigger] parents[a].1@[k])@ == id
}

/// Whether `parents` is the adjacency of `nodes`: one entry for each commit
/// that the traversal yielded, holding the targets recorded for it.
pub open spec fn parents_match(parents: Seq<(CommitId, Vec<CommitId>)>, nodes: Seq<NodeView>) -> bool {
    &&& forall|a: int, b: int|
        0 <= a < b < parents.len() ==> (#[trigger] parents[a]).0@ != (#[trigger] parents[b]).0@
    &&& forall|a: int|
        0 <= a < parents.len() ==> is_node_id(nodes, (#[trigger] parents[a]).0@) && ids_view(
            parents[a].1@,
        ) == parents_of(nodes, parents[a].0@)
    &&& forall|id: Seq<u8>| #[trigger] is_node_id(nodes, id) ==> has_entry(parents, id)
}

/// A commit that no node was yielded for has no recorded targets.
pub proof fn lemma_parents_of_unknown(nodes: Seq<NodeView>, id: Seq<u8>)
    requires
        !is_node_id(nodes, id),
    ensures
        parents_of(nodes, id) == Seq::<Seq<u8>>::empty(),
    decreases nodes.len(),
{
    if nodes.len() > 0 {
        assert(nodes[nodes.len() - 1].id != id);
        assert forall|j: int| 0 <= j < nodes.drop_last().len() implies (#[trigger] nodes.drop_last()[j]).id
            != id by {
            assert(nodes[j].id != id);
        }
        lemma_parents_of_unknown(nodes.drop_last(), id);
    }
}

/// A commit is the target of an edge exactly if it is among the targets
/// recorded for some commit.
pub proof fn lemma_edge_target_recorded(nodes: Seq<NodeView>, id: Seq<u8>)
    ensures
        is_edge_target(nodes, id) <==> exists|from: Seq<u8>| #[trigger]
            parents_of(nodes, from).contains(id),
    decreases nodes.len(),
{
    if nodes.len() == 0 {
        assert forall|from: Seq<u8>| !(#[trigger] parents_of(nodes, from).contains(id)) by {}
    } else {
        let init = nodes.drop_last();
        let last = nodes.last();
        lemma_edge_target_recorded(init, id);
        if is_edge_target(nodes, id) {
            let (j, k) = choose|j: int, k: int|
                0 <= j < nodes.len() && 0 <= k < nodes[j].edges.len() && (
                #[trigger] nodes[j].edges[k]).target == id;
            if j == nodes.len() - 1 {
                assert(node_targets(last)[k] == id);
                let rest = parents_of(init, last.id);
                assert(parents_of(nodes, last.id)[rest.len() + k] == id);
                assert(parents_of(nodes, last.id).contains(id));
            } else {
                assert(init[j].edges[k].target == id);
                assert(is_edge_target(init, id));
                let from = choose|from: Seq<u8>| #[trigger] parents_of(init, from).contains(id);
                let i = choose|i: int|
                    0 <= i < parents_of(init, from).len() && parents_of(init, from)[i] == id;
                assert(parents_of(nodes, from)[i] == id);
                assert(parents_of(nodes, from).contains(id));
            }
        }
        if exists|from: Seq<u8>| #[trigger] parents_of(nodes, from).contains(id) {
            let from = choose|from: Seq<u8>| #[trigger] parents_of(nodes, from).contains(id);
            let i = choose|i: int|
                0 <= i < parents_of(nodes, from).len() && parents_of(nodes, from)[i] == id;
            let rest = parents_of(init, from);
            if i < rest.len() {
                assert(rest[i] == id);
                assert(rest.contains(id));
                assert(is_edge_target(init, id));
                let (j, k) = choose|j: int, k: int|
                    0 <= j < init.len() && 0 <= k < init[j].edges.len() && (
                    #[trigger] init[j].edges[k]).target == id;
                assert(nodes[j].edges[k].target == id);
            } else {
                assert(last.id == from);
                let k = i - rest.len();
                assert(node_targets(last)[k] == id);
                assert(nodes[nodes.len() - 1].edges[k].target == id);
            }
        }
    }
}

/// Whether `id` is one of `heads`.
pub open spec fn in_heads(heads: Seq<CommitId>, id: Seq<u8>) -> bool {
    exists|h: int| 0 <= h < heads.len() && (#[trigger] heads[h])@ == id
}

/// Whether `heads` holds, each once, exactly the commits that the traversal
/// yielded and that no edge points to, whatever the kind of the edge.
pub open spec fn is_heads_of(heads: Seq<CommitId>, nodes: Seq<NodeView>) -> bool {
    &&& forall|id: Seq<u8>|
        in_heads(heads, id) <==> is_node_id(nodes, id) && !is_edge_target(nodes, id)
    &&& forall|g: int, h: int|
        0 <= g < h < heads.len() ==> (#[trigger] heads[g])@ != (#[trigger] heads[h])@
}

/// Whether cell `i` of a row of `cells` cells is where a head starts: it is
/// the last cell of the row, and the row is the row of a commit that is
/// one of `heads`.
pub fn is_head_cell(i: usize, cells: usize, commit_id: &Option<CommitId>, heads: &Vec<CommitId>) -> (head:
    bool)
    ensures
        head == (i + 1 == cells && commit_id is Some && in_heads(heads@, commit_id.unwrap()@)),
{
    if cells == 0 || i != cells - 1 {
        return false;
    }
    match commit_id {
        None => false,
        Some(id) => {
            let mut h: usize = 0;
            while h < heads.len()
                invariant
                    0 <= h <= heads@.len(),
                    i + 1 == cells,
                    *commit_id == Some(*id),
                    forall|k: int| 0 <= k < h ==> (#[trigger] heads@[k])@ != id@,
                decreases heads@.len() - h,
            {
                if heads[h] == *id {
                    proof {
                        assert(heads@[h as int]@ == id@);
                    }
                    return true;
                }
                h = h + 1;
            }
            proof {
                if in_heads(heads@, id@) {
                    let k = choose|k: int| 0 <= k < heads@.len() && (#[trigger] heads@[k])@ == id@;
                    assert(heads@[k]@ != id@);
                }
            }
            false
        },
    }
}

/// What is yielded or pointed to among `nodes` is so among the same nodes
/// in another order.
proof fn lemma_reordered(nodes: Seq<NodeView>, other: Seq<NodeView>, id: Seq<u8>)
    requires
        nodes.to_multiset() == other.to_multiset(),
    ensures
        is_node_id(nodes, id) ==> is_node_id(other, id),
        is_edge_target(nodes, id) ==> is_edge_target(other, id),
{
    nodes.to_multiset_ensures();
    other.to_multiset_ensures();
    if is_node_id(nodes, id) {
        let j = choose|j: int| 0 <= j < nodes.len() && (#[trigger] nodes[j]).id == id;
        assert(nodes.contains(nodes[j]));
        assert(nodes.to_multiset().count(nodes[j]) > 0);
        assert(other.contains(nodes[j]));
        let k = choose|k: int| 0 <= k < other.len() && other[k] == nodes[j];
        assert(other[k].id == id);
    }
    if is_edge_target(nodes, id) {
        let (j, e) = choose|j: int, e: int|
            0 <= j < nodes.len() && 0 <= e < nodes[j].edges.len() && (
            #[trigger] nodes[j].edges[e]).target == id;
        assert(nodes.contains(nodes[j]));
        assert(nodes.to_multiset().count(nodes[j]) > 0);
        assert(other.contains(nodes[j]));
        let k = choose|k: int| 0 <= k < other.len() && other[k] == nodes[j];
        assert(other[k].edges[e].target == id);
    }
}

/// Which commits were yielded and which are pointed to does not depend on
/// the order of the nodes.
pub proof fn lemma_order_independent(nodes: Seq<NodeView>, other: Seq<NodeView>, id: Seq<u8>)
    requires
        nodes.to_multiset() == other.to_multiset(),
    ensures
        is_node_id(nodes, id) == is_node_id(other, id),
        is_edge_target(nodes, id) == is_edge_target(other, id),
{
    lemma_reordered(nodes, other, id);
    lemma_reordered(other, nodes, id);
}

/// The heads of a traversal are the heads of the same nodes in any other
/// order.
pub proof fn lemma_heads_order_independent(
    heads: Seq<CommitId>,
    nodes: Seq<NodeView>,
    other: Seq<NodeView>,
)
    requires
        nodes.to_multiset() == other.to_multiset(),
        is_heads_of(heads, nodes),
    ensures
        is_heads_of(heads, other),
{
    assert forall|id: Seq<u8>|
        in_heads(heads, id) <==> is_node_id(other, id) && !is_edge_target(other, id) by {
        lemma_order_independent(nodes, other, id);
    }
}

/// Under a matching adjacency, a commit is the target of an edge exactly if
/// some entry lists it.
pub proof fn lemma_lists_target(
    parents: Seq<(CommitId, Vec<CommitId>)>,
    nodes: Seq<NodeView>,
    id: Seq<u8>,
)
    requires
        parents_match(parents, nodes),
    ensures
        lists_target(parents, id) <==> is_edge_target(nodes, id),
{
    lemma_edge_target_recorded(nodes, id);
    if lists_target(parents, id) {
        let (a, k) = choose|a: int, k: int|
            0 <= a < parents.len() && 0 <= k < parents[a].1@.len() && (
            #[trigger] parents[a].1@[k])@ == id;
        let from = parents[a].0@;
        assert(ids_view(parents[a].1@)[k] == id);
        assert(parents_of(nodes, from)[k] == id);
        assert(parents_of(nodes, from).contains(id));
    }
    if is_edge_target(nodes, id) {
        let from = choose|from: Seq<u8>| #[trigger] parents_of(nodes, from).contains(id);
        if !is_node_id(nodes, from) {
            lemma_parents_of_unknown(nodes, from);
        }
        assert(is_node_id(nodes, from));
        let a = choose|a: int| 0 <= a < parents.len() && (#[trigger] parents[a]).0@ == from;
        let k = choose|k: int|
            0 <= k < parents_of(nodes, from).len() && parents_of(nodes, from)[k] == id;
        assert(ids_view(parents[a].1@)[k] == id);
        assert(parents[a].1@[k]@ == id);
    }
}

/// The targets of `edges`, in order.
fn edge_targets(edges: &Vec<GraphEdge<CommitId>>) -> (targets: Vec<CommitId>)
    ensures
        ids_view(targets@) == edges_view(edges@).map_values(|e: GraphEdge<Seq<u8>>| e.target),
{
    let mut targets: Vec<CommitId> = Vec::new();
    let mut i: usize = 0;
    while i < edges.len()
        invariant
            0 <= i <= edges@.len(),
            targets@.len() == i,
            forall|k: int| 0 <= k < i ==> (#[trigger] targets@[k])@ == edges@[k].target@,
        decreases edges@.len() - i,
    {
        targets.push(edges[i].target.clone());
        i = i + 1;
    }
    proof {
        assert(ids_view(targets@) =~= edges_view(edges@).map_values(
            |e: GraphEdge<Seq<u8>>| e.target,
        ));
    }
    targets
}

/// The index of the entry for `id`, if there is one.
fn find_entry(parents: &Vec<(CommitId, Vec<CommitId>)>, id: &CommitId) -> (found: Option<usize>)
    ensures
        match found {
            Some(a) => a < parents@.len() && parents@[a as int].0@ == id@,
            None => !has_entry(parents@, id@),
        },
{
    let mut a: usize = 0;
    while a < parents.len()
        invariant
            0 <= a <= parents@.len(),
            forall|b: int| 0 <= b < a ==> (#[trigger] parents@[b]).0@ != id@,
        decreases parents@.len() - a,
    {
        if parents[a].0 == *id {
            return Some(a);
        }
        a = a + 1;
    }
    None
}

/// Adds the targets of `node` to the entry of its commit, making the entry
/// where there is none yet.
fn record_parents(
    parents: &mut Vec<(CommitId, Vec<CommitId>)>,
    node: &GraphNode,
    Ghost(before): Ghost<Seq<NodeView>>,
)
    requires
        parents_match(old(parents)@, before),
    ensures
        parents_match(final(parents)@, before.push(node@)),
{
    let ghost after = before.push(node@);
    let ghost id = node.commit_id@;
    let mut targets = edge_targets(&node.edges);
    proof {
        assert(after.drop_last() =~= before);
        assert(after.last() == node@);
        assert(ids_view(targets@) == node_targets(node@));
        assert forall|c: Seq<u8>| is_node_id(before, c) implies is_node_id(after, c) by {
            let j = choose|j: int| 0 <= j < before.len() && (#[trigger] before[j]).id == c;
            assert(after[j].id == c);
        }
        assert(after[after.len() - 1].id == id);
        assert(is_node_id(after, id));
        assert forall|c: Seq<u8>| is_node_id(after, c) && c != id implies is_node_id(
            before,
            c,
        ) by {
            let j = choose|j: int| 0 <= j < after.len() && (#[trigger] after[j]).id == c;
            assert(before[j].id == c);
        }
    }
    match find_entry(parents, &node.commit_id) {
        Some(a) => {
            let entry = parents.remove(a);
            let key = entry.0;
            let mut list = entry.1;
            let ghost list_before = list@;
            list.append(&mut targets);
            proof {
                assert(ids_view(list@) =~= ids_view(list_before) + node_targets(node@));
            }
            parents.insert(a, (key, list));
            proof {
                let now = parents@;
                let was = old(parents)@;
                assert(now.len() == was.len());
                assert forall|b: int| 0 <= b < now.len() implies (#[trigger] now[b]).0@
                    == was[b].0@ by {}
                assert forall|b: int| 0 <= b < now.len() && b != a implies #[trigger] now[b]
                    == was[b] by {}
                assert forall|b: int| 0 <= b < now.len() implies is_node_id(
                    after,
                    (#[trigger] now[b]).0@,
                ) && ids_view(now[b].1@) == parents_of(after, now[b].0@) by {
                    assert(is_node_id(before, was[b].0@));
                    if b != a {
                        assert(was[b].0@ != was[a as int].0@);
                    }
                }
                assert forall|c: Seq<u8>| #[trigger] is_node_id(after, c) implies has_entry(
                    now,
                    c,
                ) by {
                    if c == id {
                        assert(now[a as int].0@ == c);
                    } else {
                        assert(is_node_id(before, c));
                        assert(has_entry(was, c));
                        let b = choose|b: int| 0 <= b < was.len() && (#[trigger] was[b]).0@ == c;
                        assert(now[b].0@ == c);
                    }
                }
            }
        },
        None => {
            proof {
                if is_node_id(before, id) {
                    assert(has_entry(old(parents)@, id));
                }
                lemma_parents_of_unknown(before, id);
                assert(parents_of(after, id) =~= node_targets(node@));
            }
            parents.push((node.commit_id.clone(), targets));
            proof {
                let now = parents@;
                let was = old(parents)@;
                assert forall|b: int| 0 <= b < was.len() implies #[trigger] now[b] == was[b] by {}
                assert forall|b: int| 0 <= b < now.len() implies is_node_id(
                    after,
                    (#[trigger] now[b]).0@,
                ) && ids_view(now[b].1@) == parents_of(after, now[b].0@) by {
                    if b < was.len() {
                        assert(is_node_id(before, was[b].0@));
                        assert(was[b].0@ != id);
                    }
                }
                assert forall|c: Seq<u8>| #[trigger] is_node_id(after, c) implies has_entry(
                    now,
                    c,
                ) by {
                    if c == id {
                        assert(now[now.len() - 1].0@ == c);
                    } else {
                        assert(is_node_id(before, c));
                        assert(has_entry(was, c));
                        let b = choose|b: int| 0 <= b < was.len() && (#[trigger] was[b]).0@ == c;
                        assert(now[b].0@ == c);
                    }
                }
            }
        },
    }
}

/// Whether some entry of `parents` lists `id` among its targets.
fn is_listed(parents: &Vec<(CommitId, Vec<CommitId>)>, id: &CommitId) -> (listed: bool)
    ensures
        listed == lists_target(parents@, id@),
{
    let mut a: usize = 0;
    while a < parents.len()
        invariant
            0 <= a <= parents@.len(),
            forall|b: int, k: int|
                0 <= b < a && 0 <= k < parents@[b].1@.len() ==> (#[trigger] parents@[b].1@[k])@
                    != id@,
        decreases parents@.len() - a,
    {
        let list = &parents[a].1;
        let mut k: usize = 0;
        while k < list.len()
            invariant
                0 <= a < parents@.len(),
                list@ == parents@[a as int].1@,
                0 <= k <= list@.len(),
                forall|m: int| 0 <= m < k ==> (#[trigger] list@[m])@ != id@,
            decreases list@.len() - k,
        {
            if list[k] == *id {
                proof {
                    assert(parents@[a as int].1@[k as int]@ == id@);
                }
                return true;
            }
            k = k + 1;
        }
        a = a + 1;
    }
    false
}

/// The commits that have an entry and that no entry lists: the heads.
fn compute_heads(parents: &Vec<(CommitId, Vec<CommitId>)>, Ghost(nodes): Ghost<Seq<NodeView>>) -> (heads:
    Vec<CommitId>)
    requires
        parents_match(parents@, nodes),
    ensures
        is_heads_of(heads@, nodes),
{
    let mut heads: Vec<CommitId> = Vec::new();
    let mut a: usize = 0;
    while a < parents.len()
        invariant
            0 <= a <= parents@.len(),
            parents_match(parents@, nodes),
            forall|h: int|
                0 <= h < heads@.len() ==> exists|b: int|
                    0 <= b < a && (#[trigger] parents@[b]).0@ == (#[trigger] heads@[h])@,
            forall|h: int|
                0 <= h < heads@.len() ==> !is_edge_target(nodes, (#[trigger] heads@[h])@),
            forall|b: int|
                0 <= b < a && !is_edge_target(nodes, (#[trigger] parents@[b]).0@) ==> exists|
                    h: int,
                | 0 <= h < heads@.len() && (#[trigger] heads@[h])@ == parents@[b].0@,
            forall|g: int, h: int|
                0 <= g < h < heads@.len() ==> (#[trigger] heads@[g])@ != (#[trigger] heads@[h])@,
        decreases parents@.len() - a,
    {
        let id = &parents[a].0;
        proof {
            lemma_lists_target(parents@, nodes, id@);
        }
        if !is_listed(parents, id) {
            let ghost was = heads@;
            heads.push(id.clone());
            proof {
                assert forall|h: int| 0 <= h < was.len() implies (#[trigger] heads@[h]) == was[h] by {}
                assert forall|g: int, h: int| 0 <= g < h < heads@.len() implies (
                #[trigger] heads@[g])@ != (#[trigger] heads@[h])@ by {
                    if h == was.len() {
                        let b = choose|b: int|
                            0 <= b < a && (#[trigger] parents@[b]).0@ == was[g]@;
                        assert(parents@[b].0@ != parents@[a as int].0@);
                    }
                }
                assert forall|b: int|
                    0 <= b < a + 1 && !is_edge_target(
                        nodes,
                        (#[trigger] parents@[b]).0@,
                    ) implies exists|h: int|
                    0 <= h < heads@.len() && (#[trigger] heads@[h])@ == parents@[b].0@ by {
                    if b == a {
                        assert(heads@[was.len() as int]@ == parents@[b].0@);
                    } else {
                        let h = choose|h: int|
                            0 <= h < was.len() && (#[trigger] was[h])@ == parents@[b].0@;
                        assert(heads@[h]@ == parents@[b].0@);
                    }
                }
                assert forall|h: int| 0 <= h < heads@.len() implies exists|b: int|
                    0 <= b < a + 1 && (#[trigger] parents@[b]).0@ == (#[trigger] heads@[h])@ by {
                    if h == was.len() {
                        assert(parents@[a as int].0@ == heads@[h]@);
                    } else {
                        let b = choose|b: int|
                            0 <= b < a && (#[trigger] parents@[b]).0@ == was[h]@;
                        assert(parents@[b].0@ == heads@[h]@);
                    }
                }
            }
        }
        a = a + 1;
    }
    proof {
        assert forall|id: Seq<u8>| in_heads(heads@, id) <==> is_node_id(nodes, id)
            && !is_edge_target(nodes, id) by {
            if in_heads(heads@, id) {
                let h = choose|h: int| 0 <= h < heads@.len() && (#[trigger] heads@[h])@ == id;
                let b = choose|b: int|
                    0 <= b < a && (#[trigger] parents@[b]).0@ == (#[trigger] heads@[h])@;
                assert(is_node_id(nodes, parents@[b].0@));
            }
            if is_node_id(nodes, id) && !is_edge_target(nodes, id) {
                assert(has_entry(parents@, id));
                let b = choose|b: int| 0 <= b < parents@.len() && (#[trigger] parents@[b]).0@ == id;
                let h = choose|h: int|
                    0 <= h < heads@.len() && (#[trigger] heads@[h])@ == parents@[b].0@;
                assert(heads@[h]@ == id);
            }
        }
    }
    heads
}

/// The text of a placeholder row: the words "(elided revisions)" under the
/// label "elided".
pub open spec fn elided_msg() -> Seq<FormatOpView> {
    seq![
        FormatOpView::PushLabel("elided"@),
        FormatOpView::Write("(elided revisions)".spec_bytes()),
        FormatOpView::PopLabel,
    ]
}

/// The row of a node itself.
pub open spec fn real_row(node: NodeView, elide: bool) -> RowView {
    RowView {
        commit_id: Some(node.id),
        key: (node.id, false),
        edges: graphlog_edges(node.edges, elide),
        msg: node.msg,
    }
}

/// The placeholder row for the elided history above `target`: it has no
/// commit of its own, and its one edge is a direct edge to the row of
/// `target` itself.
pub open spec fn elided_row(target: Seq<u8>) -> RowView {
    RowView {
        commit_id: None,
        key: (target, true),
        edges: seq![GraphEdge { target: (target, false), edge_type: GraphEdgeType::Direct }],
        msg: elided_msg(),
    }
}

/// The placeholder rows for `targets`, in order.
pub open spec fn elided_rows(targets: Seq<Seq<u8>>) -> Seq<RowView> {
    targets.map_values(|t: Seq<u8>| elided_row(t))
}

/// The rows that one node gives: its own, then one placeholder for each of
/// its elided targets.
pub open spec fn node_rows(node: NodeView, elide: bool) -> Seq<RowView> {
    seq![real_row(node, elide)] + elided_rows(elided_targets(node.edges, elide))
}

/// The rows of a whole traversal, in order.
pub open spec fn all_rows(nodes: Seq<NodeView>, elide: bool) -> Seq<RowView>
    decreases nodes.len(),
{
    if nodes.len() == 0 {
        Seq::empty()
    } else {
        all_rows(nodes.drop_last(), elide) + node_rows(nodes.last(), elide)
    }
}

/// The message that a row is laid out with: the words "(elided revisions)"
/// for a placeholder, nothing for a commit.
pub open spec fn row_message(row: RowView) -> Seq<char> {
    if row.key.1 {
        "(elided revisions)"@
    } else {
        Seq::empty()
    }
}

/// The lanes that the renderer holds after the first `r` of `rows`: none
/// before the first row, and after each row what that row leaves of the
/// lanes before it.
pub open spec fn lanes_before(rows: Seq<RowView>, r: int) -> Seq<Lane>
    decreases r,
{
    if r <= 0 {
        Seq::empty()
    } else {
        lanes_after(lanes_before(rows, r - 1), rows[r - 1].key, into_ancestors(rows[r - 1].edges))
    }
}

/// The lanes of row `r`: what the renderer returns for it over the lanes
/// that the rows above have left, with the glyph "o".
pub open spec fn lanes_of(rows: Seq<RowView>, r: int) -> GraphRow<RowKey> {
    rendered_row(
        lanes_before(rows, r),
        rows[r].key,
        into_ancestors(rows[r].edges),
        "o"@,
        row_message(rows[r]),
    )
}

/// The lanes above a row depend on the rows above it alone.
pub proof fn lemma_lanes_before_prefix(rows: Seq<RowView>, more: Seq<RowView>, r: int)
    requires
        0 <= r <= rows.len(),
        rows.is_prefix_of(more),
    ensures
        lanes_before(more, r) == lanes_before(rows, r),
    decreases r,
{
    if r > 0 {
        lemma_lanes_before_prefix(rows, more, r - 1);
        assert(more[r - 1] == rows[r - 1]);
    }
}

/// Whether `graph` has laid out exactly `rows`, one after the other, and
/// each row holds the lanes that it got.
pub open spec fn laid_out(graph: GraphRowRenderer<RowKey>, rows: Seq<CommitNode>) -> bool {
    &&& open_lanes(graph) == lanes_before(rows_view(rows), rows.len() as int)
    &&& forall|r: int| 0 <= r < rows.len() ==> (#[trigger] rows[r]).row == lanes_of(rows_view(rows), r)
}

/// Lays out one more row and appends it.
fn push_row(
    graph: &mut GraphRowRenderer<RowKey>,
    nodes: &mut Vec<CommitNode>,
    commit_id: Option<CommitId>,
    key: RowKey,
    edges: Vec<GraphEdge<RowKey>>,
    msg: FormatRecorder,
    message: String,
)
    requires
        laid_out(*old(graph), old(nodes)@),
        message@ == (if key.1 {
            "(elided revisions)"@
        } else {
            Seq::<char>::empty()
        }),
    ensures
        laid_out(*final(graph), final(nodes)@),
        final(nodes)@.len() == old(nodes)@.len() + 1,
        rows_view(final(nodes)@) == rows_view(old(nodes)@).push(
            RowView {
                commit_id: match commit_id {
                    Some(id) => Some(id@),
                    None => None,
                },
                key: key_view(key),
                edges: links_view(edges@),
                msg: msg@,
            },
        ),
{
    let ghost was = nodes@;
    let parents = convert_graph_edges(&edges);
    let row = next_row(graph, (key.0.clone(), key.1), parents, "o".to_owned(), message);
    let node = CommitNode { commit_id, key, edges, msg, row };
    nodes.push(node);
    proof {
        let now = nodes@;
        assert(rows_view(now) =~= rows_view(was).push(node@));
        assert(rows_view(was).is_prefix_of(rows_view(now)));
        assert forall|r: int| 0 <= r <= was.len() implies lanes_before(rows_view(now), r)
            == lanes_before(rows_view(was), r) by {
            lemma_lanes_before_prefix(rows_view(was), rows_view(now), r);
        }
        assert(rows_view(now)[was.len() as int] == node@);
        assert forall|r: int| 0 <= r < now.len() implies (#[trigger] now[r]).row == lanes_of(
            rows_view(now),
            r,
        ) by {
            if r < was.len() {
                assert(now[r] == was[r]);
                assert(rows_view(now)[r] == rows_view(was)[r]);
            }
        }
    }
}

/// The rows of the graph, with the adjacency and the heads observed on the
/// way.
pub struct RepoView {
    /// The rows, in the order of the traversal.
    pub nodes: Vec<CommitNode>,
    /// For each commit of the traversal, the targets of its edges.
    pub parents: Vec<(CommitId, Vec<CommitId>)>,
    /// The commits that no edge points to.
    pub heads: Vec<CommitId>,
}

impl Default for RepoView {
    fn default() -> (view: RepoView)
        ensures
            view.nodes@.len() == 0,
            view.parents@.len() == 0,
            view.heads@.len() == 0,
    {
        RepoView { nodes: Vec::new(), parents: Vec::new(), heads: Vec::new() }
    }
}

/// Builds the rows of the graph from the nodes of a traversal.
///
/// Every node gives one row, laid out with its classified edges. Where
/// `use_elided_nodes` is set, each indirect edge also gives a placeholder
/// row right below, in the order of the edges. The adjacency records every
/// target of every node, and the heads are the commits of the traversal
/// that no edge points to.
pub fn reload(nodes: &[GraphNode], use_elided_nodes: bool) -> (view: RepoView)
    ensures
        rows_view(view.nodes@) == all_rows(nodes_view(nodes@), use_elided_nodes),
        forall|r: int|
            0 <= r < view.nodes@.len() ==> (#[trigger] view.nodes@[r]).row == lanes_of(
                rows_view(view.nodes@),
                r,
            ),
        parents_match(view.parents@, nodes_view(nodes@)),
        is_heads_of(view.heads@, nodes_view(nodes@)),
{
    let ghost all = nodes_view(nodes@);
    let mut out: Vec<CommitNode> = Vec::new();
    let mut graph = new_renderer();
    let mut parents: Vec<(CommitId, Vec<CommitId>)> = Vec::new();
    proof {
        assert(rows_view(out@) =~= all_rows(all.take(0), use_elided_nodes));
    }
    let mut i: usize = 0;
    while i < nodes.len()
        invariant
            0 <= i <= nodes@.len(),
            all == nodes_view(nodes@),
            rows_view(out@) == all_rows(all.take(i as int), use_elided_nodes),
            laid_out(graph, out@),
            parents_match(parents@, all.take(i as int)),
        decreases nodes@.len() - i,
    {
        let node = &nodes[i];
        proof {
            assert(all.take(i + 1).drop_last() =~= all.take(i as int));
            assert(all.take(i + 1).last() == node@);
            assert(all.take(i + 1) =~= all.take(i as int).push(node@));
        }
        record_parents(&mut parents, node, Ghost(all.take(i as int)));

        let (graphlog_edges, elided_targets) = classify_edges(&node.edges, use_elided_nodes);
        let key = (node.commit_id.clone(), false);
        let ghost rows_before = rows_view(out@);
        push_row(
            &mut graph,
            &mut out,
            Some(node.commit_id.clone()),
            key,
            graphlog_edges,
            node.msg.clone(),
            String::new(),
        );
        proof {
            assert(rows_view(out@) =~= rows_before + seq![real_row(node@, use_elided_nodes)]);
        }

        let ghost targets = ids_view(elided_targets@);
        let mut t: usize = 0;
        while t < elided_targets.len()
            invariant
                0 <= t <= elided_targets@.len(),
                targets == ids_view(elided_targets@),
                laid_out(graph, out@),
                rows_view(out@) == rows_before + seq![real_row(node@, use_elided_nodes)]
                    + elided_rows(targets.take(t as int)),
            decreases elided_targets@.len() - t,
        {
            let elided_target = &elided_targets[t];
            let elided_key = (elided_target.clone(), true);
            let real_key = (elided_target.clone(), false);
            let mut edges: Vec<GraphEdge<RowKey>> = Vec::new();
            edges.push(GraphEdge::direct(real_key));
            let mut msg = FormatRecorder::new();
            msg.push_label("elided");
            msg.push_op(FormatOp::Write(copy_bytes("(elided revisions)".as_bytes())));
            msg.pop_label();
            let ghost rows_mid = rows_view(out@);
            push_row(
                &mut graph,
                &mut out,
                None,
                elided_key,
                edges,
                msg,
                "(elided revisions)".to_owned(),
            );
            proof {
                assert(links_view(edges@) =~= elided_row(elided_target@).edges);
                assert(msg@ =~= elided_msg());
                assert(targets[t as int] == elided_target@);
                assert(elided_rows(targets.take(t + 1)) =~= elided_rows(targets.take(t as int)).push(
                    elided_row(elided_target@),
                ));
                assert(rows_view(out@) =~= rows_before + seq![real_row(node@, use_elided_nodes)]
                    + elided_rows(targets.take(t + 1)));
            }
            t = t + 1;
        }
        proof {
            assert(targets.take(t as int) =~= targets);
            assert(rows_view(out@) =~= rows_before + node_rows(node@, use_elided_nodes));
        }
        i = i + 1;
    }
    proof {
        assert(all.take(i as int) =~= all);
    }
    let heads = compute_heads(&parents, Ghost(all));
    RepoView { nodes: out, parents, heads }
}

/// The classified edges of the first `k` edges begin the classified edges
/// of all of them, and so do the elided targets.
pub proof fn lemma_classified_prefix(edges: Seq<GraphEdge<Seq<u8>>>, k: int, elide: bool)
    requires
        0 <= k <= edges.len(),
    ensures
        classified(edges.take(k), elide).is_prefix_of(classified(edges, elide)),
        elided_targets(edges.take(k), elide).is_prefix_of(elided_targets(edges, elide)),
    decreases edges.len() - k,
{
    if k == edges.len() {
        assert(edges.take(k) =~= edges);
    } else {
        lemma_classified_prefix(edges, k + 1, elide);
        assert(edges.take(k + 1).drop_last() =~= edges.take(k));
    }
}

/// The rows of the first `j` nodes begin the rows of all of them.
pub proof fn lemma_all_rows_prefix(nodes: Seq<NodeView>, j: int, elide: bool)
    requires
        0 <= j <= nodes.len(),
    ensures
        all_rows(nodes.take(j), elide).is_prefix_of(all_rows(nodes, elide)),
    decreases nodes.len() - j,
{
    if j == nodes.len() {
        assert(nodes.take(j) =~= nodes);
    } else {
        lemma_all_rows_prefix(nodes, j + 1, elide);
        assert(nodes.take(j + 1).drop_last() =~= nodes.take(j));
    }
}

/// Where elided history gets rows of its own, every indirect edge has its
/// placeholder row right below the row of the node that holds the edge:
/// the node's own row comes first, then the placeholders of its indirect
/// edges in the order of the edges. The node's row holds, in place of the
/// indirect edge, a direct edge to the placeholder; the placeholder has no
/// commit, and its one edge is a direct edge to the row of the target
/// itself.
pub proof fn lemma_elided_row_follows(nodes: Seq<NodeView>, j: int, k: int)
    requires
        0 <= j < nodes.len(),
        0 <= k < nodes[j].edges.len(),
        nodes[j].edges[k].edge_type == GraphEdgeType::Indirect,
    ensures
        ({
            let rows = all_rows(nodes, true);
            let start = all_rows(nodes.take(j), true).len() as int;
            let earlier = elided_targets(nodes[j].edges.take(k), true).len() as int;
            let drawn = classified(nodes[j].edges.take(k), true).len() as int;
            let target = nodes[j].edges[k].target;
            &&& start + 1 + earlier < rows.len()
            &&& rows[start] == real_row(nodes[j], true)
            &&& drawn < rows[start].edges.len()
            &&& rows[start].edges[drawn] == GraphEdge {
                target: (target, true),
                edge_type: GraphEdgeType::Direct,
            }
            &&& rows[start + 1 + earlier] == elided_row(target)
            &&& rows[start + 1 + earlier].key == (target, true)
            &&& rows[start + 1 + earlier].commit_id == None::<Seq<u8>>
            &&& rows[start + 1 + earlier].edges == seq![
                GraphEdge { target: (target, false), edge_type: GraphEdgeType::Direct },
            ]
        }),
{
    let node = nodes[j];
    let edges = node.edges;
    let target = edges[k].target;
    let rows = all_rows(nodes, true);
    let above = all_rows(nodes.take(j), true);
    let upto = all_rows(nodes.take(j + 1), true);
    lemma_all_rows_prefix(nodes, j + 1, true);
    assert(nodes.take(j + 1).drop_last() =~= nodes.take(j));
    assert(nodes.take(j + 1).last() == node);
    assert(upto == above + node_rows(node, true));

    lemma_classified_prefix(edges, k + 1, true);
    assert(edges.take(k + 1).drop_last() =~= edges.take(k));
    assert(edges.take(k + 1).last() == edges[k]);
    let earlier = elided_targets(edges.take(k), true).len() as int;
    let drawn = classified(edges.take(k), true).len() as int;
    assert(elided_targets(edges.take(k + 1), true)[earlier] == target);
    assert(elided_targets(edges, true)[earlier] == target);
    assert(classified(edges.take(k + 1), true)[drawn] == GraphEdge {
        target: (target, true),
        edge_type: GraphEdgeType::Direct,
    });
    assert(classified(edges, true)[drawn] == classified(edges.take(k + 1), true)[drawn]);
    assert(graphlog_edges(edges, true)[drawn] == classified(edges, true)[drawn]);

    assert(node_rows(node, true)[0] == real_row(node, true));
    assert(node_rows(node, true)[1 + earlier] == elided_row(target));
    assert(upto[above.len() as int] == real_row(node, true));
    assert(upto[above.len() + 1 + earlier] == elided_row(target));
    assert(rows[above.len() as int] == upto[above.len() as int]);
    assert(rows[above.len() + 1 + earlier] == upto[above.len() + 1 + earlier]);
}

/// A node gives one placeholder row for each of its indirect edges where
/// elided history gets rows of its own, and none otherwise.
pub proof fn lemma_elided_row_count(edges: Seq<GraphEdge<Seq<u8>>>, elide: bool)
    ensures
        elided_targets(edges, elide).len() == (if elide {
            edges.filter(|e: GraphEdge<Seq<u8>>| e.edge_type == GraphEdgeType::Indirect).len()
        } else {
            0
        }),
    decreases edges.len(),
{
    reveal(Seq::filter);
    if edges.len() > 0 {
        lemma_elided_row_count(edges.drop_last(), elide);
    }
}

/// How many indirect edges the nodes of a traversal hold.
pub open spec fn indirect_edges(nodes: Seq<NodeView>) -> int
    decreases nodes.len(),
{
    if nodes.len() == 0 {
        0
    } else {
        indirect_edges(nodes.drop_last()) + nodes.last().edges.filter(
            |e: GraphEdge<Seq<u8>>| e.edge_type == GraphEdgeType::Indirect,
        ).len()
    }
}

/// How many of `rows` are placeholder rows.
pub open spec fn placeholder_rows(rows: Seq<RowView>) -> int
    decreases rows.len(),
{
    if rows.len() == 0 {
        0
    } else {
        placeholder_rows(rows.drop_last()) + (if rows.last().key.1 {
            1int
        } else {
            0int
        })
    }
}

/// Counting placeholder rows goes row by row.
pub proof fn lemma_placeholder_rows_concat(a: Seq<RowView>, b: Seq<RowView>)
    ensures
        placeholder_rows(a + b) == placeholder_rows(a) + placeholder_rows(b),
    decreases b.len(),
{
    if b.len() == 0 {
        assert(a + b =~= a);
    } else {
        lemma_placeholder_rows_concat(a, b.drop_last());
        assert((a + b).drop_last() =~= a + b.drop_last());
        assert((a + b).last() == b.last());
    }
}

/// The placeholder rows for some targets are all placeholder rows.
pub proof fn lemma_elided_rows_are_placeholders(targets: Seq<Seq<u8>>)
    ensures
        placeholder_rows(elided_rows(targets)) == targets.len(),
    decreases targets.len(),
{
    if targets.len() > 0 {
        lemma_elided_rows_are_placeholders(targets.drop_last());
        assert(elided_rows(targets).drop_last() =~= elided_rows(targets.drop_last()));
    }
}

/// Over a whole traversal there is one row for each node and, where
/// elided history gets rows of its own, exactly one placeholder row for
/// each indirect edge; otherwise there is no placeholder row.
pub proof fn lemma_row_count(nodes: Seq<NodeView>, elide: bool)
    ensures
        placeholder_rows(all_rows(nodes, elide)) == (if elide {
            indirect_edges(nodes)
        } else {
            0
        }),
        all_rows(nodes, elide).len() == nodes.len() + placeholder_rows(all_rows(nodes, elide)),
    decreases nodes.len(),
{
    if nodes.len() > 0 {
        let node = nodes.last();
        lemma_row_count(nodes.drop_last(), elide);
        lemma_elided_row_count(node.edges, elide);
        let own = seq![real_row(node, elide)];
        let placeholders = elided_rows(elided_targets(node.edges, elide));
        lemma_elided_rows_are_placeholders(elided_targets(node.edges, elide));
        lemma_placeholder_rows_concat(own, placeholders);
        lemma_placeholder_rows_concat(all_rows(nodes.drop_last(), elide), own + placeholders);
        assert(placeholder_rows(own) == 0) by {
            reveal_with_fuel(placeholder_rows, 2);
            assert(own.drop_last() =~= Seq::<RowView>::empty());
        }
    }
}

/// Without rows for elided history, every row is the row of a commit and
/// there is one row for each node.
pub proof fn lemma_rows_without_elision(nodes: Seq<NodeView>)
    ensures
        all_rows(nodes, false).len() == nodes.len(),
        forall|r: int|
            0 <= r < nodes.len() ==> (#[trigger] all_rows(nodes, false)[r]) == real_row(
                nodes[r],
                false,
            ),
    decreases nodes.len(),
{
    if nodes.len() > 0 {
        lemma_rows_without_elision(nodes.drop_last());
        lemma_elided_row_count(nodes.last().edges, false);
        assert(node_rows(nodes.last(), false) =~= seq![real_row(nodes.last(), false)]);
    }
}

} // verus!
