//! The lane renderer that lays out one graph row at a time.
//!
//! The renderer keeps the lanes that are open between rows, so what it
//! returns for a row depends on the lanes that the rows before have left.
//! The contracts here speak of those lanes and leave the layout itself
//! unread.

use vstd::prelude::*;
use renderdag::Ancestor;
use renderdag::GraphRow;
use renderdag::GraphRowRenderer;
use renderdag::Renderer;
use crate::graph::CommitId;
use crate::graph::GraphEdge;
use crate::graph::GraphEdgeType;

verus! {

/// `renderdag::Ancestor`: how a row is linked to one of its parents, with
/// its three variants as the crate declares them.
#[verifier::external_type_specification]
#[verifier::reject_recursive_types(N)]
pub struct ExAncestor<N>(Ancestor<N>);

/// `renderdag::GraphRow`: the layout of one row. Nothing in this library
/// reads it.
#[verifier::external_type_specification]
#[verifier::external_body]
#[verifier::reject_recursive_types(N)]
pub struct ExGraphRow<N>(GraphRow<N>);

/// `renderdag::GraphRowRenderer`: the renderer, which holds nothing but
/// its lanes.
#[verifier::external_type_specification]
#[verifier::external_body]
#[verifier::reject_recursive_types(N)]
pub struct ExGraphRowRenderer<N>(GraphRowRenderer<N>);

/// The key of a row: a commit, and whether the row stands for elided history.
pub type RowKey = (CommitId, bool);

/// A row key as a mathematical value.
pub type KeyView = (Seq<u8>, bool);

/// The mathematical value of a row key.
pub open spec fn key_view(key: RowKey) -> KeyView {
    (key.0@, key.1)
}

/// A link as a mathematical value.
pub open spec fn ancestor_view(ancestor: Ancestor<RowKey>) -> Ancestor<KeyView> {
    match ancestor {
        Ancestor::Ancestor(key) => Ancestor::Ancestor(key_view(key)),
        Ancestor::Parent(key) => Ancestor::Parent(key_view(key)),
        Ancestor::Anonymous => Ancestor::Anonymous,
    }
}

/// Links as mathematical values.
pub open spec fn ancestors_view(ancestors: Seq<Ancestor<RowKey>>) -> Seq<Ancestor<KeyView>> {
    ancestors.map_values(|a: Ancestor<RowKey>| ancestor_view(a))
}

/// One lane of the renderer between two rows.
pub enum Lane {
    /// No row waits in the lane.
    Empty,
    /// The lane is taken by a link without a target while a row is laid out.
    Blocked,
    /// The lane is kept for a row.
    Reserved(KeyView),
    /// The lane leads to a row that is an ancestor of a row above.
    Ancestor(KeyView),
    /// The lane leads to a row that is a parent of a row above.
    Parent(KeyView),
}

/// The lanes that a renderer holds, from left to right.
pub uninterp spec fn open_lanes(graph: GraphRowRenderer<RowKey>) -> Seq<Lane>;

/// The lanes that a renderer holds once it has laid out the row of `node`
/// with the links `parents`, having held `lanes` before.
pub uninterp spec fn lanes_after(
    lanes: Seq<Lane>,
    node: KeyView,
    parents: Seq<Ancestor<KeyView>>,
) -> Seq<Lane>;

/// The layout that a renderer which holds `lanes` returns for the next
/// row.
pub uninterp spec fn rendered_row(
    lanes: Seq<Lane>,
    node: KeyView,
    parents: Seq<Ancestor<KeyView>>,
    glyph: Seq<char>,
    message: Seq<char>,
) -> GraphRow<RowKey>;

/// `GraphRowRenderer::new`: a renderer that holds no lane.
#[verifier::external_body]
pub(crate) fn new_renderer() -> (graph: GraphRowRenderer<RowKey>)
    ensures
        open_lanes(graph) == Seq::<Lane>::empty(),
{
    GraphRowRenderer::new()
}

/// `Renderer::next_row` of `GraphRowRenderer`: lays out the row of `node`
/// over the lanes that the renderer holds. The layout is a function of
/// those lanes and of the arguments, and so are the lanes that the
/// renderer holds afterwards, which depend on the node and its links
/// alone.
#[verifier::external_body]
pub(crate) fn next_row(
    graph: &mut GraphRowRenderer<RowKey>,
    node: RowKey,
    parents: Vec<Ancestor<RowKey>>,
    glyph: String,
    message: String,
) -> (row: GraphRow<RowKey>)
    ensures
        row == rendered_row(
            open_lanes(*old(graph)),
            key_view(node),
            ancestors_view(parents@),
            glyph@,
            message@,
        ),
        open_lanes(*final(graph)) == lanes_after(
            open_lanes(*old(graph)),
            key_view(node),
            ancestors_view(parents@),
        ),
{
    graph.next_row(node, parents, glyph, message)
}

/// The link that the renderer draws for an edge: a parent for a direct
/// edge, an ancestor for an indirect one, and a lane that ends with no
/// target for a missing one.
pub open spec fn into_ancestor(edge: GraphEdge<KeyView>) -> Ancestor<KeyView> {
    match edge.edge_type {
        GraphEdgeType::Direct => Ancestor::Parent(edge.target),
        GraphEdgeType::Indirect => Ancestor::Ancestor(edge.target),
        GraphEdgeType::Missing => Ancestor::Anonymous,
    }
}

/// A classified edge as a mathematical value.
pub open spec fn link_view(edge: GraphEdge<RowKey>) -> GraphEdge<KeyView> {
    GraphEdge { target: key_view(edge.target), edge_type: edge.edge_type }
}

/// Classified edges as mathematical values.
pub open spec fn links_view(edges: Seq<GraphEdge<RowKey>>) -> Seq<GraphEdge<KeyView>> {
    edges.map_values(|e: GraphEdge<RowKey>| link_view(e))
}

/// The links of `edges`, in order.
pub open spec fn into_ancestors(edges: Seq<GraphEdge<KeyView>>) -> Seq<Ancestor<KeyView>> {
    edges.map_values(|e: GraphEdge<KeyView>| into_ancestor(e))
}

/// Turns a classified edge into the link that the renderer draws for it.
pub fn convert_graph_edge_into_ancestor(edge: &GraphEdge<RowKey>) -> (ancestor: Ancestor<RowKey>)
    ensures
        ancestor_view(ancestor) == into_ancestor(link_view(*edge)),
{
    match edge.edge_type {
        GraphEdgeType::Direct => Ancestor::Parent((edge.target.0.clone(), edge.target.1)),
        GraphEdgeType::Indirect => Ancestor::Ancestor((edge.target.0.clone(), edge.target.1)),
        GraphEdgeType::Missing => Ancestor::Anonymous,
    }
}

/// The links of `edges`, in order, as the renderer takes them.
pub fn convert_graph_edges(edges: &Vec<GraphEdge<RowKey>>) -> (ancestors: Vec<Ancestor<RowKey>>)
    ensures
        ancestors_view(ancestors@) == into_ancestors(links_view(edges@)),
{
    let mut ancestors: Vec<Ancestor<RowKey>> = Vec::new();
    let mut i: usize = 0;
    while i < edges.len()
        invariant
            0 <= i <= edges@.len(),
            ancestors@.len() == i,
            forall|k: int|
                0 <= k < i ==> ancestor_view(#[trigger] ancestors@[k]) == into_ancestor(
                    link_view(edges@[k]),
                ),
        decreases edges@.len() - i,
    {
        let ancestor = convert_graph_edge_into_ancestor(&edges[i]);
        ancestors.push(ancestor);
        i = i + 1;
    }
    proof {
        assert(ancestors_view(ancestors@) =~= into_ancestors(links_view(edges@)));
    }
    ancestors
}

} // verus!
