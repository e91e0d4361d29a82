use kahva::backend::is_head_cell;
use kahva::backend::reload;
use kahva::backend::GraphNode;
use kahva::backend::RepoView;
use kahva::formatter::ColorFormatter;
use kahva::graph::CommitId;
use kahva::graph::GraphEdge;
use kahva::graph::GraphEdgeType;
use kahva::recorder::FormatOp;
use kahva::recorder::FormatRecorder;
use renderdag::Ancestor;
use renderdag::GraphRowRenderer;
use renderdag::NodeLine;
use renderdag::Renderer;
use std::sync::Arc;

fn id(name: &str) -> CommitId {
    CommitId::from_bytes(name.as_bytes())
}

fn text(line: &str) -> FormatRecorder {
    let mut msg = FormatRecorder::new();
    msg.write_all(line.as_bytes());
    msg
}

fn node(name: &str, edges: Vec<GraphEdge<CommitId>>) -> GraphNode {
    GraphNode { commit_id: id(name), edges, msg: text(name) }
}

fn sorted_names(ids: &[CommitId]) -> Vec<Vec<u8>> {
    let mut names: Vec<Vec<u8>> = ids.iter().map(|c| c.as_bytes().to_vec()).collect();
    names.sort();
    names
}

#[test]
fn elided_history_gets_a_row_between_the_commits() {
    let nodes = vec![
        node("A", vec![GraphEdge::direct(id("B"))]),
        node("B", vec![GraphEdge::indirect(id("C"))]),
        node("C", vec![]),
    ];
    let view = reload(&nodes, true);

    assert_eq!(view.nodes.len(), 4);

    assert_eq!(view.nodes[0].commit_id, Some(id("A")));
    assert_eq!(view.nodes[0].key, (id("A"), false));
    assert_eq!(view.nodes[0].edges, vec![GraphEdge::direct((id("B"), false))]);

    assert_eq!(view.nodes[1].commit_id, Some(id("B")));
    assert_eq!(view.nodes[1].key, (id("B"), false));
    assert_eq!(view.nodes[1].edges, vec![GraphEdge::direct((id("C"), true))]);

    assert_eq!(view.nodes[2].commit_id, None);
    assert_eq!(view.nodes[2].key, (id("C"), true));
    assert_eq!(view.nodes[2].edges, vec![GraphEdge::direct((id("C"), false))]);

    assert_eq!(view.nodes[3].commit_id, Some(id("C")));
    assert_eq!(view.nodes[3].key, (id("C"), false));
    assert!(view.nodes[3].edges.is_empty());

    assert_eq!(sorted_names(&view.heads), vec![b"A".to_vec()]);
}

#[test]
fn indirect_edge_stays_indirect_without_elided_rows() {
    let nodes = vec![
        node("A", vec![GraphEdge::direct(id("B"))]),
        node("B", vec![GraphEdge::indirect(id("C"))]),
        node("C", vec![]),
    ];
    let view = reload(&nodes, false);

    assert_eq!(view.nodes.len(), 3);
    assert_eq!(view.nodes[1].edges, vec![GraphEdge::indirect((id("C"), false))]);
    assert_eq!(view.nodes[1].edges[0].edge_type, GraphEdgeType::Indirect);
    assert_eq!(view.nodes[2].key, (id("C"), false));
    assert!(view.nodes.iter().all(|n| !n.key.1 && n.commit_id.is_some()));
    assert_eq!(sorted_names(&view.heads), vec![b"A".to_vec()]);
}

#[test]
fn rows_carry_the_lanes_of_the_renderer() {
    let nodes = vec![
        node("A", vec![GraphEdge::direct(id("B")), GraphEdge::direct(id("C"))]),
        node("B", vec![GraphEdge::indirect(id("C"))]),
        node("C", vec![GraphEdge::missing(id("Z"))]),
    ];
    let view = reload(&nodes, true);
    assert_eq!(view.nodes.len(), 4);

    let mut graph: GraphRowRenderer<(CommitId, bool)> = GraphRowRenderer::new();
    let expected = vec![
        graph.next_row(
            (id("A"), false),
            vec![Ancestor::Parent((id("B"), false)), Ancestor::Parent((id("C"), false))],
            "o".to_owned(),
            String::new(),
        ),
        graph.next_row(
            (id("B"), false),
            vec![Ancestor::Parent((id("C"), true))],
            "o".to_owned(),
            String::new(),
        ),
        graph.next_row(
            (id("C"), true),
            vec![Ancestor::Parent((id("C"), false))],
            "o".to_owned(),
            "(elided revisions)".to_owned(),
        ),
        graph.next_row((id("C"), false), vec![Ancestor::Anonymous], "o".to_owned(), String::new()),
    ];
    for (got, want) in view.nodes.iter().zip(expected.iter()) {
        assert_eq!(got.row.node, want.node);
        assert_eq!(got.row.node, got.key);
        assert_eq!(got.row.glyph, "o");
        assert_eq!(got.row.message, want.message);
        assert_eq!(got.row.merge, want.merge);
        assert_eq!(got.row.node_line, want.node_line);
        assert_eq!(got.row.link_line, want.link_line);
        assert_eq!(got.row.term_line, want.term_line);
        assert_eq!(got.row.pad_lines, want.pad_lines);
    }
    assert!(view.nodes[0].row.merge);
    assert_eq!(view.nodes[0].row.node_line, vec![NodeLine::Node, NodeLine::Blank]);
    assert_eq!(view.nodes[1].row.node_line, vec![NodeLine::Node, NodeLine::Parent]);
    assert_eq!(view.nodes[2].row.message, "(elided revisions)");
    assert_eq!(view.nodes[3].row.term_line, Some(vec![true]));
}

#[test]
fn a_missing_edge_is_laid_out_last_and_only_once() {
    let nodes = vec![node(
        "A",
        vec![
            GraphEdge::missing(id("X")),
            GraphEdge::direct(id("B")),
            GraphEdge::missing(id("Y")),
            GraphEdge::indirect(id("C")),
        ],
    )];
    let view = reload(&nodes, false);
    assert_eq!(
        view.nodes[0].edges,
        vec![
            GraphEdge::direct((id("B"), false)),
            GraphEdge::indirect((id("C"), false)),
            GraphEdge::missing((id("Y"), false)),
        ]
    );
    assert_eq!(view.parents.len(), 1);
    assert_eq!(view.parents[0].0, id("A"));
    assert_eq!(view.parents[0].1, vec![id("X"), id("B"), id("Y"), id("C")]);
}

#[test]
fn every_indirect_edge_gets_its_own_row_in_order() {
    let nodes = vec![
        node(
            "A",
            vec![
                GraphEdge::indirect(id("B")),
                GraphEdge::direct(id("C")),
                GraphEdge::indirect(id("D")),
            ],
        ),
        node("E", vec![GraphEdge::indirect(id("B"))]),
    ];
    let view = reload(&nodes, true);
    let keys: Vec<(CommitId, bool)> = view.nodes.iter().map(|n| n.key.clone()).collect();
    assert_eq!(
        keys,
        vec![
            (id("A"), false),
            (id("B"), true),
            (id("D"), true),
            (id("E"), false),
            (id("B"), true),
        ]
    );
    assert_eq!(
        view.nodes[0].edges,
        vec![
            GraphEdge::direct((id("B"), true)),
            GraphEdge::direct((id("C"), false)),
            GraphEdge::direct((id("D"), true)),
        ]
    );
    for row in [1usize, 2, 4] {
        let placeholder = &view.nodes[row];
        assert_eq!(placeholder.commit_id, None);
        assert_eq!(
            placeholder.edges,
            vec![GraphEdge::direct((placeholder.key.0.clone(), false))]
        );
    }
    let synthetic = view.nodes.iter().filter(|n| n.key.1).count();
    assert_eq!(synthetic, 3);
}

#[test]
fn heads_are_the_commits_that_no_edge_points_to() {
    let nodes = vec![
        node("A", vec![GraphEdge::direct(id("C"))]),
        node("B", vec![GraphEdge::indirect(id("D"))]),
        node("C", vec![GraphEdge::missing(id("E"))]),
        node("D", vec![]),
        node("E", vec![]),
        node("F", vec![]),
    ];
    for elide in [false, true] {
        let view = reload(&nodes, elide);
        assert_eq!(
            sorted_names(&view.heads),
            vec![b"A".to_vec(), b"B".to_vec(), b"F".to_vec()]
        );
    }
}

#[test]
fn heads_do_not_depend_on_the_order_of_the_traversal() {
    let forward = vec![
        node("A", vec![GraphEdge::direct(id("B"))]),
        node("B", vec![]),
        node("C", vec![GraphEdge::direct(id("B"))]),
    ];
    let backward = vec![
        node("C", vec![GraphEdge::direct(id("B"))]),
        node("B", vec![]),
        node("A", vec![GraphEdge::direct(id("B"))]),
    ];
    assert_eq!(
        sorted_names(&reload(&forward, true).heads),
        sorted_names(&reload(&backward, true).heads)
    );
    assert_eq!(sorted_names(&reload(&forward, true).heads), vec![b"A".to_vec(), b"C".to_vec()]);
}

#[test]
fn a_commit_that_points_to_itself_is_no_head() {
    let nodes = vec![node("A", vec![GraphEdge::direct(id("A"))])];
    let view = reload(&nodes, false);
    assert!(view.heads.is_empty());
}

#[test]
fn parents_record_every_target_of_every_node() {
    let nodes = vec![
        node("A", vec![GraphEdge::direct(id("B")), GraphEdge::indirect(id("C"))]),
        node("B", vec![]),
        node("A", vec![GraphEdge::missing(id("D"))]),
    ];
    let view = reload(&nodes, true);
    assert_eq!(view.parents.len(), 2);
    assert_eq!(view.parents[0].0, id("A"));
    assert_eq!(view.parents[0].1, vec![id("B"), id("C"), id("D")]);
    assert_eq!(view.parents[1].0, id("B"));
    assert!(view.parents[1].1.is_empty());
    assert_eq!(view.heads, vec![id("A")]);
}

#[test]
fn no_nodes_give_an_empty_view() {
    let view = reload(&[], true);
    assert!(view.nodes.is_empty());
    assert!(view.parents.is_empty());
    assert!(view.heads.is_empty());
    let empty = RepoView::default();
    assert!(empty.nodes.is_empty() && empty.parents.is_empty() && empty.heads.is_empty());
}

#[test]
fn rows_keep_the_text_of_their_nodes() {
    let nodes = vec![node("A", vec![GraphEdge::indirect(id("B"))])];
    let view = reload(&nodes, true);
    assert_eq!(view.nodes[0].msg.len(), 1);
    assert!(matches!(view.nodes[0].msg.op(0), FormatOp::Write(data) if data == b"A"));

    let placeholder = &view.nodes[1].msg;
    assert_eq!(placeholder.len(), 3);
    assert!(matches!(placeholder.op(0), FormatOp::PushLabel(label) if label == "elided"));
    assert!(matches!(placeholder.op(1), FormatOp::Write(data) if data == b"(elided revisions)"));
    assert!(matches!(placeholder.op(2), FormatOp::PopLabel));

    let mut formatter = ColorFormatter::new(Arc::new(vec![]), false);
    assert!(placeholder.replay(&mut formatter));
    let job = formatter.take();
    assert_eq!(job.text, b"(elided revisions)".to_vec());
}

#[test]
fn a_head_starts_in_the_last_cell_of_its_row() {
    let heads = vec![id("A"), id("B")];
    assert!(is_head_cell(2, 3, &Some(id("A")), &heads));
    assert!(is_head_cell(0, 1, &Some(id("B")), &heads));
    assert!(!is_head_cell(1, 3, &Some(id("A")), &heads));
    assert!(!is_head_cell(3, 3, &Some(id("A")), &heads));
    assert!(!is_head_cell(2, 3, &Some(id("C")), &heads));
    assert!(!is_head_cell(2, 3, &None, &heads));
    assert!(!is_head_cell(0, 0, &Some(id("A")), &heads));
    assert!(!is_head_cell(usize::MAX, 0, &Some(id("A")), &heads));
    assert!(!is_head_cell(0, 1, &Some(id("A")), &Vec::new()));
}
