use kajet::explore::{ConnectionDirection, ExploreConnectionsInput};
use kajet::inputs::ExploreFilterMode;
use kajet::link_graph::{
    connections_view, edge_context, edge_source, explore_links, ChunkLinks, ExploreGraph,
    LinkedNote,
};
use kajet::Link;

fn note(path: &str, outgoing: &[&str], backlinks: &[&str]) -> LinkedNote {
    LinkedNote {
        path: path.to_string(),
        outgoing_links: outgoing.iter().map(|p| p.to_string()).collect(),
        backlinks: backlinks.iter().map(|p| p.to_string()).collect(),
    }
}

fn input(depth: usize) -> ExploreConnectionsInput {
    ExploreConnectionsInput {
        path: "a.md".to_string(),
        depth,
        limit: 50,
        dedup: true,
        include_context: false,
        filter_mode: ExploreFilterMode::Display,
        from_ts: None,
        to_ts: None,
        folder: None,
        tags: None,
    }
}

fn paths(g: &ExploreGraph) -> Vec<String> {
    g.nodes.iter().map(|n| n.path.clone()).collect()
}

fn square() -> Vec<LinkedNote> {
    vec![
        note("a.md", &["b.md"], &["c.md"]),
        note("b.md", &[], &["a.md", "d.md"]),
        note("c.md", &["a.md"], &[]),
        note("d.md", &["b.md"], &[]),
    ]
}

#[test]
fn traversal_orders_neighbors_by_degree() {
    let notes = square();
    let g = explore_links(&notes, 0, &vec![true; 4], &input(3));
    let p = paths(&g);
    let b_pos = p.iter().position(|x| x == "b.md").expect("contains b.md");
    let c_pos = p.iter().position(|x| x == "c.md").expect("contains c.md");
    assert!(b_pos < c_pos, "higher-degree node should be shown first");
}

#[test]
fn breadth_first_walk_of_a_small_vault() {
    let notes = square();
    let g = explore_links(&notes, 0, &vec![true; 4], &input(3));
    assert_eq!(paths(&g), vec!["a.md", "b.md", "c.md", "a.md", "d.md", "a.md", "b.md"]);
    let parents: Vec<usize> = g.nodes.iter().map(|n| n.parent).collect();
    assert_eq!(parents, vec![0, 0, 0, 1, 1, 2, 4]);
    let depths: Vec<usize> = g.nodes.iter().map(|n| n.depth).collect();
    assert_eq!(depths, vec![0, 1, 1, 2, 2, 2, 3]);
    let degrees: Vec<usize> = g.nodes.iter().map(|n| n.degree).collect();
    assert_eq!(degrees, vec![2, 2, 1, 2, 1, 2, 2]);
    let cycles: Vec<bool> = g.nodes.iter().map(|n| n.cycle).collect();
    assert_eq!(cycles, vec![false, false, false, true, false, true, true]);
    assert_eq!(g.nodes[0].direction, None);
    assert_eq!(g.nodes[1].direction, Some(ConnectionDirection::Outgoing));
    assert_eq!(g.nodes[2].direction, Some(ConnectionDirection::Backlink));
    assert_eq!(g.nodes[3].direction, Some(ConnectionDirection::Backlink));
    assert_eq!(g.nodes[5].direction, Some(ConnectionDirection::Outgoing));
    assert_eq!(g.unique_nodes, 4);
    assert_eq!(g.shown_nodes, 7);
    assert_eq!(g.max_depth_reached, 3);
    assert!(!g.truncated);
    assert!(!g.filtered_results_empty);
}

#[test]
fn every_shown_node_is_linked_with_the_note_it_was_reached_from() {
    let notes = square();
    let g = explore_links(&notes, 0, &vec![true; 4], &input(3));
    for n in g.nodes.iter().skip(1) {
        let from = &notes[n.from];
        let linked = from.outgoing_links.contains(&n.path) || from.backlinks.contains(&n.path);
        assert!(linked, "{} is not linked with {}", n.path, from.path);
        assert!(n.parent < g.nodes.len());
        assert!(g.nodes[n.parent].depth < n.depth);
    }
}

#[test]
fn display_mode_traverses_through_filtered_nodes() {
    let notes = vec![
        note("a.md", &["b.md"], &[]),
        note("b.md", &["c.md"], &["a.md"]),
        note("c.md", &[], &["b.md"]),
    ];
    let mut req = input(2);
    req.tags = Some(vec!["keep".to_string()]);
    req.filter_mode = ExploreFilterMode::Display;
    let g = explore_links(&notes, 0, &vec![true, false, true], &req);
    let p = paths(&g);
    assert!(p.contains(&"a.md".to_string()));
    assert!(!p.contains(&"b.md".to_string()));
    assert!(p.contains(&"c.md".to_string()));
    assert_eq!(g.nodes[1].parent, 0);
    assert_eq!(g.nodes[1].depth, 2);
    assert!(!g.filtered_results_empty);
}

#[test]
fn traverse_mode_does_not_enter_notes_that_do_not_match() {
    let notes = vec![
        note("a.md", &["b.md"], &[]),
        note("b.md", &["c.md"], &["a.md"]),
        note("c.md", &[], &["b.md"]),
    ];
    let mut req = input(2);
    req.tags = Some(vec!["keep".to_string()]);
    req.filter_mode = ExploreFilterMode::Traverse;
    let g = explore_links(&notes, 0, &vec![true, false, true], &req);
    assert_eq!(paths(&g), vec!["a.md"]);
    assert_eq!(g.max_depth_reached, 0);
}

#[test]
fn traverse_mode_with_a_start_note_that_does_not_match_shows_it_alone() {
    let notes = square();
    let mut req = input(3);
    req.folder = Some("journal".to_string());
    req.filter_mode = ExploreFilterMode::Traverse;
    let g = explore_links(&notes, 0, &vec![false, true, true, true], &req);
    assert_eq!(paths(&g), vec!["a.md"]);
    assert_eq!(g.unique_nodes, 1);
    assert_eq!(g.shown_nodes, 1);
    assert!(g.filtered_results_empty);
}

#[test]
fn include_context_uses_chunk_breadcrumbs() {
    let notes = vec![note("a.md", &["b.md"], &[]), note("b.md", &[], &["a.md"])];
    let mut req = input(1);
    req.include_context = true;
    let g = explore_links(&notes, 0, &vec![true, true], &req);
    let chunks = vec![ChunkLinks {
        note_path: "a.md".to_string(),
        breadcrumb: "a.md > Core concepts".to_string(),
        links: vec![Link {
            target: "b".to_string(),
            alias: None,
            resolved_path: Some("b.md".to_string()),
        }],
    }];
    let mut contexts = vec![None];
    for n in g.nodes.iter().skip(1) {
        let dir = n.direction.expect("a shown neighbor has a direction");
        let (source, target) = edge_source(&notes[n.from].path, &n.path, dir);
        assert_eq!(source, "a.md");
        contexts.push(edge_context(&chunks, &target));
    }
    let view = connections_view(&req, &g, &contexts);
    assert_eq!(view.start_path, "a.md");
    assert_eq!(view.root.children.len(), 1);
    assert_eq!(view.root.children[0].path, "b.md");
    assert_eq!(view.root.children[0].context.as_deref(), Some("Core concepts"));
}

#[test]
fn backlink_context_is_read_from_the_linking_note() {
    let (source, target) = edge_source("a.md", "b.md", ConnectionDirection::Backlink);
    assert_eq!(source, "b.md");
    assert_eq!(target, "a.md");
    let (source, target) = edge_source("a.md", "b.md", ConnectionDirection::Both);
    assert_eq!(source, "a.md");
    assert_eq!(target, "b.md");
}

#[test]
fn edge_context_takes_the_first_chunk_with_a_section() {
    let link = |p: &str| Link { target: p.to_string(), alias: None, resolved_path: Some(p.to_string()) };
    let chunks = vec![
        ChunkLinks { note_path: "a.md".into(), breadcrumb: "a.md".into(), links: vec![link("b.md")] },
        ChunkLinks { note_path: "a.md".into(), breadcrumb: "a.md > Intro".into(), links: vec![link("c.md")] },
        ChunkLinks { note_path: "a.md".into(), breadcrumb: "a.md > Body > Detail".into(), links: vec![link("b.md")] },
        ChunkLinks { note_path: "a.md".into(), breadcrumb: "a.md > Later".into(), links: vec![link("b.md")] },
    ];
    assert_eq!(edge_context(&chunks, "b.md").as_deref(), Some("Detail"));
    assert_eq!(edge_context(&chunks, "c.md").as_deref(), Some("Intro"));
    assert_eq!(edge_context(&chunks, "z.md"), None);
}

#[test]
fn dedup_false_shows_node_on_multiple_paths() {
    let notes = vec![
        note("a.md", &["b.md", "c.md"], &[]),
        note("b.md", &["d.md"], &["a.md"]),
        note("c.md", &["d.md"], &["a.md"]),
        note("d.md", &[], &["b.md", "c.md"]),
    ];
    let mut req = input(2);
    req.dedup = false;
    let g = explore_links(&notes, 0, &vec![true; 4], &req);
    let d_count = paths(&g).iter().filter(|p| *p == "d.md").count();
    assert!(d_count >= 2, "d.md should appear on both branches");
    assert_eq!(paths(&g), vec!["a.md", "b.md", "c.md", "a.md", "d.md", "a.md", "d.md"]);
    assert_eq!(g.unique_nodes, 4);
}

#[test]
fn display_mode_with_non_matching_filters_has_no_phantom_root_cycles() {
    let notes = vec![note("a.md", &["b.md"], &["b.md"]), note("b.md", &["a.md"], &["a.md"])];
    let mut req = input(2);
    req.tags = Some(vec!["missing".to_string()]);
    req.filter_mode = ExploreFilterMode::Display;
    let g = explore_links(&notes, 0, &vec![false, false], &req);
    assert!(g.filtered_results_empty);
    assert_eq!(paths(&g), vec!["a.md"]);
    assert_eq!(g.max_depth_reached, 1);
}

#[test]
fn the_node_limit_cuts_the_walk_short() {
    let notes = square();
    let mut req = input(3);
    req.limit = 2;
    let g = explore_links(&notes, 0, &vec![true; 4], &req);
    assert_eq!(paths(&g), vec!["a.md", "b.md"]);
    assert!(g.truncated);
    assert_eq!(g.shown_nodes, 2);
    req.limit = 0;
    let g = explore_links(&notes, 0, &vec![true; 4], &req);
    assert_eq!(paths(&g), vec!["a.md"]);
    assert!(g.truncated);
}

#[test]
fn a_later_note_with_the_same_path_stands_for_it() {
    let notes = vec![
        note("a.md", &["b.md"], &[]),
        note("b.md", &[], &[]),
        note("a.md", &["c.md"], &[]),
        note("c.md", &[], &[]),
    ];
    let g = explore_links(&notes, 0, &vec![true; 4], &input(1));
    assert_eq!(g.nodes[0].note, 2);
    assert_eq!(paths(&g), vec!["a.md", "c.md"]);
}

#[test]
fn depth_zero_shows_only_the_start_note() {
    let notes = square();
    let g = explore_links(&notes, 0, &vec![true; 4], &input(0));
    assert_eq!(paths(&g), vec!["a.md"]);
    assert_eq!(g.max_depth_reached, 0);
}

#[test]
fn tree_view_nests_nodes_under_their_parents() {
    let notes = square();
    let g = explore_links(&notes, 0, &vec![true; 4], &input(3));
    let contexts = vec![None; g.nodes.len()];
    let view = connections_view(&input(3), &g, &contexts);
    let kids: Vec<&str> = view.root.children.iter().map(|c| c.path.as_str()).collect();
    assert_eq!(kids, vec!["b.md", "c.md"]);
    let under_b: Vec<&str> = view.root.children[0].children.iter().map(|c| c.path.as_str()).collect();
    assert_eq!(under_b, vec!["a.md", "d.md"]);
    assert_eq!(view.root.children[0].children[1].children[0].path, "b.md");
    assert!(view.root.children[0].children[1].children[0].cycle);
    assert_eq!(view.unique_nodes, 4);
    assert_eq!(view.shown_nodes, 7);
}

#[test]
fn with_repeats_skipped_a_note_shows_once_besides_cycles() {
    let notes = vec![
        note("a.md", &["b.md", "c.md"], &[]),
        note("b.md", &["d.md"], &["a.md"]),
        note("c.md", &["d.md"], &["a.md"]),
        note("d.md", &[], &["b.md", "c.md"]),
    ];
    let g = explore_links(&notes, 0, &vec![true; 4], &input(3));
    let mut plain: Vec<&str> = g.nodes.iter().filter(|n| !n.cycle).map(|n| n.path.as_str()).collect();
    assert_eq!(plain, vec!["a.md", "b.md", "c.md", "d.md"]);
    plain.dedup();
    assert_eq!(plain.len(), 4);
    assert!(g.nodes.iter().filter(|n| n.path == "d.md").count() >= 2);
}

fn count_nodes(t: &kajet::link_graph::ExploreNodeView) -> usize {
    1 + t.children.iter().map(count_nodes).sum::<usize>()
}

fn children_deeper(t: &kajet::link_graph::ExploreNodeView) -> bool {
    t.children.iter().all(|c| c.depth > t.depth && children_deeper(c))
}

#[test]
fn the_tree_shows_every_node_under_a_shallower_parent() {
    let notes = square();
    for depth in 1..4 {
        let mut inp = input(depth);
        inp.dedup = false;
        let g = explore_links(&notes, 0, &vec![true; 4], &inp);
        let contexts = vec![None; g.nodes.len()];
        let view = connections_view(&inp, &g, &contexts);
        assert_eq!(count_nodes(&view.root), view.shown_nodes);
        assert!(children_deeper(&view.root));
    }
}
