use tbgp::edge::Edge;

fn graph() -> Vec<Edge> {
    vec![
        Edge::new(1, 1, 2, 0, 5),
        Edge::new(2, 2, 1, 0, 3),
        Edge::new(3, 2, 3, 0, 7),
        Edge::new(4, 3, 1, 0, 2),
        Edge::new(5, 3, 1, 0, 9),
    ]
}

#[test]
fn default_edge_is_all_zero() {
    let e = Edge::default();
    assert_eq!((e.eid, e.src, e.dst, e.label, e.first), (0, 0, 0, 0, 0));
}

#[test]
fn new_edge_keeps_its_fields() {
    let e = Edge::new(9, 8, 7, 6, 5);
    assert_eq!((e.eid, e.src, e.dst, e.label, e.first), (9, 8, 7, 6, 5));
}

#[test]
fn src_index_groups_outgoing_edges_in_order() {
    let edges = graph();
    let idx = Edge::get_src_index(&edges);
    assert_eq!(idx.len(), 3);
    let from3: Vec<usize> = idx[&3].iter().map(|e| e.eid).collect();
    assert_eq!(from3, vec![4, 5]);
    let from2: Vec<usize> = idx[&2].iter().map(|e| e.eid).collect();
    assert_eq!(from2, vec![2, 3]);
    assert!(!idx.contains_key(&7));
}

#[test]
fn dst_index_groups_incoming_edges_in_order() {
    let edges = graph();
    let idx = Edge::get_dst_index(&edges);
    let into1: Vec<usize> = idx[&1].iter().map(|e| e.eid).collect();
    assert_eq!(into1, vec![2, 4, 5]);
    assert_eq!(idx.len(), 3);
}

#[test]
fn link_index_keeps_the_first_parallel_edge() {
    let edges = graph();
    let idx = Edge::get_srt_dst_index(&edges);
    assert_eq!(idx.len(), 4);
    assert_eq!(idx[&(3, 1)].eid, 4);
    assert_eq!(idx[&(1, 2)].eid, 1);
    assert!(idx.get(&(1, 3)).is_none());
}

#[test]
fn node_lists_are_sorted_and_distinct() {
    let edges = vec![Edge::new(1, 9, 4, 0, 0), Edge::new(2, 4, 1, 0, 0), Edge::new(3, 9, 1, 0, 0)];
    assert_eq!(Edge::get_all_nodes(&edges), vec![1, 4, 9]);
    assert_eq!(Edge::get_all_src_nodes(&edges), vec![4, 9]);
    assert_eq!(Edge::get_all_dst_nodes(&edges), vec![1, 4]);
    assert!(Edge::get_all_nodes(&vec![]).is_empty());
}

#[test]
fn all_nodes_are_the_union_of_source_and_destination_nodes() {
    let edges = graph();
    let mut union = Edge::get_all_src_nodes(&edges);
    union.extend(Edge::get_all_dst_nodes(&edges));
    union.sort();
    union.dedup();
    assert_eq!(Edge::get_all_nodes(&edges), union);
}
