use std::collections::BTreeSet;

use string_agg_state::fragment_graph::{
    FragmentDistributionType, FragmentType, GraphError, StreamFragment, StreamFragmentGraph,
};

#[test]
fn new_fragment_defaults() {
    let mut f = StreamFragment::new(3, "node");
    assert_eq!(f.get_fragment_id(), 3);
    assert_eq!(*f.get_node(), "node");
    assert!(!f.is_singleton());
    assert_eq!(f.fragment_type, FragmentType::Others);
    f.set_singleton(true);
    f.set_fragment_type(FragmentType::Sink);
    assert!(f.is_singleton());
    assert_eq!(f.fragment_type, FragmentType::Sink);
}

#[test]
fn graph_root_and_lookup() {
    let mut g: StreamFragmentGraph<&str> = StreamFragmentGraph::new(None);
    assert_eq!(g.fragment_id, 0);
    g.add_fragment(StreamFragment::new(1, "a"), false);
    let mut root = StreamFragment::new(2, "b");
    root.set_singleton(true);
    root.set_fragment_type(FragmentType::Source);
    g.add_fragment(root, true);
    assert_eq!(g.get_root_fragment().get_fragment_id(), 2);
    assert_eq!(*g.get_fragment_by_id(1).unwrap().get_node(), "a");
    assert!(g.get_fragment_by_id(9).is_none());
    assert_eq!(g.get_fragment_type_by_id(2), Ok(FragmentType::Source));
    assert_eq!(g.get_fragment_type_by_id(9), Err(GraphError::FragmentNotFound));
    assert_eq!(g.get_distribution_type_by_id(2), Ok(FragmentDistributionType::Single));
    assert_eq!(g.get_distribution_type_by_id(1), Ok(FragmentDistributionType::Hash));
    assert_eq!(g.get_distribution_type_by_id(7), Err(GraphError::FragmentNotFound));
    let g2: StreamFragmentGraph<&str> = StreamFragmentGraph::new(Some(5));
    assert_eq!(g2.fragment_id, 5);
}

#[test]
fn graph_links_children() {
    let mut g: StreamFragmentGraph<u8> = StreamFragmentGraph::new(Some(1));
    assert!(!g.has_upstream(1));
    assert_eq!(g.get_upstream_fragments(1), None);
    g.link_child(1, 3);
    g.link_child(1, 2);
    g.link_child(1, 3);
    g.link_child(4, 5);
    assert!(g.has_upstream(1));
    let expected: BTreeSet<u32> = [2, 3].into_iter().collect();
    assert_eq!(g.get_upstream_fragments(1), Some(expected));
    assert_eq!(g.get_upstream_fragments(4).unwrap().len(), 1);
}
