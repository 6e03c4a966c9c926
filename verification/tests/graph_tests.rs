use graphs::GraphError;
use graphs::graph::Graph as PlainGraph;
use graphs::graphs::Graph;
use graphs::graphs::cycle::cycle;
use graphs::graphs::path::Path;
use graphs::graphs::paths::Path as UndirectedPath;
use graphs::graphs::undirected::Undirected;

// The edge list of the small four-vertex description
// (4 vertices, 4 edges: 0-1, 1-3, 3-1, 0-0).
fn very_tiny_undirected() -> Graph {
    let mut g = Graph::new_undirected(4);
    g.add_edge(0, 1).unwrap();
    g.add_edge(1, 3).unwrap();
    g.add_edge(3, 1).unwrap();
    g.add_edge(0, 0).unwrap();
    g
}

// The classic thirteen-vertex edge list used by the traversal tests.
fn tiny_undirected() -> Graph {
    let mut g = Graph::new_undirected(13);
    let edges = [
        (0, 5), (4, 3), (0, 1), (9, 12), (6, 4), (5, 4), (0, 2),
        (11, 12), (9, 10), (0, 6), (7, 8), (9, 11), (5, 3),
    ];
    for (a, b) in edges {
        g.add_edge(a, b).unwrap();
    }
    g
}

#[test]
fn graphs_read_graph_from_file() {
    let tiny = very_tiny_undirected();
    assert_eq!(tiny.vertices(), 4);
    assert_eq!(tiny.edges(), 4);
    assert_eq!(tiny.adjacencies(0).unwrap(), &vec![1, 0, 0]);
    assert_eq!(tiny.adjacencies(1).unwrap(), &vec![0, 3, 3]);
    assert_eq!(tiny.adjacencies(2).unwrap(), &Vec::<usize>::new());
    assert_eq!(tiny.adjacencies(3).unwrap(), &vec![1, 1]);
}

#[test]
fn graph_read_graph_from_file() {
    let mut tiny_graph = PlainGraph::new(4);
    tiny_graph.add_edge(0, 1).unwrap();
    tiny_graph.add_edge(1, 3).unwrap();
    tiny_graph.add_edge(3, 1).unwrap();
    tiny_graph.add_edge(0, 0).unwrap();
    assert_eq!(tiny_graph.vertices(), 4);
    assert_eq!(tiny_graph.edges(), 4);
    assert_eq!(tiny_graph.adjacencies(0).unwrap(), &vec![1, 0, 0]);
    assert_eq!(tiny_graph.adjacencies(1).unwrap(), &vec![0, 3, 3]);
    assert_eq!(tiny_graph.adjacencies(2).unwrap(), &Vec::<usize>::new());
    assert_eq!(tiny_graph.adjacencies(3).unwrap(), &vec![1, 1]);
}

#[test]
fn undirected_read_graph_from_file() {
    let mut tiny = Undirected::new(4);
    tiny.add_edge(0, 1).unwrap();
    tiny.add_edge(1, 3).unwrap();
    tiny.add_edge(3, 1).unwrap();
    tiny.add_edge(0, 0).unwrap();
    assert_eq!(tiny.vertices(), 4);
    assert_eq!(tiny.edges(), 4);
    assert_eq!(tiny.adjacencies(0).unwrap(), &vec![1, 0, 0]);
    assert_eq!(tiny.adjacencies(1).unwrap(), &vec![0, 3, 3]);
    assert_eq!(tiny.adjacencies(2).unwrap(), &Vec::<usize>::new());
    assert_eq!(tiny.adjacencies(3).unwrap(), &vec![1, 1]);
}

#[test]
fn reverse_directed() {
    let mut tiny = Graph::new_directed(4);
    tiny.add_edge(0, 1).unwrap();
    tiny.add_edge(1, 3).unwrap();
    tiny.add_edge(3, 1).unwrap();
    tiny.add_edge(3, 3).unwrap();

    let reverse = tiny.reverse().unwrap();
    assert_eq!(reverse.adjacencies(0).unwrap(), &Vec::<usize>::new());
    assert_eq!(reverse.adjacencies(1).unwrap(), &vec![0, 3]);
    assert_eq!(reverse.adjacencies(2).unwrap(), &Vec::<usize>::new());
    assert_eq!(reverse.adjacencies(3).unwrap(), &vec![1, 3]);
}

#[test]
fn reverse_twice_keeps_adjacency_multisets() {
    let mut tiny = Graph::new_directed(4);
    tiny.add_edge(0, 1).unwrap();
    tiny.add_edge(1, 3).unwrap();
    tiny.add_edge(3, 1).unwrap();
    tiny.add_edge(3, 3).unwrap();

    let twice = tiny.reverse().unwrap().reverse().unwrap();
    assert_eq!(twice.vertices(), 4);
    assert_eq!(twice.edges(), 4);
    for v in 0..4 {
        let mut original = tiny.adjacencies(v).unwrap().clone();
        let mut back = twice.adjacencies(v).unwrap().clone();
        original.sort();
        back.sort();
        assert_eq!(original, back);
    }
}

#[test]
fn reverse_refuses_undirected() {
    let tiny = very_tiny_undirected();
    let failure = match tiny.reverse() {
        Ok(_) => None,
        Err(e) => Some(e),
    };
    assert_eq!(failure, Some(GraphError::InvalidOperation));
}

#[test]
fn out_of_range_arguments_are_rejected() {
    let mut g = Graph::new_directed(2);
    assert_eq!(g.add_edge(0, 2).unwrap_err(), GraphError::InvalidArgument);
    assert_eq!(g.add_edge(5, 0).unwrap_err(), GraphError::InvalidArgument);
    assert_eq!(g.edges(), 0);
    assert_eq!(g.adjacencies(2).unwrap_err(), GraphError::InvalidArgument);
    let walk = Path::new_using_depth(&g, 0).unwrap();
    assert_eq!(walk.has_path_to(2).unwrap_err(), GraphError::InvalidArgument);
    assert_eq!(walk.path_to(2).unwrap_err(), GraphError::InvalidArgument);
    let failure = match Path::new_using_depth(&g, 7) {
        Ok(_) => None,
        Err(e) => Some(e),
    };
    assert_eq!(failure, Some(GraphError::InvalidArgument));
}

#[test]
fn detect_directed_cycle() {
    let mut tiny = Graph::new_directed(8);

    tiny.add_edge(0, 1).unwrap();
    tiny.add_edge(2, 4).unwrap();
    tiny.add_edge(4, 5).unwrap();
    tiny.add_edge(4, 7).unwrap();
    tiny.add_edge(5, 3).unwrap();

    assert!(cycle(&tiny).is_none());

    tiny.add_edge(3, 4).unwrap();

    assert_eq!(cycle(&tiny).unwrap(), vec![4, 5, 3, 4]);
}

#[test]
fn detect_trivial_directed_cycle() {
    let mut trivial = Graph::new_directed(1);
    assert!(cycle(&trivial).is_none());
    trivial.add_edge(0, 0).unwrap();
    assert_eq!(cycle(&trivial).unwrap(), vec![0, 0]);
}

#[test]
fn detect_trivial_undirected_cycle() {
    let mut trivial = Graph::new_undirected(2);
    assert!(cycle(&trivial).is_none());
    trivial.add_edge(0, 1).unwrap();
    assert_eq!(cycle(&trivial).unwrap(), vec![0, 1, 0]);
}

#[test]
fn path_depth_first_search() {
    let tiny = tiny_undirected();
    let meander = Path::new_using_depth(&tiny, 0).unwrap();

    assert!(meander.has_path_to(0).unwrap());
    assert_eq!(meander.path_to(0).unwrap(), Some(vec![0]));

    assert!(meander.has_path_to(3).unwrap());
    assert_eq!(meander.path_to(3).unwrap(), Some(vec![0, 6, 4, 5, 3]));

    assert!(!meander.has_path_to(8).unwrap());
    assert_eq!(meander.path_to(8).unwrap(), None);
}

#[test]
fn breadth_first_search() {
    let tiny = tiny_undirected();
    let meander = Path::new_using_breadth(&tiny, 0).unwrap();

    assert!(meander.has_path_to(0).unwrap());
    assert_eq!(meander.path_to(0).unwrap(), Some(vec![0]));

    assert!(meander.has_path_to(3).unwrap());
    assert_eq!(meander.path_to(3).unwrap(), Some(vec![0, 6, 4, 3]));

    assert!(!meander.has_path_to(8).unwrap());
    assert_eq!(meander.path_to(8).unwrap(), None);
}

#[test]
fn paths_depth_first_search() {
    let mut tiny = Undirected::new(13);
    let edges = [
        (0, 5), (4, 3), (0, 1), (9, 12), (6, 4), (5, 4), (0, 2),
        (11, 12), (9, 10), (0, 6), (7, 8), (9, 11), (5, 3),
    ];
    for (a, b) in edges {
        tiny.add_edge(a, b).unwrap();
    }
    let meander = UndirectedPath::new(&tiny, 0).unwrap();

    assert!(meander.has_path_to(0).unwrap());
    assert_eq!(meander.path_to(0).unwrap(), Some(vec![0]));

    assert!(meander.has_path_to(3).unwrap());
    assert_eq!(meander.path_to(3).unwrap(), Some(vec![0, 6, 4, 5, 3]));

    assert!(!meander.has_path_to(8).unwrap());
    assert_eq!(meander.path_to(8).unwrap(), None);
}

#[test]
fn traversal_orders_agree_on_visited_set() {
    let tiny = tiny_undirected();
    let depth = Path::new_using_depth(&tiny, 0).unwrap();
    let breadth = Path::new_using_breadth(&tiny, 0).unwrap();
    for v in 0..13 {
        assert_eq!(depth.has_path_to(v).unwrap(), breadth.has_path_to(v).unwrap());
    }
}

#[test]
fn edge_count_tracks_insertions() {
    let mut g = Graph::new_undirected(3);
    assert_eq!(g.edges(), 0);
    g.add_edge(0, 1).unwrap();
    g.add_edge(1, 1).unwrap();
    g.add_edge(0, 1).unwrap();
    assert_eq!(g.edges(), 3);
    let mut d = Graph::new_directed(3);
    d.add_edge(2, 0).unwrap();
    d.add_edge(2, 0).unwrap();
    assert_eq!(d.edges(), 2);
}

#[test]
fn directed_insertion_is_one_sided() {
    let mut d = Graph::new_directed(3);
    d.add_edge(0, 1).unwrap();
    assert_eq!(d.adjacencies(0).unwrap(), &vec![1]);
    assert_eq!(d.adjacencies(1).unwrap(), &Vec::<usize>::new());
    let mut u = Graph::new_undirected(3);
    u.add_edge(0, 1).unwrap();
    assert_eq!(u.adjacencies(0).unwrap(), &vec![1]);
    assert_eq!(u.adjacencies(1).unwrap(), &vec![0]);
}

#[test]
fn cycle_in_larger_undirected_graph() {
    let tiny = tiny_undirected();
    let found = cycle(&tiny).unwrap();
    assert!(found.len() >= 2);
    assert_eq!(found.first(), found.last());
    for pair in found.windows(2) {
        assert!(tiny.adjacencies(pair[0]).unwrap().contains(&pair[1]));
    }
}
