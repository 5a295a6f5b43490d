use graph::graph::Graph;

fn half_connect_graph(g: &mut Graph) {
    for i in 0..g.vertices.len() {
        let vertex1 = g.vertices[i].id();
        for j in 0..(g.vertices.len() / 2) {
            let vertex2 = g.vertices[j].id();
            g.add_edge(&vertex1, &vertex2);
        }
    }
}

#[test]
fn test_graph() {
    let mut g = Graph::new();
    g.add_vertex();
    g.add_vertex();
    let vertex1 = g.vertices[0].id();
    let vertex2 = g.vertices[1].id();
    g.add_edge(&vertex1, &vertex2);
    assert_eq!(g.count_vertices(), 2);
}

#[test]
fn test_large_clique() {
    let n_vertices = 1000;
    let mut g = Graph::new();
    g.add_vertices(n_vertices).fully_connect();
    assert_eq!(g.count_vertices(), n_vertices);
    assert_eq!(g.count_edges(), n_vertices.pow(2));
}

#[test]
fn test_delete_vertices() {
    let n_vertices = 20;
    let mut g = Graph::new();
    g.add_vertices(n_vertices).fully_connect();
    assert_eq!(g.count_vertices(), n_vertices);
    for i in 0..5 {
        let v_id = g.get_vertex(&i).unwrap().id();
        g.delete_vertex(&v_id);
    }
    assert_eq!(g.count_vertices(), n_vertices - 5);
}

#[test]
fn test_get_adjacent_nodes() {
    let n_vertices = 10;
    let mut g = Graph::new();
    g.add_vertices(n_vertices);
    half_connect_graph(&mut g);
    let v = g.get_vertex(&0).unwrap();
    let truth: Vec<usize> = vec![0, 1, 2, 3, 4];
    let av = g.get_adjacent_vertices(v.id());
    assert_eq!(*av, truth);
}

#[test]
fn empty_graph_has_nothing() {
    let mut g = Graph::new();
    assert_eq!(g.count_vertices(), 0);
    assert_eq!(g.count_edges(), 0);
    assert!(g.get_vertex(&0).is_none());
    g.fully_connect();
    assert_eq!(g.count_vertices(), 0);
    assert_eq!(g.count_edges(), 0);
}

#[test]
fn fresh_ids_live_exactly_once() {
    let mut g = Graph::new();
    g.add_vertices(5);
    assert_eq!(g.count_vertices(), 5);
    for i in 0..5usize {
        let v = g.get_vertex(&i).expect("id below the count must be live");
        assert_eq!(v.id(), i);
        assert!(v.pre.is_none());
        assert!(v.post.is_none());
    }
    assert!(g.get_vertex(&5).is_none());
    let all_ids: Vec<usize> = g.vertices.iter().map(|v| v.id()).collect();
    assert_eq!(all_ids, vec![0, 1, 2, 3, 4]);
}

#[test]
fn queries_are_repeatable() {
    let mut g = Graph::new();
    g.add_vertices(4).fully_connect();
    let e1 = g.count_edges();
    let e2 = g.count_edges();
    assert_eq!(e1, e2);
    let a1 = g.get_adjacent_vertices(2).clone();
    let a2 = g.get_adjacent_vertices(2).clone();
    assert_eq!(a1, a2);
    assert_eq!(g.count_vertices(), 4);
    assert_eq!(g.count_vertices(), 4);
}

#[test]
fn full_connection_squares_the_count() {
    let mut g = Graph::new();
    g.add_vertices(3).fully_connect();
    assert_eq!(g.count_vertices(), 3);
    assert_eq!(g.count_edges(), 9);
    assert_eq!(*g.get_adjacent_vertices(0), vec![0, 1, 2]);
    assert_eq!(*g.get_adjacent_vertices(1), vec![0, 1, 2]);
    assert_eq!(*g.get_adjacent_vertices(2), vec![0, 1, 2]);
}

#[test]
fn two_vertices_one_edge() {
    let mut g = Graph::new();
    g.add_vertices(2);
    let src: usize = 0;
    let dst: usize = 1;
    g.add_edge(&src, &dst);
    assert_eq!(g.count_vertices(), 2);
    assert_eq!(g.count_edges(), 1);
    assert_eq!(*g.get_adjacent_vertices(0), vec![1]);
}

#[test]
fn deletion_keeps_dangling_edges() {
    let n_vertices = 20;
    let mut g = Graph::new();
    g.add_vertices(n_vertices).fully_connect();
    for i in 0..5 {
        g.delete_vertex(&i);
    }
    assert_eq!(g.count_vertices(), 15);
    assert!(g.get_adjacent_vertices(0).is_empty());
    assert!(g.get_adjacent_vertices(4).is_empty());
    let expected: Vec<usize> = (0..n_vertices).collect();
    assert_eq!(*g.get_adjacent_vertices(10), expected);
    assert_eq!(g.count_edges(), 15 * 20);
}

#[test]
fn deleting_a_dead_id_is_a_no_op_on_the_live_set() {
    let mut g = Graph::new();
    g.add_vertices(3);
    let victim: usize = 1;
    g.delete_vertex(&victim);
    assert_eq!(g.count_vertices(), 2);
    g.delete_vertex(&victim);
    assert_eq!(g.count_vertices(), 2);
    assert!(g.get_vertex(&1).is_none());
    assert!(g.get_vertex(&0).is_some());
    assert!(g.get_vertex(&2).is_some());
}

#[test]
fn adjacency_keeps_insertion_order_and_duplicates() {
    let mut g = Graph::new();
    g.add_vertices(3);
    let src: usize = 0;
    for dst in [2usize, 1, 1, 0] {
        g.add_edge(&src, &dst);
    }
    assert_eq!(*g.get_adjacent_vertices(0), vec![2, 1, 1, 0]);
    assert_eq!(g.count_edges(), 4);
}

#[test]
fn edges_to_deleted_targets_survive() {
    let mut g = Graph::new();
    g.add_vertices(2);
    let src: usize = 0;
    let dst: usize = 1;
    g.add_edge(&src, &dst);
    g.delete_vertex(&dst);
    assert_eq!(g.count_vertices(), 1);
    assert_eq!(*g.get_adjacent_vertices(0), vec![1]);
    assert_eq!(g.count_edges(), 1);
}

#[test]
fn vertex_equality_is_by_id_alone() {
    let mut g1 = Graph::new();
    g1.add_vertices(2);
    let mut g2 = Graph::new();
    g2.add_vertices(2);
    g2.vertices[0].pre = Some(7);
    g2.vertices[0].post = Some(9);
    assert!(g1.get_vertex(&0).unwrap() == g2.get_vertex(&0).unwrap());
    assert!(g1.get_vertex(&0).unwrap() != g2.get_vertex(&1).unwrap());
}

#[test]
fn adjacency_list_size_grows_with_issued_ids() {
    let mut g = Graph::new();
    assert_eq!(g.adjacency_list.size(), 0);
    g.add_vertices(4);
    assert_eq!(g.adjacency_list.size(), 4);
    let victim: usize = 2;
    g.delete_vertex(&victim);
    assert_eq!(g.adjacency_list.size(), 4);
    g.add_vertex();
    assert_eq!(g.adjacency_list.size(), 5);
    assert_eq!(g.get_vertex(&4).unwrap().id(), 4);
}
