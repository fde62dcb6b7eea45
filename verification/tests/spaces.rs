use sheaves::OpenSet;
use sheaves::Data;
use sheaves::Section;
use sheaves::spaces::undirected_graph::UndirectedGraph;

fn create_graph() -> UndirectedGraph {
    let vertices = OpenSet::from_vec(vec![1, 2, 3, 4, 5]);
    let edges = vec![(1, 2), (2, 3), (3, 4)];
    UndirectedGraph::new(vertices, edges)
}

#[test]
fn spaces_graph_builds() {
    let graph = create_graph();
    assert_eq!(graph.vertices.len(), 5);
    assert_eq!(graph.edges.len(), 3);
}

#[test]
fn spaces_graph_points() {
    let graph = create_graph();
    assert_eq!(graph.points(), graph.vertices);
}

#[test]
fn spaces_neighborhood() {
    let graph = create_graph();
    assert_eq!(graph.neighborhood(1), OpenSet::from_vec(vec![2]));
    assert_eq!(graph.neighborhood(2), OpenSet::from_vec(vec![1, 3]));
    assert_eq!(graph.neighborhood(3), OpenSet::from_vec(vec![2, 4]));
    assert_eq!(graph.neighborhood(4), OpenSet::from_vec(vec![3]));
}

#[test]
fn spaces_distance() {
    let graph = create_graph();
    assert_eq!(graph.distance(1, 1), Some(0));
    assert_eq!(graph.distance(1, 2), Some(1));
    assert_eq!(graph.distance(1, 3), Some(2));
    assert_eq!(graph.distance(1, 4), Some(3));
    assert_eq!(graph.distance(1, 5), None);
}

#[test]
fn spaces_restriction() {
    let graph = create_graph();
    let mut section = Section::new(OpenSet::new());
    section.insert(1, Data(1));
    section.insert(2, Data(2));
    section.insert(3, Data(3));

    let set_to = OpenSet::from_vec(vec![1, 2]);
    let restricted_section = graph.restriction(&set_to, &section);
    println!("{:?}", restricted_section);
    println!("{:?}", restricted_section.get(1).unwrap());
}

#[test]
fn undirected_graph_graph_builds() {
    let graph = create_graph();
    assert_eq!(graph.vertices.len(), 5);
    assert_eq!(graph.edges.len(), 3);
}

#[test]
fn undirected_graph_graph_points() {
    let graph = create_graph();
    assert_eq!(graph.elements(), graph.vertices);
}

#[test]
fn undirected_graph_neighborhood() {
    let graph = create_graph();
    assert_eq!(graph.neighborhood(1), OpenSet::from_vec(vec![2]));
    assert_eq!(graph.neighborhood(2), OpenSet::from_vec(vec![1, 3]));
    assert_eq!(graph.neighborhood(3), OpenSet::from_vec(vec![2, 4]));
    assert_eq!(graph.neighborhood(4), OpenSet::from_vec(vec![3]));
}

#[test]
fn undirected_graph_distance() {
    let graph = create_graph();
    assert_eq!(graph.distance(1, 1), Some(0));
    assert_eq!(graph.distance(1, 2), Some(1));
    assert_eq!(graph.distance(1, 3), Some(2));
    assert_eq!(graph.distance(1, 4), Some(3));
    assert_eq!(graph.distance(1, 5), None);
}

#[test]
fn undirected_graph_restriction() {
    let graph = create_graph();
    let mut section = Section::new(OpenSet::new());
    section.insert(1, Data(1));
    section.insert(2, Data(2));
    section.insert(3, Data(3));

    let set_to = OpenSet::from_vec(vec![1, 2]);
    let restricted_section = graph.restriction(&set_to, &section);
    println!("{:?}", restricted_section);
    println!("{:?}", restricted_section.get(1).unwrap());
}

#[test]
fn graph_normalizes_and_deduplicates_edges() {
    let vertices = OpenSet::from_vec(vec![1, 2, 3]);
    let graph = UndirectedGraph::new(vertices, vec![(2, 1), (1, 2), (3, 1)]);
    assert_eq!(graph.edges.len(), 2);
    assert_eq!(graph.edges, vec![(1, 2), (1, 3)]);
    assert_eq!(graph.neighborhood(1), OpenSet::from_vec(vec![2, 3]));
}

#[test]
fn open_set_algebra() {
    let a = OpenSet::from_vec(vec![3, 1, 2, 3]);
    let b = OpenSet::from_vec(vec![2, 4]);
    assert_eq!(a.len(), 3);
    assert_eq!(a.intersect(&b), OpenSet::from_vec(vec![2]));
    assert_eq!(a.intersect(&b), b.intersect(&a));
    assert_eq!(a.union(&b), OpenSet::from_vec(vec![1, 2, 3, 4]));
    assert_eq!(a.union(&b), b.union(&a));
    assert_eq!(a.intersect(&a), a);
    assert_eq!(a.union(&a), a);
    assert!(a.contains(2));
    assert!(!a.contains(4));
    assert!(OpenSet::new().is_empty());
    assert!(!a.is_empty());
}

#[test]
fn graph_is_open_is_discrete() {
    let graph = create_graph();
    assert!(graph.is_open(&OpenSet::new()));
    assert!(graph.is_open(&OpenSet::from_vec(vec![1, 5])));
}

#[test]
fn distance_on_disconnected_pairs() {
    let vertices = OpenSet::from_vec(vec![1, 2, 3, 4]);
    let graph = UndirectedGraph::new(vertices, vec![(1, 2), (3, 4)]);
    assert_eq!(graph.distance(1, 2), Some(1));
    assert_eq!(graph.distance(2, 1), Some(1));
    assert_eq!(graph.distance(1, 3), None);
    assert_eq!(graph.distance(4, 4), Some(0));
}
