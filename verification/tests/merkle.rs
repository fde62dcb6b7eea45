use sheaves::merkle::Node;
use sheaves::merkle::Tree;

#[test]
fn node() {
    let node_value = vec!["a", "b", "c"];
    let node = Node::new(node_value);
    println!("{:?}", node.hash_to_hex());
    assert_eq!(node.value, vec!["a", "b", "c"]);
}

#[test]
fn tree() {
    let root_value = vec!["a"];
    let root = Node::new(root_value);
    let mut tree = Tree { root };
    println!("{:?}", tree.root.hash_to_hex());

    let child_value = vec!["b"];
    let child = Node::new(child_value);
    tree.root.add_child(child);

    println!("{:?}", tree);
}

#[test]
fn digest_matches_published_values() {
    let node = Node::new(vec!["a", "b", "c"]);
    assert_eq!(
        node.hash_to_hex(),
        "ba7816bf8f01cfea414140de5dae2223b00361a396177a9cb410ff61f20015ad"
    );
    let empty: Vec<&str> = vec![];
    let empty_node = Node::new(empty);
    assert_eq!(
        empty_node.hash_to_hex(),
        "e3b0c44298fc1c149afbf4c8996fb92427ae41e4649b934ca495991b7852b855"
    );
}

#[test]
fn children_grow_without_touching_the_digest() {
    let mut node = Node::new(vec!["a"]);
    let before = node.hash_to_hex();
    node.add_child(Node::new(vec!["b"]));
    node.add_child(Node::new(vec!["c"]));
    assert_eq!(node.children.len(), 2);
    assert_eq!(node.hash_to_hex(), before);
    assert_eq!(node.children[0].value, vec!["b"]);
}
