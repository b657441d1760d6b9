use fs_tree_map::{FSTreeMap, Node};

#[test]
fn can_create_file_node() {
    let file = Node::File::<usize> {
        name: "answer.txt".to_string(),
        size: 42,
    };
    assert_eq!(file.get_name(), "answer.txt");
    assert_eq!(file.value_reduce(0, |acc, x| acc + x), 42);
}

#[test]
fn can_create_directory_node() {
    let dir = Node::Directory::<usize> {
        name: "home".to_string(),
        children: vec![],
    };
    assert_eq!(dir.get_name(), "home");
}

#[test]
fn test_add_child_to_path() {
    let mut tree = FSTreeMap::new();
    let _ = tree.insert("home", 42);

    assert_eq!(tree.value_reduce(0, |acc, x| acc + x), 42);
}

#[test]
fn test_print_tree() {
    let mut tree = FSTreeMap::new();
    let _ = tree.insert_with_parents("home/users/arthur/answer.txt", 42);
    let _ = tree.insert_with_parents("home/users/arthur/password.txt", 128);
    assert_eq!(tree.value_reduce(0, |acc, x| acc + x), 170);
}

#[test]
fn test_can_sum_summable_generic_type() {
    let mut tree = FSTreeMap::new();
    let _ = tree.insert_with_parents("home/users/arthur/answer.txt", 42);
    let _ = tree.insert_with_parents("home/users/arthur/password.txt", 128);
    assert_eq!(tree.value_sum(), 170);
}

#[test]
fn test_any() {
    let mut tree = FSTreeMap::new();
    let _ = tree.insert_with_parents("home/users/arthur/answer.txt", 42);
    let _ = tree.insert_with_parents("home/users/arthur/password.txt", 128);
    assert_eq!(tree.any(|name, _| name.contains("passw")), true);
    assert_eq!(tree.any(|name, _| name.contains("Ideas")), false);
    assert_eq!(tree.any(|_, size| size == &42), true);
}
