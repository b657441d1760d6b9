use fs_tree_map::{FSTreeMap, Node, PathError};

#[test]
fn empty_tree_has_no_leaves() {
    let tree: FSTreeMap<u64> = FSTreeMap::new();
    assert_eq!(tree.value_sum(), 0);
    assert_eq!(tree.any(|_, _| true), false);
    assert!(matches!(tree.get_node("anything"), Err(PathError::NotFound)));
}

#[test]
fn scenario_two_files_under_nested_directories() {
    let mut tree = FSTreeMap::new();
    assert_eq!(
        tree.insert_with_parents("home/users/arthur/answer.txt", 42u64),
        Ok(())
    );
    assert_eq!(
        tree.insert_with_parents("home/users/arthur/password.txt", 128u64),
        Ok(())
    );
    assert_eq!(tree.value_sum(), 170);

    let children = tree.get_children("home/users/arthur").unwrap();
    assert_eq!(children.len(), 2);
    assert_eq!(children[0].get_name(), "answer.txt");
    assert_eq!(children[1].get_name(), "password.txt");
    assert!(matches!(children[0], Node::File { .. }));
    assert!(matches!(children[1], Node::File { .. }));

    assert!(tree.any(|name, _| name.contains("passw")));
    assert!(tree.any(|_, v| *v == 42));
    assert!(!tree.any(|name, _| name.contains("Ideas")));
}

#[test]
fn scenario_single_file_at_root() {
    let mut tree = FSTreeMap::new();
    assert_eq!(tree.insert("home", 42u64), Ok(()));
    assert_eq!(tree.value_sum(), 42);
    assert_eq!(tree.get_size("home"), Ok(&42));
}

#[test]
fn lookup_errors_distinguish_absence_from_shape() {
    let mut tree = FSTreeMap::new();
    tree.insert("file.txt", 1u64).unwrap();

    assert!(matches!(tree.get_node("missing"), Err(PathError::NotFound)));
    assert!(matches!(
        tree.get_node("file.txt/below"),
        Err(PathError::NotADirectory)
    ));
    assert_eq!(tree.get_size("file.txt"), Ok(&1));

    tree.make_directory("dir").unwrap();
    assert_eq!(tree.get_size("dir"), Err(PathError::NotAFile));
    assert!(matches!(
        tree.get_children("file.txt"),
        Err(PathError::NotADirectory)
    ));
}

#[test]
fn insert_requires_existing_parents() {
    let mut tree = FSTreeMap::new();
    assert_eq!(tree.insert("a/b", 1u64), Err(PathError::NotFound));
    tree.make_directory("a").unwrap();
    assert_eq!(tree.insert("a/b", 1u64), Ok(()));
    assert_eq!(tree.get_size("a/b"), Ok(&1));

    assert_eq!(tree.insert("a/b/c", 2u64), Err(PathError::NotADirectory));
    assert_eq!(tree.value_sum(), 1);
}

#[test]
fn insert_with_parents_fails_only_on_files_in_the_way() {
    let mut tree = FSTreeMap::new();
    tree.insert("blocker", 5u64).unwrap();
    assert_eq!(
        tree.insert_with_parents("blocker/x", 1u64),
        Err(PathError::NotADirectory)
    );
    assert_eq!(tree.value_sum(), 5);
    assert_eq!(tree.insert_with_parents("fresh/x", 1u64), Ok(()));
    assert_eq!(tree.value_sum(), 6);
}

#[test]
fn remove_deletes_all_children_with_the_name() {
    let mut tree = FSTreeMap::new();
    tree.insert_with_parents("docs/a.txt", 1u64).unwrap();
    tree.insert_with_parents("docs/b.txt", 2u64).unwrap();
    assert_eq!(tree.remove("docs/a.txt"), Ok(()));
    assert!(matches!(tree.get_node("docs/a.txt"), Err(PathError::NotFound)));
    assert_eq!(tree.value_sum(), 2);

    assert_eq!(tree.remove("docs/a.txt"), Ok(()));
    assert_eq!(tree.value_sum(), 2);

    assert_eq!(tree.remove("missing/x"), Err(PathError::NotFound));
    assert_eq!(tree.remove("docs/b.txt/y"), Err(PathError::NotADirectory));
}

#[test]
fn make_directory_is_idempotent() {
    let mut tree: FSTreeMap<u64> = FSTreeMap::new();
    assert_eq!(tree.make_directory("a/b/c"), Ok(()));
    assert_eq!(tree.make_directory("a/b/c"), Ok(()));
    let children = tree.get_children("a/b").unwrap();
    assert_eq!(children.len(), 1);
    assert_eq!(children[0].get_name(), "c");
    assert_eq!(tree.get_children("a/b/c").unwrap().len(), 0);
}

#[test]
fn make_directory_walks_existing_files_but_cannot_create_under_them() {
    let mut tree = FSTreeMap::new();
    tree.insert("leaf", 9u64).unwrap();
    assert_eq!(tree.make_directory("leaf"), Ok(()));
    assert_eq!(tree.get_size("leaf"), Ok(&9));
    assert_eq!(tree.make_directory("leaf/sub"), Err(PathError::NotADirectory));
}

#[test]
fn duplicate_names_append_and_lookups_find_the_oldest() {
    let mut tree = FSTreeMap::new();
    tree.insert("name", 1u64).unwrap();
    tree.insert("name", 2u64).unwrap();
    assert_eq!(tree.get_size("name"), Ok(&1));
    assert_eq!(tree.value_sum(), 3);
    assert_eq!(tree.get_children("").map(|_| ()), Err(PathError::NotFound));

    tree.remove("name").unwrap();
    assert!(matches!(tree.get_node("name"), Err(PathError::NotFound)));
    assert_eq!(tree.value_sum(), 0);
}

#[test]
fn empty_segments_are_literal_names() {
    let mut tree = FSTreeMap::new();
    assert_eq!(tree.insert_with_parents("a//b", 7u64), Ok(()));
    assert_eq!(tree.get_size("a//b"), Ok(&7));
    assert!(matches!(tree.get_node("a/b"), Err(PathError::NotFound)));
    let middle = tree.get_children("a/").unwrap();
    assert_eq!(middle.len(), 1);
    assert_eq!(middle[0].get_name(), "b");

    let mut other: FSTreeMap<u64> = FSTreeMap::new();
    other.make_directory("").unwrap();
    assert!(other.get_children("").unwrap().is_empty());
}

#[test]
fn reduce_sees_names_and_values_in_traversal_order() {
    let mut tree = FSTreeMap::new();
    tree.insert_with_parents("x/one", 1u64).unwrap();
    tree.insert("two", 2u64).unwrap();
    let names = tree.reduce(String::new(), |acc, name, _| acc + name.as_str() + ",");
    assert_eq!(names, "one,two,");
    let total = tree.value_reduce(0u64, |acc, v| acc + v);
    assert_eq!(total, 3);
}
