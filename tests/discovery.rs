use memreclaim::discovery::{get_dir_leaves, is_contents_first};

fn sorted(mut v: Vec<String>) -> Vec<String> {
    v.sort();
    v
}

fn strings(v: &[&str]) -> Vec<String> {
    v.iter().map(|s| s.to_string()).collect()
}

#[test]
fn three_level_tree_leaves() {
    let walk = strings(&["/r/a/x", "/r/a/y", "/r/a", "/r/b/z", "/r/b", "/r"]);
    assert!(is_contents_first(&walk));
    let leaves = sorted(get_dir_leaves(&walk));
    assert_eq!(leaves, strings(&["/r/a/x", "/r/a/y", "/r/b/z"]));
}

#[test]
fn three_level_tree_other_order() {
    let walk = strings(&["/r/b/z", "/r/b", "/r/a/y", "/r/a/x", "/r/a", "/r"]);
    assert!(is_contents_first(&walk));
    let leaves = sorted(get_dir_leaves(&walk));
    assert_eq!(leaves, strings(&["/r/a/x", "/r/a/y", "/r/b/z"]));
}

#[test]
fn similar_names_are_not_ancestors() {
    let walk = strings(&["/r/ab", "/r/a", "/r"]);
    let leaves = sorted(get_dir_leaves(&walk));
    assert_eq!(leaves, strings(&["/r/a", "/r/ab"]));
}

#[test]
fn lone_root_is_a_leaf() {
    let walk = strings(&["/r"]);
    assert_eq!(get_dir_leaves(&walk), strings(&["/r"]));
    assert_eq!(get_dir_leaves(&Vec::new()), Vec::<String>::new());
}

#[test]
fn parent_first_is_not_contents_first() {
    assert!(!is_contents_first(&strings(&["/r", "/r/a"])));
}
