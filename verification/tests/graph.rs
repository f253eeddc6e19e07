use fs_proxy::inode::{INode, INodeOps, INodeTable};
use fs_proxy::mapping::Path;

fn file(name: &str, target: &str) -> (String, Path) {
    (name.to_string(), Path::File { name: name.to_string(), path: target.to_string() })
}

fn folder(name: &str, children: Vec<(String, Path)>) -> (String, Path) {
    (name.to_string(), Path::Folder { name: name.to_string(), paths: children })
}

fn sample_table() -> INodeTable {
    // Root holding a folder of three files (inserted out of name order)
    // and one file.
    let f = folder("docs", vec![file("b", "/srv/b"), file("a", "/srv/a"), file("c", "/srv/c")]);
    let root = Path::Folder {
        name: "/".to_string(),
        paths: vec![f, file("top.txt", "/srv/top.txt")],
    };
    assert!(root.check_wf());
    INodeTable::from_mapping(&root)
}

#[test]
fn identities_are_contiguous_from_one() {
    let t = sample_table();
    assert_eq!(t.len(), 6);
    for ino in 1..=6u64 {
        let node = t.get_by_ino(ino).expect("identity in range resolves");
        assert_eq!(node.get_ino(), ino);
    }
    assert!(t.get_by_ino(0).is_none());
    assert!(t.get_by_ino(7).is_none());
}

#[test]
fn parents_list_their_children_under_their_names() {
    let t = sample_table();
    // Root has no parent; every other node is found under its own name in
    // its parent folder, with its own identity.
    assert_eq!(t.get_by_ino(1).unwrap().get_parent(), 0);
    for ino in 2..=6u64 {
        let node = t.get_by_ino(ino).unwrap();
        let parent = t.get_by_ino(node.get_parent()).expect("parent resolves");
        assert!(matches!(parent, INode::Folder { .. }));
        let found = t.lookup(parent.get_ino(), node.get_name()).expect("child is listed");
        assert_eq!(found.get_ino(), ino);
    }
}

#[test]
fn lookup_is_deterministic_and_idempotent() {
    let t = sample_table();
    for name in ["docs", "top.txt", "missing"] {
        let first = t.lookup(1, name).map(|n| n.get_ino());
        let second = t.lookup(1, name).map(|n| n.get_ino());
        assert_eq!(first, second);
    }
    let once = t.lookup(1, "docs").map(|n| n.get_ino());
    assert_eq!(once, Some(2));
}

#[test]
fn lookup_resolves_names_case_sensitively() {
    let t = sample_table();
    assert!(t.lookup(1, "docs").is_some());
    assert!(t.lookup(1, "Docs").is_none());
    assert!(t.lookup(1, "doc").is_none());
    // Lookup under a file, or under an unknown identity, finds nothing.
    assert!(t.lookup(6, "a").is_none());
    assert!(t.lookup(99, "docs").is_none());
}

#[test]
fn list_current_returns_children_in_name_order() {
    let t = sample_table();
    let children = t.list_current(2);
    let names: Vec<String> = children
        .iter()
        .map(|c| t.get_by_ino(*c).unwrap().get_name().clone())
        .collect();
    assert_eq!(names, vec!["a".to_string(), "b".to_string(), "c".to_string()]);
    // A file has no children.
    assert_eq!(t.list_current(6).len(), 0);
}

#[test]
fn list_recursively_returns_the_subtree_in_preorder() {
    let t = sample_table();
    let all = t.list_recursively(1);
    assert_eq!(all, vec![1, 2, 3, 4, 5, 6]);
    // A subtree is a consecutive identity run starting at its root.
    let docs = t.list_recursively(2);
    assert_eq!(docs, vec![2, 3, 4, 5]);
    let leaf = t.list_recursively(6);
    assert_eq!(leaf, vec![6]);
}

#[test]
fn identities_follow_the_preorder_of_the_description() {
    let t = sample_table();
    // Root first; each child of a folder at `ino` sits at `ino + 1` plus
    // the sizes of the sibling subtrees described before it.
    assert_eq!(t.lookup(1, "docs").unwrap().get_ino(), 2);
    assert_eq!(t.lookup(2, "b").unwrap().get_ino(), 3);
    assert_eq!(t.lookup(2, "a").unwrap().get_ino(), 4);
    assert_eq!(t.lookup(2, "c").unwrap().get_ino(), 5);
    // "top.txt" comes after the whole 4-node "docs" subtree.
    assert_eq!(t.lookup(1, "top.txt").unwrap().get_ino(), 6);
    // The assignment is a function of the description alone: building the
    // same description again yields identical identities.
    let again = sample_table();
    for ino in 1..=6u64 {
        let a = t.get_by_ino(ino).unwrap();
        let b = again.get_by_ino(ino).unwrap();
        assert_eq!(a.get_ino(), b.get_ino());
        assert_eq!(a.get_parent(), b.get_parent());
        assert_eq!(a.get_name(), b.get_name());
    }
}

#[test]
fn check_wf_rejects_bad_descriptions() {
    // Duplicate child names.
    let dup = Path::Folder {
        name: "/".to_string(),
        paths: vec![file("x", "/srv/1"), file("x", "/srv/2")],
    };
    assert!(!dup.check_wf());
    // A child keyed under a name that is not its own.
    let miskeyed = Path::Folder {
        name: "/".to_string(),
        paths: vec![(
            "alias".to_string(),
            Path::File { name: "real".to_string(), path: "/srv/real".to_string() },
        )],
    };
    assert!(!miskeyed.check_wf());
    // The good case.
    let ok = Path::Folder { name: "/".to_string(), paths: vec![file("x", "/srv/1")] };
    assert!(ok.check_wf());
}
