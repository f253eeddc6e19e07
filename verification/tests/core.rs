use fs_proxy::args::Args;
use fs_proxy::inode::INodeTable;
use fs_proxy::mapping::{fake_mapping, Path};

fn file(name: &str, target: &str) -> (String, Path) {
    (name.to_string(), Path::File { name: name.to_string(), path: target.to_string() })
}

fn folder(name: &str, children: Vec<(String, Path)>) -> (String, Path) {
    (name.to_string(), Path::Folder { name: name.to_string(), paths: children })
}

fn fake_inode_tree() -> Path {
    let subfolder = folder("subfolder", vec![file("subfile", "/etc/subfile")]);
    let etc = folder(
        "etc",
        vec![
            file("hosts", "/etc/hosts"),
            file("passwd", "/etc/passwd"),
            file("shadow", "/etc/shadow"),
            file("group", "/etc/group"),
            subfolder,
        ],
    );
    Path::Folder { name: "/".to_string(), paths: vec![etc] }
}

#[test]
fn args_test() {
    let argv = vec![
        "fs-proxy",
        "/tmp/hello",
        "--auto-unmount",
        "--allow-root",
        "--mapping-file",
        "/tmp/mapping.json",
    ];
    let args = Args {
        mountpoint: argv[1].to_string(),
        auto_unmount: argv.contains(&"--auto-unmount"),
        allow_root: argv.contains(&"--allow-root"),
        mapping_file: argv[5].to_string(),
    };
    println!("args = {:?}", args);
}

#[test]
fn inode_test() {
    let root = fake_inode_tree();

    let table = INodeTable::from_mapping(&root);
    println!("list_files: {:?}", table);
}

#[test]
fn fake_mapping_builds_a_wellformed_tree() {
    let m = fake_mapping();
    assert!(m.mapping.check_wf());
    let table = INodeTable::from_mapping(&m.mapping);
    // The description holds seven nodes: the root, two folders, four files.
    assert_eq!(table.len(), 7);
}
