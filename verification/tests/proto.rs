use fs_proxy::handler::{
    getattr_plan, lookup_plan, make_file_attr, make_folder_attr, open_plan, read_size,
    readdir_entries, AttrPlan, DirEntry, FileKind, FsError, HostMetadata,
};
use fs_proxy::inode::INodeTable;
use fs_proxy::mapping::Path;

fn file(name: &str, target: &str) -> (String, Path) {
    (name.to_string(), Path::File { name: name.to_string(), path: target.to_string() })
}

fn folder(name: &str, children: Vec<(String, Path)>) -> (String, Path) {
    (name.to_string(), Path::Folder { name: name.to_string(), paths: children })
}

fn sample_table() -> INodeTable {
    let f = folder("docs", vec![file("b", "/srv/b"), file("a", "/srv/a"), file("c", "/srv/c")]);
    let root = Path::Folder {
        name: "/".to_string(),
        paths: vec![f, file("top.txt", "/srv/top.txt")],
    };
    assert!(root.check_wf());
    INodeTable::from_mapping(&root)
}

fn hostname_table() -> INodeTable {
    let root = Path::Folder {
        name: "/".to_string(),
        paths: vec![file("a.txt", "/etc/hostname")],
    };
    assert!(root.check_wf());
    INodeTable::from_mapping(&root)
}

#[test]
fn lookup_finds_the_leaf_and_rejects_missing_names() {
    let t = hostname_table();
    let node = t.lookup(1, "a.txt").expect("the leaf is found");
    assert!(node.get_target().is_some());
    assert_eq!(node.get_target().unwrap(), "/etc/hostname");
    assert!(t.lookup(1, "missing").is_none());
    assert!(matches!(lookup_plan(&t, 1, "a.txt"), AttrPlan::StatFile { ino: 2 }));
    assert!(matches!(lookup_plan(&t, 1, "missing"), AttrPlan::NotFound));
    match lookup_plan(&t, 99, "a.txt") {
        AttrPlan::NotFound => {}
        other => panic!("lookup under an unknown identity gave {:?}", other),
    }
}

#[test]
fn getattr_answers_folders_and_defers_files() {
    let t = sample_table();
    match getattr_plan(&t, 2) {
        AttrPlan::Folder(a) => {
            // Folder attributes carry the folder's own identity, not a
            // fixed one.
            assert_eq!(a.ino, 2);
            assert_eq!(a.kind, FileKind::Directory);
        }
        other => panic!("getattr on a folder gave {:?}", other),
    }
    assert!(matches!(getattr_plan(&t, 6), AttrPlan::StatFile { ino: 6 }));
    assert!(matches!(getattr_plan(&t, 0), AttrPlan::NotFound));
    assert!(matches!(getattr_plan(&t, 7), AttrPlan::NotFound));
}

#[test]
fn folder_attributes_are_the_synthetic_constants() {
    let t = sample_table();
    let node = t.get_by_ino(1).unwrap();
    let a = make_folder_attr(node);
    assert_eq!(a.ino, 1);
    assert_eq!(a.size, 0);
    assert_eq!(a.blocks, 0);
    assert_eq!(a.kind, FileKind::Directory);
    assert_eq!(a.perm, 0o755);
    assert_eq!(a.nlink, 2);
    assert_eq!(a.uid, 501);
    assert_eq!(a.gid, 20);
    assert_eq!(a.blksize, 512);
    assert_eq!(a.atime_secs, 0);
    assert_eq!(a.mtime_secs, 0);
    assert_eq!(a.ctime_secs, 0);
}

#[test]
fn file_attributes_keep_the_virtual_identity() {
    let m = HostMetadata {
        size: 4242,
        blocks: 9,
        atime: 100,
        mtime: 200,
        ctime: 300,
        mode: 0o100644,
        nlink: 1,
        uid: 1000,
        gid: 1000,
        rdev: 0,
        blksize: 4096,
        is_dir: false,
        is_file: true,
        is_symlink: false,
    };
    let a = make_file_attr(2, &m);
    // The reported identity is the virtual node's, whatever the host says.
    assert_eq!(a.ino, 2);
    assert_eq!(a.size, 4242);
    assert_eq!(a.kind, FileKind::RegularFile);
    // The permission field carries the host mode truncated to 16 bits,
    // file-type bits included.
    assert_eq!(a.perm, 0o100644 as u16);
    assert_eq!(a.nlink, 1);
    assert_eq!(a.atime_secs, 100);
    assert_eq!(a.mtime_secs, 200);
    assert_eq!(a.ctime_secs, 300);
    let d = HostMetadata { is_dir: true, is_file: false, ..m };
    assert_eq!(make_file_attr(3, &d).kind, FileKind::Directory);
    let s = HostMetadata { is_dir: false, is_file: false, is_symlink: true, ..m };
    assert_eq!(make_file_attr(3, &s).kind, FileKind::Symlink);
}

#[test]
fn open_accepts_files_only() {
    let t = sample_table();
    assert_eq!(open_plan(&t, 6), Ok(6));
    assert_eq!(open_plan(&t, 2), Err(FsError::NotAFile));
    assert_eq!(open_plan(&t, 1), Err(FsError::NotAFile));
    assert_eq!(open_plan(&t, 0), Err(FsError::NotFound));
    assert_eq!(open_plan(&t, 42), Err(FsError::NotFound));
}

#[test]
fn read_size_clips_at_end_of_file() {
    assert_eq!(read_size(4, 10, 0), 4);
    assert_eq!(read_size(4, 3, 0), 3);
    assert_eq!(read_size(4, 10, 8), 2);
    assert_eq!(read_size(4, 10, 10), 0);
    assert_eq!(read_size(4, 10, 12), 0);
    assert_eq!(read_size(0, 10, 3), 0);
    assert_eq!(read_size(u32::MAX, 5, 0), 5);
}

fn names(entries: &[DirEntry]) -> Vec<String> {
    entries.iter().map(|e| e.name.clone()).collect()
}

#[test]
fn readdir_lists_dot_dotdot_then_children_by_name() {
    let t = sample_table();
    // The "docs" folder was filled b, a, c; the listing is name-sorted.
    let l = readdir_entries(&t, 2, 0).expect("readdir on a folder succeeds");
    assert_eq!(
        names(&l),
        vec![".".to_string(), "..".to_string(), "a".to_string(), "b".to_string(), "c".to_string()]
    );
    assert_eq!(l[0].ino, 2);
    assert_eq!(l[1].ino, 1);
    assert_eq!(l[0].kind, FileKind::Directory);
    assert_eq!(l[2].kind, FileKind::RegularFile);
    let cookies: Vec<u64> = l.iter().map(|e| e.cookie).collect();
    assert_eq!(cookies, vec![1, 2, 3, 4, 5]);
    // The root has no parent entry.
    let r = readdir_entries(&t, 1, 0).unwrap();
    assert_eq!(names(&r), vec![".".to_string(), "docs".to_string(), "top.txt".to_string()]);
}

#[test]
fn readdir_rejects_files_and_unknown_identities() {
    let t = sample_table();
    assert!(matches!(readdir_entries(&t, 6, 0), Err(FsError::NotAFolder)));
    assert!(matches!(readdir_entries(&t, 0, 0), Err(FsError::NotFound)));
    assert!(matches!(readdir_entries(&t, 9, 0), Err(FsError::NotFound)));
}

#[test]
fn readdir_pagination_reproduces_the_full_listing() {
    let t = sample_table();
    let full = readdir_entries(&t, 2, 0).unwrap();
    // Page through the listing the way the kernel does: resume at the
    // number of entries delivered so far, here with pages of at most two.
    let mut pages: Vec<DirEntry> = Vec::new();
    let mut offset: u64 = 0;
    loop {
        let tail = readdir_entries(&t, 2, offset).unwrap();
        if tail.is_empty() {
            break;
        }
        let taken = tail.into_iter().take(2).collect::<Vec<_>>();
        offset += taken.len() as u64;
        pages.extend(taken);
    }
    assert_eq!(pages.len(), full.len());
    for (p, f) in pages.iter().zip(full.iter()) {
        assert_eq!(p.ino, f.ino);
        assert_eq!(p.cookie, f.cookie);
        assert_eq!(p.kind, f.kind);
        assert_eq!(p.name, f.name);
    }
    // An offset at or past the end yields nothing.
    assert_eq!(readdir_entries(&t, 2, 5).unwrap().len(), 0);
    assert_eq!(readdir_entries(&t, 2, 50).unwrap().len(), 0);
}
