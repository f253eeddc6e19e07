use std::io::SeekFrom;
use std::sync::Arc;

use tokio::io::{AsyncReadExt, AsyncSeekExt};
use tokio::sync::Mutex;

use fs_proxy::handler::{open_plan, read_size, target_of, FsError};
use fs_proxy::inode::INodeTable;
use fs_proxy::mapping::Path;
use fs_proxy::registry::FileHandleTable;

fn single_file_table(target: &str) -> INodeTable {
    let root = Path::Folder {
        name: "/".to_string(),
        paths: vec![(
            "a.txt".to_string(),
            Path::File { name: "a.txt".to_string(), path: target.to_string() },
        )],
    };
    assert!(root.check_wf());
    INodeTable::from_mapping(&root)
}

type SharedFile = Arc<Mutex<tokio::fs::File>>;

/// Reads `size` bytes at `offset` through a registered handle, the way the
/// driver's read path does: resolve the handle, clip against the file
/// size, seek and read.
async fn read_via_handle(
    reg: &FileHandleTable<SharedFile>,
    fh: u64,
    offset: u64,
    size: u32,
) -> Result<Vec<u8>, FsError> {
    let shared = reg.read_handle(fh)?.clone();
    let mut file = shared.lock().await;
    let file_size = file.metadata().await.unwrap().len();
    let n = read_size(size, file_size, offset);
    file.seek(SeekFrom::Start(offset)).await.unwrap();
    let mut buf = vec![0u8; n as usize];
    file.read_exact(&mut buf).await.unwrap();
    Ok(buf)
}

#[test]
fn reads_through_a_handle_match_the_target() {
    let rt = tokio::runtime::Runtime::new().unwrap();
    rt.block_on(async {
        let target = "/tmp/fs_proxy_read_target.txt";
        let content = b"The quick brown fox jumps over the lazy dog";
        tokio::fs::write(target, content).await.unwrap();

        let t = single_file_table(target);
        let ino = match open_plan(&t, 2) {
            Ok(ino) => ino,
            Err(e) => panic!("open on the leaf failed: {:?}", e),
        };
        let path = target_of(&t, ino).unwrap().clone();
        let file = tokio::fs::File::open(&path).await.unwrap();
        let mut reg: FileHandleTable<SharedFile> = FileHandleTable::new();
        let fh = reg.insert(Arc::new(Mutex::new(file)));

        // Disjoint ranges through the handle are byte-identical to the
        // target read out of band.
        let out_of_band = tokio::fs::read(&path).await.unwrap();
        for (offset, size) in [(0u64, 4u32), (4, 11), (15, 9), (40, 100), (1000, 4)] {
            let got = read_via_handle(&reg, fh, offset, size).await.unwrap();
            let end = (offset as usize + size as usize).min(out_of_band.len());
            let start = (offset as usize).min(out_of_band.len());
            assert_eq!(&got[..], &out_of_band[start..end]);
        }

        // Releasing the handle ends its life: a further read is rejected.
        assert!(reg.release(fh).is_ok());
        assert_eq!(
            read_via_handle(&reg, fh, 0, 4).await.unwrap_err(),
            FsError::BadHandle
        );
    });
}

#[test]
fn open_read_release_on_a_real_leaf() {
    let rt = tokio::runtime::Runtime::new().unwrap();
    rt.block_on(async {
        let t = single_file_table("/etc/hostname");
        let node = t.lookup(1, "a.txt").expect("lookup finds the leaf");
        assert!(node.get_target().is_some());

        let ino = open_plan(&t, node.get_ino()).unwrap();
        let path = target_of(&t, ino).unwrap().clone();
        let file = tokio::fs::File::open(&path).await.unwrap();
        let mut reg: FileHandleTable<SharedFile> = FileHandleTable::new();
        let fh = reg.insert(Arc::new(Mutex::new(file)));

        // The first four bytes through the handle are the first four bytes
        // of the target's content (fewer if the file is shorter).
        let got = read_via_handle(&reg, fh, 0, 4).await.unwrap();
        let all = tokio::fs::read(&path).await.unwrap();
        let want = &all[..all.len().min(4)];
        assert_eq!(&got[..], want);

        reg.release(fh).unwrap();
        assert_eq!(read_via_handle(&reg, fh, 0, 4).await.unwrap_err(), FsError::BadHandle);
    });
}

#[test]
fn independent_handles_do_not_observe_each_other() {
    let rt = tokio::runtime::Runtime::new().unwrap();
    rt.block_on(async {
        let t1 = "/tmp/fs_proxy_crosstalk_one.txt";
        let t2 = "/tmp/fs_proxy_crosstalk_two.txt";
        tokio::fs::write(t1, b"first target contents").await.unwrap();
        tokio::fs::write(t2, b"second target, different bytes").await.unwrap();

        let mut reg: FileHandleTable<SharedFile> = FileHandleTable::new();
        let f1 = tokio::fs::File::open(t1).await.unwrap();
        let f2 = tokio::fs::File::open(t2).await.unwrap();
        let h1 = reg.insert(Arc::new(Mutex::new(f1)));
        let h2 = reg.insert(Arc::new(Mutex::new(f2)));
        assert_ne!(h1, h2);

        // Interleaved reads at different offsets: each handle keeps its
        // own cursor and its own bytes.
        let a = read_via_handle(&reg, h1, 0, 5).await.unwrap();
        let b = read_via_handle(&reg, h2, 0, 6).await.unwrap();
        let c = read_via_handle(&reg, h1, 6, 6).await.unwrap();
        let d = read_via_handle(&reg, h2, 7, 6).await.unwrap();
        assert_eq!(&a[..], b"first");
        assert_eq!(&b[..], b"second");
        assert_eq!(&c[..], b"target");
        assert_eq!(&d[..], b"target");

        // Releasing one handle leaves the other fully usable.
        reg.release(h1).unwrap();
        let e = read_via_handle(&reg, h2, 0, 6).await.unwrap();
        assert_eq!(&e[..], b"second");
    });
}
