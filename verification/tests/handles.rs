use fs_proxy::handler::FsError;
use fs_proxy::registry::FileHandleTable;

#[test]
fn handles_are_fresh_and_resolve_to_their_own_values() {
    let mut reg: FileHandleTable<String> = FileHandleTable::new();
    let h1 = reg.insert("alpha".to_string());
    let h2 = reg.insert("beta".to_string());
    assert_ne!(h1, h2);
    assert_eq!(h1, 1);
    assert_eq!(h2, 2);
    // Each handle sees only its own entry: no cross-talk.
    assert_eq!(reg.get(h1), Some(&"alpha".to_string()));
    assert_eq!(reg.get(h2), Some(&"beta".to_string()));
    // Operating on one leaves the other untouched.
    assert!(reg.release(h1).is_ok());
    assert_eq!(reg.get(h2), Some(&"beta".to_string()));
    assert_eq!(reg.get(h1), None);
}

#[test]
fn released_handles_are_retired_for_good() {
    let mut reg: FileHandleTable<u32> = FileHandleTable::new();
    let h1 = reg.insert(10);
    assert_eq!(reg.release(h1), Ok(10));
    // Double release is rejected, not ignored.
    assert_eq!(reg.release(h1), Err(FsError::NotFound));
    // A later open never reuses the released identity.
    let h2 = reg.insert(20);
    assert_ne!(h1, h2);
    assert_eq!(reg.get(h1), None);
    assert_eq!(reg.get(h2), Some(&20));
}

#[test]
fn read_rejects_unknown_handles() {
    let mut reg: FileHandleTable<u32> = FileHandleTable::new();
    assert_eq!(reg.read_handle(1), Err(FsError::BadHandle));
    let h = reg.insert(7);
    assert_eq!(reg.read_handle(h), Ok(&7));
    reg.release(h).unwrap();
    assert_eq!(reg.read_handle(h), Err(FsError::BadHandle));
    assert_eq!(reg.read_handle(99), Err(FsError::BadHandle));
}
