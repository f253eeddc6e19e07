//! The protocol handler: per-request decisions against the identity table.
//!
//! Each kernel request either gets its full answer here (folder attributes,
//! listings, every failure that the table alone decides) or a plan naming
//! the host work left to do: stat a redirect target, or open one. The
//! caller performs that host I/O and feeds plain values back in — host
//! metadata for an attribute reply comes through [`make_file_attr`], read
//! lengths through [`read_size`].

use vstd::prelude::*;

use crate::inode::{folder_ok, folders_ok, INode, INodeTable};
use crate::order::NameEntry;

verus! {

/// A per-request failure, as the kernel protocol distinguishes them.
#[derive(Clone, Copy, Debug, PartialEq, Eq, Structural)]
pub enum FsError {
    /// The requested entry or identity does not exist.
    NotFound,
    /// The operation needs a file but found a folder.
    NotAFile,
    /// The operation needs a folder but found a file.
    NotAFolder,
    /// The handle was never issued or is already released.
    BadHandle,
}

/// The kind a node is reported as.
#[derive(Clone, Copy, Debug, PartialEq, Eq, Structural)]
pub enum FileKind {
    RegularFile,
    Directory,
    Symlink,
    NamedPipe,
}

/// Attributes as reported to the kernel, seconds-resolution timestamps.
#[derive(Clone, Copy, Debug, PartialEq, Eq, Structural)]
pub struct Attr {
    pub ino: u64,
    pub size: u64,
    pub blocks: u64,
    pub atime_secs: u64,
    pub mtime_secs: u64,
    pub ctime_secs: u64,
    pub crtime_secs: u64,
    pub kind: FileKind,
    pub perm: u16,
    pub nlink: u32,
    pub uid: u32,
    pub gid: u32,
    pub rdev: u32,
    pub blksize: u32,
    pub flags: u32,
}

/// What the host filesystem reports of a redirect target, as plain values.
#[derive(Clone, Copy, Debug, PartialEq, Eq, Structural)]
pub struct HostMetadata {
    pub size: u64,
    pub blocks: u64,
    pub atime: i64,
    pub mtime: i64,
    pub ctime: i64,
    pub mode: u32,
    pub nlink: u64,
    pub uid: u32,
    pub gid: u32,
    pub rdev: u64,
    pub blksize: u64,
    pub is_dir: bool,
    pub is_file: bool,
    pub is_symlink: bool,
}

/// Synthetic permission bits of a virtual folder.
pub const FOLDER_PERM: u16 = 0o755;

/// Synthetic link count of a virtual folder.
pub const FOLDER_NLINK: u32 = 2;

/// Synthetic owner of a virtual folder.
pub const FOLDER_UID: u32 = 501;

/// Synthetic group of a virtual folder.
pub const FOLDER_GID: u32 = 20;

/// Synthetic block size of a virtual folder.
pub const FOLDER_BLKSIZE: u32 = 512;

/// The synthetic attributes of the virtual folder with the given identity:
/// fixed permissions, link count two, zero size, epoch timestamps.
pub open spec fn spec_folder_attr(ino: u64) -> Attr {
    Attr {
        ino,
        size: 0,
        blocks: 0,
        atime_secs: 0,
        mtime_secs: 0,
        ctime_secs: 0,
        crtime_secs: 0,
        kind: FileKind::Directory,
        perm: FOLDER_PERM,
        nlink: FOLDER_NLINK,
        uid: FOLDER_UID,
        gid: FOLDER_GID,
        rdev: 0,
        blksize: FOLDER_BLKSIZE,
        flags: 0,
    }
}

/// Builds the synthetic attributes of a virtual folder, keyed by the node's
/// own identity.
pub fn make_folder_attr(inode: &INode) -> (a: Attr)
    ensures
        a == spec_folder_attr(inode.spec_ino()),
{
    Attr {
        ino: inode.get_ino(),
        size: 0,
        blocks: 0,
        atime_secs: 0,
        mtime_secs: 0,
        ctime_secs: 0,
        crtime_secs: 0,
        kind: FileKind::Directory,
        perm: FOLDER_PERM,
        nlink: FOLDER_NLINK,
        uid: FOLDER_UID,
        gid: FOLDER_GID,
        rdev: 0,
        blksize: FOLDER_BLKSIZE,
        flags: 0,
    }
}

/// The kind the host metadata describes.
pub open spec fn spec_file_kind(m: HostMetadata) -> FileKind {
    if m.is_dir {
        FileKind::Directory
    } else if m.is_file {
        FileKind::RegularFile
    } else if m.is_symlink {
        FileKind::Symlink
    } else {
        FileKind::NamedPipe
    }
}

/// The attributes reported for a redirect target: the host metadata carried
/// over field by field, except that the reported identity is the virtual
/// node's, never the host file's.
pub open spec fn spec_file_attr(ino: u64, m: HostMetadata) -> Attr {
    Attr {
        ino,
        size: m.size,
        blocks: m.blocks,
        atime_secs: m.atime as u64,
        mtime_secs: m.mtime as u64,
        ctime_secs: m.ctime as u64,
        crtime_secs: 0,
        kind: spec_file_kind(m),
        perm: m.mode as u16,
        nlink: m.nlink as u32,
        uid: m.uid,
        gid: m.gid,
        rdev: m.rdev as u32,
        blksize: m.blksize as u32,
        flags: 0,
    }
}

/// Builds the attribute reply for a redirect target from its freshly
/// fetched host metadata, reporting the virtual identity `ino`.
pub fn make_file_attr(ino: u64, m: &HostMetadata) -> (a: Attr)
    ensures
        a == spec_file_attr(ino, *m),
{
    let kind = if m.is_dir {
        FileKind::Directory
    } else if m.is_file {
        FileKind::RegularFile
    } else if m.is_symlink {
        FileKind::Symlink
    } else {
        FileKind::NamedPipe
    };
    Attr {
        ino,
        size: m.size,
        blocks: m.blocks,
        atime_secs: #[verifier::truncate] (m.atime as u64),
        mtime_secs: #[verifier::truncate] (m.mtime as u64),
        ctime_secs: #[verifier::truncate] (m.ctime as u64),
        crtime_secs: 0,
        kind,
        perm: #[verifier::truncate] (m.mode as u16),
        nlink: #[verifier::truncate] (m.nlink as u32),
        uid: m.uid,
        gid: m.gid,
        rdev: #[verifier::truncate] (m.rdev as u32),
        blksize: #[verifier::truncate] (m.blksize as u32),
        flags: 0,
    }
}

/// How an attribute request (lookup or getattr) is answered: not at all, at
/// once with synthetic folder attributes, or by stating the named file's
/// redirect target on the host.
#[derive(Clone, Copy, Debug, PartialEq, Eq, Structural)]
pub enum AttrPlan {
    NotFound,
    Folder(Attr),
    StatFile { ino: u64 },
}

/// The answer getattr owes for identity `ino`.
pub open spec fn spec_getattr_plan(t: INodeTable, ino: u64) -> AttrPlan {
    if !(1 <= ino <= t.spec_len()) {
        AttrPlan::NotFound
    } else if t.nodes()[ino - 1] is Folder {
        AttrPlan::Folder(spec_folder_attr(ino))
    } else {
        AttrPlan::StatFile { ino }
    }
}

/// Decides a getattr request: an unknown identity fails, a folder is
/// answered at once with its synthetic attributes, a file must be stat'd
/// on the host.
pub fn getattr_plan(table: &INodeTable, ino: u64) -> (r: AttrPlan)
    requires
        table.wf(),
    ensures
        r == spec_getattr_plan(*table, ino),
{
    let Some(node) = table.get_by_ino(ino) else { return AttrPlan::NotFound };
    match node {
        INode::Folder { .. } => AttrPlan::Folder(make_folder_attr(node)),
        INode::File { .. } => AttrPlan::StatFile { ino },
    }
}

/// The answer lookup owes for the child named `name` under `parent`.
pub open spec fn spec_lookup_plan(t: INodeTable, parent: u64, name: Seq<char>) -> AttrPlan {
    match t.spec_lookup(parent, name) {
        Option::None => AttrPlan::NotFound,
        Option::Some(c) => {
            if t.nodes()[c - 1] is Folder {
                AttrPlan::Folder(spec_folder_attr(c))
            } else {
                AttrPlan::StatFile { ino: c }
            }
        },
    }
}

/// Decides a lookup request: resolves `name` under the folder `parent`; a
/// missing entry fails, a folder child is answered at once, a file child
/// must be stat'd on the host.
pub fn lookup_plan(table: &INodeTable, parent: u64, name: &str) -> (r: AttrPlan)
    requires
        table.wf(),
    ensures
        r == spec_lookup_plan(*table, parent, name@),
{
    let Some(node) = table.lookup(parent, name) else { return AttrPlan::NotFound };
    match node {
        INode::Folder { .. } => AttrPlan::Folder(make_folder_attr(node)),
        INode::File { .. } => AttrPlan::StatFile { ino: node.get_ino() },
    }
}

/// The answer open owes for identity `ino`: only files can be opened.
pub open spec fn spec_open_plan(t: INodeTable, ino: u64) -> Result<u64, FsError> {
    if !(1 <= ino <= t.spec_len()) {
        Result::Err(FsError::NotFound)
    } else if t.nodes()[ino - 1] is Folder {
        Result::Err(FsError::NotAFile)
    } else {
        Result::Ok(ino)
    }
}

/// Decides an open request: an unknown identity fails, a folder is
/// rejected, a file is to be opened on the host at its redirect target.
pub fn open_plan(table: &INodeTable, ino: u64) -> (r: Result<u64, FsError>)
    requires
        table.wf(),
    ensures
        r == spec_open_plan(*table, ino),
{
    let Some(node) = table.get_by_ino(ino) else { return Err(FsError::NotFound) };
    match node {
        INode::Folder { .. } => Err(FsError::NotAFile),
        INode::File { .. } => Ok(ino),
    }
}

/// The redirect target path of the file node `ino`, for the host call.
pub fn target_of<'a>(table: &'a INodeTable, ino: u64) -> (r: Option<&'a String>)
    ensures
        match r {
            Some(t) => 1 <= ino <= table.spec_len() && table.nodes()[ino - 1] is File && t@
                == table.nodes()[ino - 1].spec_target(),
            None => !(1 <= ino <= table.spec_len()) || table.nodes()[ino - 1] is Folder,
        },
{
    let Some(node) = table.get_by_ino(ino) else { return None };
    node.get_target()
}

/// How many bytes a read of `size` at `offset` in a file of `file_size`
/// bytes returns: `size`, clipped at end of file.
pub open spec fn spec_read_size(size: u32, file_size: u64, offset: u64) -> u32 {
    if offset >= file_size {
        0
    } else if file_size - offset < size {
        (file_size - offset) as u32
    } else {
        size
    }
}

/// Clips a read of `size` bytes at `offset` against the file's size.
pub fn read_size(size: u32, file_size: u64, offset: u64) -> (n: u32)
    ensures
        n == spec_read_size(size, file_size, offset),
        n <= size,
        offset + n <= file_size || n == 0,
{
    if offset >= file_size {
        0
    } else {
        let rem = file_size - offset;
        if rem < size as u64 {
            rem as u32
        } else {
            size
        }
    }
}

/// One directory listing entry: the entry's identity, its one-based
/// position as the pagination cookie, its kind and its name.
#[derive(Debug)]
pub struct DirEntry {
    pub ino: u64,
    pub cookie: u64,
    pub kind: FileKind,
    pub name: String,
}

/// The kind a node is listed as.
pub open spec fn spec_kind_of(n: INode) -> FileKind {
    if n is Folder {
        FileKind::Directory
    } else {
        FileKind::RegularFile
    }
}

/// The full listing of folder `ino`, without pagination: the folder itself,
/// its parent when it has one, then the children in name order — for each,
/// the identity, the listed kind and the name.
pub open spec fn spec_listing(t: INodeTable, ino: u64) -> Seq<(u64, FileKind, Seq<char>)> {
    let n = t.nodes()[ino - 1];
    let self_entry = seq![(ino, FileKind::Directory, seq!['.'])];
    let par = n.spec_parent();
    let head = if 1 <= par <= t.spec_len() {
        self_entry + seq![(par, FileKind::Directory, seq!['.', '.'])]
    } else {
        self_entry
    };
    head + n.spec_entries().map_values(
        |e: NameEntry| (e.1, spec_kind_of(t.nodes()[e.1 - 1]), e.0@),
    )
}

/// The failure readdir owes for identity `ino`, if any.
pub open spec fn spec_readdir_err(t: INodeTable, ino: u64) -> Option<FsError> {
    if !(1 <= ino <= t.spec_len()) {
        Option::Some(FsError::NotFound)
    } else if t.nodes()[ino - 1] is File {
        Option::Some(FsError::NotAFolder)
    } else {
        Option::None
    }
}

/// A folder lists each child once, so it has fewer entries than the table
/// has nodes.
proof fn lemma_entries_bound(t: Seq<INode>, i: int)
    requires
        0 <= i < t.len(),
        folder_ok(t, i),
    ensures
        t[i].spec_entries().len() <= t.len(),
{
    let es = t[i].spec_entries();
    let cs = Seq::new(es.len(), |k: int| es[k].1 as int);
    assert(cs.no_duplicates()) by {
        assert forall|a: int, b: int|
            0 <= a < cs.len() && 0 <= b < cs.len() && a != b implies cs[a] != cs[b] by {
            assert(t[es[a].1 - 1].spec_name() == es[a].0@);
            assert(t[es[b].1 - 1].spec_name() == es[b].0@);
            if es[a].1 == es[b].1 {
                if a < b {
                    crate::order::lemma_seq_lt_irrefl(es[a].0@);
                } else {
                    crate::order::lemma_seq_lt_irrefl(es[b].0@);
                }
            }
        }
    }
    cs.unique_seq_to_set();
    assert(cs.to_set().subset_of(vstd::set_lib::set_int_range(i + 2, t.len() as int + 1))) by {
        assert forall|x: int| cs.to_set().contains(x) implies vstd::set_lib::set_int_range(
            i + 2,
            t.len() as int + 1,
        ).contains(x) by {
            assert(cs.contains(x));
            let k = choose|k: int| 0 <= k < cs.len() && cs[k] == x;
            assert(i + 1 < es[k].1 <= t.len());
        }
    }
    vstd::set_lib::lemma_int_range(i + 2, t.len() as int + 1);
    vstd::set_lib::lemma_len_subset(
        cs.to_set(),
        vstd::set_lib::set_int_range(i + 2, t.len() as int + 1),
    );
}

/// Answers a readdir request for folder `ino`, resuming after `offset`
/// entries: the tail of the full listing from that offset, each entry
/// carrying its one-based position in the full listing as its cookie. An
/// unknown identity or a file fails instead.
#[verifier::loop_isolation(false)]
#[verifier::rlimit(100)]
pub fn readdir_entries(table: &INodeTable, ino: u64, offset: u64) -> (r: Result<
    Vec<DirEntry>,
    FsError,
>)
    requires
        table.wf(),
        table.spec_len() <= u64::MAX - 2,
    ensures
        match r {
            Result::Ok(v) => {
                let l = spec_listing(*table, ino);
                &&& spec_readdir_err(*table, ino) is None
                &&& v@.len() == if offset < l.len() {
                    l.len() - offset
                } else {
                    0
                }
                &&& forall|k: int|
                    0 <= k < v@.len() ==> ((#[trigger] v@[k]).ino, v@[k].kind, v@[k].name@)
                        == l[offset + k] && v@[k].cookie == offset + k + 1
            },
            Result::Err(e) => spec_readdir_err(*table, ino) == Option::Some(e),
        },
{
    let Some(node) = table.get_by_ino(ino) else { return Err(FsError::NotFound) };
    let (par, entries) = match node {
        INode::File { .. } => {
            return Err(FsError::NotAFolder);
        },
        INode::Folder { parent, entries, .. } => (*parent, entries),
    };
    proof {
        assert(folder_ok(table.nodes(), ino - 1)) by {
            reveal(folders_ok);
        }
        lemma_entries_bound(table.nodes(), ino - 1);
    }
    let ghost l = spec_listing(*table, ino);
    let has_parent = 1 <= par && par <= table.len() as u64;
    let ghost base: int = if has_parent {
        2
    } else {
        1
    };
    proof {
        assert(l.len() == base + entries@.len());
        assert(l[0] == (ino, FileKind::Directory, seq!['.']));
        if has_parent {
            assert(l[1] == (par, FileKind::Directory, seq!['.', '.']));
        }
        assert(forall|k: int|
            0 <= k < entries@.len() ==> l[base + k] == (
                (#[trigger] entries@[k]).1,
                spec_kind_of(table.nodes()[entries@[k].1 - 1]),
                entries@[k].0@,
            ));
    }
    let mut v: Vec<DirEntry> = Vec::new();
    let mut pos: u64 = 0;
    if pos >= offset {
        v.push(
            DirEntry { ino, cookie: pos + 1, kind: FileKind::Directory, name: ".".to_owned() },
        );
        proof {
            reveal_strlit(".");
        }
    }
    pos = pos + 1;
    if has_parent {
        if pos >= offset {
            v.push(
                DirEntry {
                    ino: par,
                    cookie: pos + 1,
                    kind: FileKind::Directory,
                    name: "..".to_owned(),
                },
            );
            proof {
                reveal_strlit("..");
            }
        }
        pos = pos + 1;
    }
    let n = entries.len();
    let mut k: usize = 0;
    while k < n
        invariant
            n == entries@.len(),
            0 <= k <= n,
            pos == base + k,
            v@.len() == if pos > offset {
                pos - offset
            } else {
                0
            },
            forall|i: int|
                0 <= i < v@.len() ==> ((#[trigger] v@[i]).ino, v@[i].kind, v@[i].name@) == l[offset
                    + i] && v@[i].cookie == offset + i + 1,
        decreases n - k,
    {
        let c = entries[k].1;
        proof {
            assert(ino - 1 + 1 < c <= table.spec_len());
        }
        let Some(child) = table.get_by_ino(c) else { unreached() };
        let kind = match child {
            INode::Folder { .. } => FileKind::Directory,
            INode::File { .. } => FileKind::RegularFile,
        };
        if pos >= offset {
            v.push(DirEntry { ino: c, cookie: pos + 1, kind, name: entries[k].0.clone() });
        }
        pos = pos + 1;
        k += 1;
    }
    proof {
        assert(pos == l.len());
    }
    Ok(v)
}


/// Readdir pagination is consistent: the page of `k` entries a call at
/// `offset` returns, followed by what a call at `offset + k` returns,
/// reproduces exactly what a single call at `offset` returns — so
/// repeated calls, each resuming where the last stopped, concatenate to
/// the full, non-duplicated, stably-ordered listing.
pub proof fn lemma_readdir_pagination(t: INodeTable, ino: u64, offset: int, k: int)
    requires
        0 <= offset,
        0 <= k,
        offset + k <= spec_listing(t, ino).len(),
    ensures
        ({
            let l = spec_listing(t, ino);
            l.skip(offset).take(k) + l.skip(offset + k) == l.skip(offset)
        }),
{
    let l = spec_listing(t, ino);
    assert(l.skip(offset).take(k) + l.skip(offset + k) =~= l.skip(offset));
}

} // verus!
