//! The node graph and its identity table.
//!
//! The mapping description is turned, once at startup, into a flat table of
//! nodes indexed by identity: node `ino` sits at index `ino - 1`. A folder
//! holds its children as a name-sorted list of `(name, ino)` entries, and
//! every node records its parent's identity (`0` for the root). The table is
//! immutable once built; all per-request reads resolve against it.

use vstd::prelude::*;

use crate::mapping::Path;
use crate::order::{distinct_names, sort_entries, sorted_strict, str_eq, NameEntry};

verus! {

broadcast use vstd::std_specs::vec::axiom_vec_index_decreases;

/// One node of the graph: a redirecting file or a synthetic folder.
#[derive(Debug)]
pub enum INode {
    File { ino: u64, parent: u64, name: String, target: String },
    Folder { ino: u64, parent: u64, name: String, entries: Vec<NameEntry> },
}

impl INode {
    /// The node's identity.
    pub open spec fn spec_ino(self) -> u64 {
        match self {
            INode::File { ino, .. } => ino,
            INode::Folder { ino, .. } => ino,
        }
    }

    /// The identity of the node's parent; `0` for the root.
    pub open spec fn spec_parent(self) -> u64 {
        match self {
            INode::File { parent, .. } => parent,
            INode::Folder { parent, .. } => parent,
        }
    }

    /// The node's name.
    pub open spec fn spec_name(self) -> Seq<char> {
        match self {
            INode::File { name, .. } => name@,
            INode::Folder { name, .. } => name@,
        }
    }

    /// The redirect target of a file; empty for a folder.
    pub open spec fn spec_target(self) -> Seq<char> {
        match self {
            INode::File { target, .. } => target@,
            INode::Folder { .. } => Seq::empty(),
        }
    }

    /// The child entries of a folder; empty for a file.
    pub open spec fn spec_entries(self) -> Seq<NameEntry> {
        match self {
            INode::File { .. } => Seq::empty(),
            INode::Folder { entries, .. } => entries@,
        }
    }

    /// The node's name.
    pub fn get_name(&self) -> (r: &String)
        ensures
            r@ == self.spec_name(),
    {
        match self {
            INode::File { name, .. } => name,
            INode::Folder { name, .. } => name,
        }
    }

    /// The node's identity.
    pub fn get_ino(&self) -> (r: u64)
        ensures
            r == self.spec_ino(),
    {
        match self {
            INode::File { ino, .. } => *ino,
            INode::Folder { ino, .. } => *ino,
        }
    }

    /// The identity of the node's parent; `0` for the root.
    pub fn get_parent(&self) -> (r: u64)
        ensures
            r == self.spec_parent(),
    {
        match self {
            INode::File { parent, .. } => *parent,
            INode::Folder { parent, .. } => *parent,
        }
    }

    /// The redirect target of a file node.
    pub fn get_target(&self) -> (r: Option<&String>)
        ensures
            match r {
                Some(t) => self is File && t@ == self.spec_target(),
                None => self is Folder,
            },
    {
        match self {
            INode::File { target, .. } => Some(target),
            INode::Folder { .. } => None,
        }
    }

    /// The identity of this node's child of the given name, if any. Files
    /// have no children.
    pub fn lookup(&self, name: &str) -> (r: Option<u64>)
        ensures
            r == entry_lookup(self.spec_entries(), name@),
    {
        match self {
            INode::File { .. } => None,
            INode::Folder { entries, .. } => {
                let n = entries.len();
                let mut k: usize = 0;
                proof {
                    assert(entries@.skip(0) =~= entries@);
                }
                while k < n
                    invariant
                        n == entries@.len(),
                        0 <= k <= n,
                        self->entries == *entries,
                        entry_lookup(self.spec_entries(), name@) == entry_lookup(
                            entries@.skip(k as int),
                            name@,
                        ),
                    decreases n - k,
                {
                    proof {
                        assert(entries@.skip(k as int)[0] == entries@[k as int]);
                        assert(entries@.skip(k as int).drop_first() =~= entries@.skip(k as int + 1));
                    }
                    if str_eq(entries[k].0.as_str(), name) {
                        return Some(entries[k].1);
                    }
                    k += 1;
                }
                proof {
                    assert(entries@.skip(n as int).len() == 0);
                }
                None
            },
        }
    }
}

/// The identity carried by the first entry of the given name, scanning in
/// order.
pub open spec fn entry_lookup(es: Seq<NameEntry>, name: Seq<char>) -> Option<u64>
    decreases es.len(),
{
    if es.len() == 0 {
        None
    } else if es[0].0@ == name {
        Some(es[0].1)
    } else {
        entry_lookup(es.drop_first(), name)
    }
}

/// Whether the entry list holds the pair `(name, ino)`.
pub open spec fn entries_contain(es: Seq<NameEntry>, name: Seq<char>, ino: u64) -> bool {
    exists|k: int| 0 <= k < es.len() && (#[trigger] es[k]).0@ == name && es[k].1 == ino
}

/// What a successful or failed entry scan means for the list itself.
pub proof fn lemma_entry_lookup(es: Seq<NameEntry>, name: Seq<char>)
    ensures
        match entry_lookup(es, name) {
            Some(c) => entries_contain(es, name, c),
            None => forall|k: int| 0 <= k < es.len() ==> (#[trigger] es[k]).0@ != name,
        },
    decreases es.len(),
{
    if es.len() > 0 {
        if es[0].0@ == name {
            assert(entries_contain(es, name, es[0].1)) by {
                assert(0 <= 0 < es.len() && es[0].0@ == name);
            }
        } else {
            lemma_entry_lookup(es.drop_first(), name);
            match entry_lookup(es.drop_first(), name) {
                Some(c) => {
                    let k = choose|k: int|
                        0 <= k < es.drop_first().len() && (#[trigger] es.drop_first()[k]).0@ == name
                            && es.drop_first()[k].1 == c;
                    assert(es[k + 1] == es.drop_first()[k]);
                },
                None => {
                    assert forall|k: int| 0 <= k < es.len() implies (#[trigger] es[k]).0@
                        != name by {
                        if k > 0 {
                            assert(es.drop_first()[k - 1] == es[k]);
                        }
                    }
                },
            }
        }
    }
}

/// Every node's identity is its table position plus one, from `lo` on.
pub open spec fn inos_ok(t: Seq<INode>, lo: int) -> bool {
    forall|i: int| lo <= i < t.len() ==> (#[trigger] t[i]).spec_ino() == i + 1
}

/// From `lo + 1` on, every node's parent is an earlier folder of the same
/// segment, and that folder lists the node under its own name. Kept opaque:
/// proofs reveal it where they take it apart.
#[verifier::opaque]
pub open spec fn children_ok(t: Seq<INode>, lo: int) -> bool {
    forall|i: int|
        lo < i < t.len() ==> {
            let p = (#[trigger] t[i]).spec_parent() as int;
            &&& lo + 1 <= p <= i
            &&& t[p - 1] is Folder
            &&& entries_contain(t[p - 1].spec_entries(), t[i].spec_name(), (i + 1) as u64)
        }
}

/// A folder's entry list is sorted strictly by name, and each entry points
/// at a later node that records this folder as parent and bears the entry's
/// name.
pub open spec fn folder_ok(t: Seq<INode>, i: int) -> bool {
    let es = t[i].spec_entries();
    &&& sorted_strict(es)
    &&& forall|k: int|
        0 <= k < es.len() ==> {
            let c = (#[trigger] es[k]).1 as int;
            &&& i + 1 < c <= t.len()
            &&& t[c - 1].spec_parent() == i + 1
            &&& t[c - 1].spec_name() == es[k].0@
        }
}

/// `folder_ok` for every folder from `lo` on. Kept opaque: proofs reveal it
/// where they take it apart.
#[verifier::opaque]
pub open spec fn folders_ok(t: Seq<INode>, lo: int) -> bool {
    forall|i: int| lo <= i < t.len() && (#[trigger] t[i]) is Folder ==> folder_ok(t, i)
}

/// How the table realises a mapping description subtree rooted at identity
/// `ino`: the node bears the description's name, a file keeps its redirect
/// target, and a folder resolves each described child's name to a later
/// identity that realises that child, with no entries beyond the described
/// ones.
///
/// The identities themselves are pinned: the `j`-th described child of a
/// folder at `ino` sits at `ino + 1 + count_children(folder, j)` — right
/// after the folder and the subtrees of the children described before it.
/// So identities are assigned in one pre-order walk, a node before its
/// children, sibling subtrees consecutive in order of appearance, and the
/// whole assignment is a function of the description alone.
pub open spec fn represents(t: Seq<INode>, ino: int, p: Path) -> bool
    decreases p,
{
    &&& 1 <= ino <= t.len()
    &&& t[ino - 1].spec_name() == p.spec_name()
    &&& match p {
        Path::File { path, .. } => t[ino - 1] is File && t[ino - 1].spec_target() == path@,
        Path::Folder { paths, .. } => {
            let es = t[ino - 1].spec_entries();
            &&& t[ino - 1] is Folder
            &&& es.len() == paths@.len()
            &&& forall|j: int|
                0 <= j < paths@.len() ==> {
                    let c = entry_lookup(es, (#[trigger] paths@[j]).0@);
                    &&& c is Some
                    &&& c->0 as int == ino + 1 + Path::count_children(p, j)
                    &&& represents(t, c->0 as int, paths@[j].1)
                }
            &&& forall|k: int|
                0 <= k < es.len() ==> exists|j: int|
                    0 <= j < paths@.len() && (#[trigger] es[k]).0@ == paths@[j].0@
        },
    }
}

/// A realisation only reads the table from its root on, so extending the
/// table, or changing it before the root, does not disturb it.
pub proof fn lemma_represents_stable(t1: Seq<INode>, t2: Seq<INode>, ino: int, p: Path)
    requires
        represents(t1, ino, p),
        t1.len() <= t2.len(),
        forall|i: int| ino - 1 <= i < t1.len() ==> t2[i] == t1[i],
    ensures
        represents(t2, ino, p),
    decreases p,
{
    assert(t2[ino - 1] == t1[ino - 1]);
    match p {
        Path::File { .. } => {
        },
        Path::Folder { paths, .. } => {
            let es = t1[ino - 1].spec_entries();
            assert forall|j: int| 0 <= j < paths@.len() implies {
                let c = entry_lookup(t2[ino - 1].spec_entries(), (#[trigger] paths@[j]).0@);
                &&& c is Some
                &&& c->0 as int == ino + 1 + Path::count_children(p, j)
                &&& represents(t2, c->0 as int, paths@[j].1)
            } by {
                let c = entry_lookup(es, paths@[j].0@);
                assert(c is Some && c->0 as int == ino + 1 + Path::count_children(p, j)
                    && represents(t1, c->0 as int, paths@[j].1));
                lemma_represents_stable(t1, t2, c->0 as int, paths@[j].1);
            }
        },
    }
}

/// With pairwise-distinct names, holding a pair is the same as the scan
/// finding it.
pub proof fn lemma_entry_lookup_unique(es: Seq<NameEntry>, name: Seq<char>, ino: u64)
    requires
        distinct_names(es),
        entries_contain(es, name, ino),
    ensures
        entry_lookup(es, name) == Some(ino),
    decreases es.len(),
{
    let k = choose|k: int| 0 <= k < es.len() && (#[trigger] es[k]).0@ == name && es[k].1 == ino;
    if k == 0 {
    } else {
        assert(es[0].0@ != name);
        assert(es.drop_first()[k - 1] == es[k]);
        assert(entries_contain(es.drop_first(), name, ino));
        assert(distinct_names(es.drop_first())) by {
            assert(forall|a: int, b: int|
                0 <= a < es.drop_first().len() && 0 <= b < es.drop_first().len() && a != b
                    ==> #[trigger] es.drop_first()[a] == es[a + 1] && #[trigger] es.drop_first()[b]
                    == es[b + 1]);
        }
        lemma_entry_lookup_unique(es.drop_first(), name, ino);
    }
}

/// The identity table: a dense array of nodes, node `ino` at index
/// `ino - 1`, the root at identity `1`.
#[derive(Debug)]
pub struct INodeTable {
    table: Vec<INode>,
}

impl INodeTable {
    /// The nodes of the table, in identity order.
    pub closed spec fn nodes(self) -> Seq<INode> {
        self.table@
    }

    /// Number of nodes in the table.
    pub open spec fn spec_len(self) -> nat {
        self.nodes().len()
    }

    /// Well-formedness: identities are dense and positional, the root has no
    /// parent, parent links point at folders that list their children, and
    /// folder entries are name-sorted and consistent.
    pub open spec fn wf(self) -> bool {
        let t = self.nodes();
        &&& t.len() >= 1
        &&& t[0].spec_parent() == 0
        &&& inos_ok(t, 0)
        &&& children_ok(t, 0)
        &&& folders_ok(t, 0)
    }

    /// Number of nodes in the table.
    pub fn len(&self) -> (n: usize)
        ensures
            n == self.spec_len(),
    {
        self.table.len()
    }

    /// Resolves an identity to its node: constant-time, `None` when out of
    /// range.
    pub fn get_by_ino(&self, ino: u64) -> (r: Option<&INode>)
        ensures
            match r {
                Some(n) => 1 <= ino <= self.spec_len() && *n == self.nodes()[ino - 1],
                None => !(1 <= ino <= self.spec_len()),
            },
    {
        if ino >= 1 && ino <= self.table.len() as u64 {
            Some(&self.table[(ino - 1) as usize])
        } else {
            None
        }
    }

    /// What looking a name up under a parent identity returns: the identity
    /// of the named child, `None` when the parent does not resolve, is a
    /// file, or has no child of that name.
    pub open spec fn spec_lookup(self, ino: u64, name: Seq<char>) -> Option<u64> {
        if 1 <= ino <= self.spec_len() {
            entry_lookup(self.nodes()[ino - 1].spec_entries(), name)
        } else {
            None
        }
    }

    /// Builds the identity table from a mapping description in one
    /// pre-order traversal: the root gets identity `1`, every node comes
    /// before its children, and sibling subtrees sit consecutively in the
    /// order the description lists them — `represents` pins each child of a
    /// folder at `ino` to identity `ino + 1 + count_children(folder, j)`,
    /// so the whole assignment is a fixed, deterministic function of the
    /// description. Every node's parent is wired, and each folder's entries
    /// are sorted by name.
    pub fn from_mapping(root: &Path) -> (t: INodeTable)
        requires
            root.wf(),
            root.count() <= usize::MAX,
        ensures
            t.wf(),
            t.spec_len() == root.count(),
            represents(t.nodes(), 1, *root),
    {
        let mut table: Vec<INode> = Vec::new();
        proof {
            Path::lemma_count_pos(*root);
        }
        build_node(&mut table, root, 0);
        INodeTable { table }
    }

    /// Looks up the child named `name` of the node identified by `ino`.
    pub fn lookup(&self, ino: u64, name: &str) -> (r: Option<&INode>)
        requires
            self.wf(),
        ensures
            match r {
                Some(n) => self.spec_lookup(ino, name@) == Some(n.spec_ino()) && 1 <= n.spec_ino()
                    <= self.spec_len() && *n == self.nodes()[n.spec_ino() - 1],
                None => self.spec_lookup(ino, name@) is None,
            },
    {
        let Some(node) = self.get_by_ino(ino) else { return None };
        let Some(c) = node.lookup(name) else { return None };
        proof {
            assert(self.spec_lookup(ino, name@) == Some(c));
            lemma_entry_lookup(node.spec_entries(), name@);
            assert(node is Folder) by {
                if node is File {
                    assert(node.spec_entries().len() == 0);
                }
            }
            let k = choose|k: int|
                0 <= k < node.spec_entries().len() && (#[trigger] node.spec_entries()[k]).0@
                    == name@ && node.spec_entries()[k].1 == c;
            assert(folder_ok(self.nodes(), ino - 1)) by {
                reveal(folders_ok);
            }
            assert(ino < c <= self.spec_len());
            assert(self.nodes()[c - 1].spec_ino() == c);
        }
        let res = self.get_by_ino(c);
        proof {
            assert(res is Some);
        }
        res
    }
}


/// Parent wiring of every node after position `lo`, while the folder at
/// `lo` itself still has its entries held aside in `es`.
#[verifier::opaque]
spec fn partial_children_ok(t: Seq<INode>, lo: int, es: Seq<NameEntry>) -> bool {
    forall|i: int|
        lo < i < t.len() ==> {
            let p = (#[trigger] t[i]).spec_parent() as int;
            &&& lo + 1 <= p <= i
            &&& t[p - 1] is Folder
            &&& (p != lo + 1 ==> entries_contain(
                t[p - 1].spec_entries(),
                t[i].spec_name(),
                (i + 1) as u64,
            ))
            &&& (p == lo + 1 ==> entries_contain(es, t[i].spec_name(), (i + 1) as u64))
        }
}

/// The first `j` collected entries stand for the first `j` children of the
/// folder description `p`: right name, the pinned identity right after the
/// earlier sibling subtrees, child built with this folder as parent.
#[verifier::opaque]
spec fn entries_match(t: Seq<INode>, fi: u64, es: Seq<NameEntry>, p: Path, j: int) -> bool {
    forall|jj: int|
        0 <= jj < j ==> {
            let e = #[trigger] es[jj];
            &&& e.0@ == p->paths@[jj].0@
            &&& e.1 as int == fi + 1 + Path::count_children(p, jj)
            &&& fi < e.1 <= t.len()
            &&& t[e.1 - 1].spec_parent() == fi
            &&& t[e.1 - 1].spec_name() == e.0@
            &&& represents(t, e.1 as int, p->paths@[jj].1)
        }
}

/// Extending the table after `t_before` keeps every earlier position.
proof fn lemma_prefix_pointwise(t_before: Seq<INode>, t_now: Seq<INode>)
    requires
        t_before.len() <= t_now.len(),
        t_now.subrange(0, t_before.len() as int) == t_before,
    ensures
        forall|i: int| 0 <= i < t_before.len() ==> t_now[i] == #[trigger] t_before[i],
{
    assert forall|i: int| 0 <= i < t_before.len() implies t_now[i] == #[trigger] t_before[i] by {
        assert(t_now.subrange(0, t_before.len() as int)[i] == t_now[i]);
    }
}

/// Positional identities carry over an extension whose own identities are
/// positional.
proof fn lemma_seg_inos(t_before: Seq<INode>, t_now: Seq<INode>, lo: int)
    requires
        0 <= lo,
        t_before.len() <= t_now.len(),
        t_now.subrange(0, t_before.len() as int) == t_before,
        inos_ok(t_before, lo),
        inos_ok(t_now, t_before.len() as int),
    ensures
        inos_ok(t_now, lo),
{
    lemma_prefix_pointwise(t_before, t_now);
    assert forall|i: int| lo <= i < t_now.len() implies (#[trigger] t_now[i]).spec_ino() == i
        + 1 by {
        if i < t_before.len() {
            assert(t_before[i].spec_ino() == i + 1);
        }
    }
}

/// Folder consistency carries over an extension that is itself consistent.
proof fn lemma_seg_folders(t_before: Seq<INode>, t_now: Seq<INode>, lo: int)
    requires
        0 <= lo,
        t_before.len() <= t_now.len(),
        t_now.subrange(0, t_before.len() as int) == t_before,
        folders_ok(t_before, lo + 1),
        folders_ok(t_now, t_before.len() as int),
    ensures
        folders_ok(t_now, lo + 1),
{
    reveal(folders_ok);
    lemma_prefix_pointwise(t_before, t_now);
    let lc = t_before.len() as int;
    assert forall|i: int|
        lo + 1 <= i < t_now.len() && (#[trigger] t_now[i]) is Folder implies folder_ok(
        t_now,
        i,
    ) by {
        if i < lc {
            assert(t_before[i] is Folder);
            assert(folder_ok(t_before, i));
            assert forall|k: int| 0 <= k < t_now[i].spec_entries().len() implies {
                let c = (#[trigger] t_now[i].spec_entries()[k]).1 as int;
                &&& i + 1 < c <= t_now.len()
                &&& t_now[c - 1].spec_parent() == i + 1
                &&& t_now[c - 1].spec_name() == t_now[i].spec_entries()[k].0@
            } by {
                let c = t_now[i].spec_entries()[k].1 as int;
                assert(t_before[i].spec_entries()[k] == t_now[i].spec_entries()[k]);
                assert(i + 1 < c <= t_before.len());
                assert(t_now[c - 1] == t_before[c - 1]);
            }
        }
    }
}

/// Parent wiring carries over the building of one more child: the new
/// subtree's root points at the folder under construction and stands in the
/// collected entries, its inner nodes point into the new segment, and
/// nothing earlier moved.
proof fn lemma_seg_children(
    t_before: Seq<INode>,
    t_now: Seq<INode>,
    lo: int,
    es: Seq<NameEntry>,
)
    requires
        0 <= lo,
        t_before.len() <= t_now.len(),
        t_now.subrange(0, t_before.len() as int) == t_before,
        lo + 1 <= t_before.len(),
        t_before[lo] is Folder,
        es.len() >= 1,
        partial_children_ok(t_before, lo, es.drop_last()),
        children_ok(t_now, t_before.len() as int),
        t_now[t_before.len() as int].spec_parent() == lo + 1,
        es.last().0@ == t_now[t_before.len() as int].spec_name(),
        es.last().1 == t_before.len() + 1,
    ensures
        partial_children_ok(t_now, lo, es),
{
    reveal(partial_children_ok);
    reveal(children_ok);
    lemma_prefix_pointwise(t_before, t_now);
    let lc = t_before.len() as int;
    assert forall|i: int| lo < i < t_now.len() implies {
        let pi = (#[trigger] t_now[i]).spec_parent() as int;
        &&& lo + 1 <= pi <= i
        &&& t_now[pi - 1] is Folder
        &&& (pi != lo + 1 ==> entries_contain(
            t_now[pi - 1].spec_entries(),
            t_now[i].spec_name(),
            (i + 1) as u64,
        ))
        &&& (pi == lo + 1 ==> entries_contain(es, t_now[i].spec_name(), (i + 1) as u64))
    } by {
        if i < lc {
            let pi = t_before[i].spec_parent() as int;
            assert(lo + 1 <= pi <= i);
            assert(t_now[pi - 1] == t_before[pi - 1]);
            if pi != lo + 1 {
                assert(entries_contain(
                    t_before[pi - 1].spec_entries(),
                    t_before[i].spec_name(),
                    (i + 1) as u64,
                ));
            } else {
                assert(entries_contain(es.drop_last(), t_before[i].spec_name(), (i + 1) as u64));
                let k = choose|k: int|
                    0 <= k < es.drop_last().len() && (#[trigger] es.drop_last()[k]).0@
                        == t_before[i].spec_name() && es.drop_last()[k].1 == (i + 1) as u64;
                assert(es[k] == es.drop_last()[k]);
            }
        } else if i == lc {
            assert(es[es.len() - 1] == es.last());
            assert(t_now[lo] == t_before[lo]);
        } else {
            let pi = t_now[i].spec_parent() as int;
            assert(lc + 1 <= pi <= i);
        }
    }
}

/// The collected entries carry over the building of one more child, the
/// entry just collected for it included.
proof fn lemma_seg_entries(
    t_before: Seq<INode>,
    t_now: Seq<INode>,
    fi: u64,
    es: Seq<NameEntry>,
    p: Path,
    j: int,
)
    requires
        p is Folder,
        t_before.len() <= t_now.len(),
        t_now.subrange(0, t_before.len() as int) == t_before,
        fi <= t_before.len(),
        0 <= j < p->paths@.len(),
        es.len() == j + 1,
        entries_match(t_before, fi, es.drop_last(), p, j),
        es[j].0@ == p->paths@[j].0@,
        es[j].1 == t_before.len() + 1,
        t_before.len() as int == fi + Path::count_children(p, j),
        t_now[t_before.len() as int].spec_parent() == fi,
        t_now[t_before.len() as int].spec_name() == p->paths@[j].0@,
        represents(t_now, t_before.len() as int + 1, p->paths@[j].1),
    ensures
        entries_match(t_now, fi, es, p, j + 1),
{
    reveal(entries_match);
    lemma_prefix_pointwise(t_before, t_now);
    assert forall|jj: int| 0 <= jj < j + 1 implies {
        let e = #[trigger] es[jj];
        &&& e.0@ == p->paths@[jj].0@
        &&& e.1 as int == fi + 1 + Path::count_children(p, jj)
        &&& fi < e.1 <= t_now.len()
        &&& t_now[e.1 - 1].spec_parent() == fi
        &&& t_now[e.1 - 1].spec_name() == e.0@
        &&& represents(t_now, e.1 as int, p->paths@[jj].1)
    } by {
        if jj < j {
            assert(es[jj] == es.drop_last()[jj]);
            let e = es.drop_last()[jj];
            assert(entries_match(t_before, fi, es.drop_last(), p, j));
            assert(e.0@ == p->paths@[jj].0@ && e.1 as int == fi + 1 + Path::count_children(p, jj)
                && fi < e.1 <= t_before.len() && t_before[e.1 - 1].spec_parent() == fi
                && t_before[e.1 - 1].spec_name() == e.0@ && represents(
                t_before,
                e.1 as int,
                p->paths@[jj].1,
            ));
            lemma_represents_stable(t_before, t_now, e.1 as int, p->paths@[jj].1);
        }
    }
}

/// The folder's entries are sorted and put in place: turns the builder's
/// loop facts into the well-formedness and realisation of the whole new
/// segment.
#[verifier::rlimit(100)]
proof fn lemma_close_folder(
    t_l: Seq<INode>,
    t_f: Seq<INode>,
    node: INode,
    l0: int,
    fi: u64,
    parent: u64,
    es0: Seq<NameEntry>,
    es1: Seq<NameEntry>,
    p: Path,
)
    requires
        p.wf(),
        p is Folder,
        0 <= l0,
        fi == l0 + 1,
        es0.len() == p->paths@.len(),
        t_l.len() == l0 + 1 + Path::count_children(p, p->paths@.len() as int),
        inos_ok(t_l, l0),
        t_l[l0].spec_ino() == fi,
        folders_ok(t_l, l0 + 1),
        partial_children_ok(t_l, l0, es0),
        entries_match(t_l, fi, es0, p, p->paths@.len() as int),
        sorted_strict(es1),
        es1.len() == es0.len(),
        forall|k: int| 0 <= k < es1.len() ==> es0.contains(#[trigger] es1[k]),
        forall|k: int| 0 <= k < es0.len() ==> es1.contains(#[trigger] es0[k]),
        t_f == t_l.update(l0, node),
        node is Folder,
        node.spec_ino() == fi,
        node.spec_parent() == parent,
        node.spec_name() == p.spec_name(),
        node.spec_entries() == es1,
    ensures
        t_f.len() == l0 + p.count(),
        t_f.subrange(0, l0) == t_l.subrange(0, l0),
        t_f[l0].spec_ino() == l0 + 1,
        t_f[l0].spec_parent() == parent,
        inos_ok(t_f, l0),
        children_ok(t_f, l0),
        folders_ok(t_f, l0),
        represents(t_f, l0 + 1, p),
{
    reveal(partial_children_ok);
    reveal(entries_match);
    reveal(children_ok);
    reveal(folders_ok);
    assert(t_f.subrange(0, l0) =~= t_l.subrange(0, l0));
    assert(t_f.len() == l0 + p.count()) by {
        assert(p.count() == 1 + Path::count_children(p, p->paths@.len() as int));
    }
    crate::order::lemma_sorted_distinct(es1);
    assert forall|i: int| l0 <= i < t_f.len() implies (#[trigger] t_f[i]).spec_ino() == i + 1 by {
        if i != l0 {
            assert(t_f[i] == t_l[i]);
        }
    }
    // Each sorted entry still stands for its child.
    assert forall|k: int| 0 <= k < es1.len() implies {
        let e = #[trigger] es1[k];
        &&& fi < e.1 <= t_f.len()
        &&& t_f[e.1 - 1].spec_parent() == fi
        &&& t_f[e.1 - 1].spec_name() == e.0@
    } by {
        let jj = choose|jj: int| 0 <= jj < es0.len() && #[trigger] es0[jj] == es1[k];
        assert(entries_match(t_l, fi, es0, p, p->paths@.len() as int));
        assert(fi < es0[jj].1 <= t_l.len());
        assert(t_f[es0[jj].1 - 1] == t_l[es0[jj].1 - 1]);
    }
    // Parent wiring holds outright now.
    assert forall|i: int| l0 < i < t_f.len() implies {
        let pi = (#[trigger] t_f[i]).spec_parent() as int;
        &&& l0 + 1 <= pi <= i
        &&& t_f[pi - 1] is Folder
        &&& entries_contain(t_f[pi - 1].spec_entries(), t_f[i].spec_name(), (i + 1) as u64)
    } by {
        assert(t_f[i] == t_l[i]);
        let pi = t_l[i].spec_parent() as int;
        assert(l0 + 1 <= pi <= i);
        if pi == l0 + 1 {
            assert(entries_contain(es0, t_l[i].spec_name(), (i + 1) as u64));
            let k = choose|k: int|
                0 <= k < es0.len() && (#[trigger] es0[k]).0@ == t_l[i].spec_name() && es0[k].1 == (
            i + 1) as u64;
            assert(es1.contains(es0[k]));
            let k1 = choose|k1: int| 0 <= k1 < es1.len() && #[trigger] es1[k1] == es0[k];
            assert(entries_contain(es1, t_f[i].spec_name(), (i + 1) as u64));
            assert(t_f[pi - 1].spec_entries() == es1);
        } else {
            assert(t_f[pi - 1] == t_l[pi - 1]);
            assert(entries_contain(t_l[pi - 1].spec_entries(), t_l[i].spec_name(), (i + 1) as u64));
        }
    }
    // Folders, this one included, are consistent.
    assert forall|i: int|
        l0 <= i < t_f.len() && (#[trigger] t_f[i]) is Folder implies folder_ok(t_f, i) by {
        if i == l0 {
            assert(t_f[i].spec_entries() == es1);
        } else {
            assert(t_f[i] == t_l[i]);
            assert(folder_ok(t_l, i));
            assert forall|k: int| 0 <= k < t_f[i].spec_entries().len() implies {
                let c = (#[trigger] t_f[i].spec_entries()[k]).1 as int;
                &&& i + 1 < c <= t_f.len()
                &&& t_f[c - 1].spec_parent() == i + 1
                &&& t_f[c - 1].spec_name() == t_f[i].spec_entries()[k].0@
            } by {
                let c = t_f[i].spec_entries()[k].1 as int;
                assert(t_l[i].spec_entries()[k] == t_f[i].spec_entries()[k]);
                assert(i + 1 < c <= t_l.len());
                assert(t_f[c - 1] == t_l[c - 1]);
            }
        }
    }
    // The finished folder realises the description subtree.
    assert(represents(t_f, l0 + 1, p)) by {
        assert(t_f[l0].spec_entries() == es1);
        assert(t_f[l0].spec_name() == p.spec_name());
        assert forall|k: int| 0 <= k < es1.len() implies exists|j: int|
            0 <= j < p->paths@.len() && (#[trigger] es1[k]).0@ == p->paths@[j].0@ by {
            let jj = choose|jj: int| 0 <= jj < es0.len() && #[trigger] es0[jj] == es1[k];
            assert(entries_match(t_l, fi, es0, p, p->paths@.len() as int));
            assert(es0[jj].0@ == p->paths@[jj].0@);
        }
        assert forall|jj: int| 0 <= jj < p->paths@.len() implies {
            let c = entry_lookup(es1, (#[trigger] p->paths@[jj]).0@);
            &&& c is Some
            &&& c->0 as int == (l0 + 1) + 1 + Path::count_children(p, jj)
            &&& represents(t_f, c->0 as int, p->paths@[jj].1)
        } by {
            assert(entries_match(t_l, fi, es0, p, p->paths@.len() as int));
            let e = es0[jj];
            assert(e.0@ == p->paths@[jj].0@);
            assert(e.1 as int == fi + 1 + Path::count_children(p, jj));
            assert(es1.contains(e));
            let k1 = choose|k1: int| 0 <= k1 < es1.len() && #[trigger] es1[k1] == e;
            assert(entries_contain(es1, p->paths@[jj].0@, e.1));
            lemma_entry_lookup_unique(es1, p->paths@[jj].0@, e.1);
            assert(represents(t_l, e.1 as int, p->paths@[jj].1));
            lemma_represents_stable(t_l, t_f, e.1 as int, p->paths@[jj].1);
        }
    }
}

/// Appends the subtree of `p` to the table in pre-order, the subtree root
/// first at the next free identity, with `parent` recorded on that root.
fn build_node(tbl: &mut Vec<INode>, p: &Path, parent: u64)
    requires
        p.wf(),
        old(tbl)@.len() + p.count() <= usize::MAX,
    ensures
        final(tbl)@.len() == old(tbl)@.len() + p.count(),
        final(tbl)@.subrange(0, old(tbl)@.len() as int) == old(tbl)@,
        final(tbl)@[old(tbl)@.len() as int].spec_ino() == old(tbl)@.len() as int + 1,
        final(tbl)@[old(tbl)@.len() as int].spec_parent() == parent,
        inos_ok(final(tbl)@, old(tbl)@.len() as int),
        children_ok(final(tbl)@, old(tbl)@.len() as int),
        folders_ok(final(tbl)@, old(tbl)@.len() as int),
        represents(final(tbl)@, old(tbl)@.len() as int + 1, *p),
    decreases *p, 1int,
{
    let ghost l0 = tbl@.len() as int;
    match p {
        Path::File { name, path } => {
            let node = INode::File {
                ino: (tbl.len() as u64) + 1,
                parent,
                name: name.clone(),
                target: path.clone(),
            };
            tbl.push(node);
            proof {
                assert(tbl@.subrange(0, l0) =~= old(tbl)@);
                assert(children_ok(tbl@, l0)) by {
                    reveal(children_ok);
                }
                assert(folders_ok(tbl@, l0)) by {
                    reveal(folders_ok);
                }
            }
        },
        Path::Folder { name, paths } => {
            proof {
                assert(decreases_to!(*p, 1int => *p, 0int));
            }
            build_folder(tbl, name, paths, parent, Ghost(*p));
        },
    }
}

/// Appends a folder subtree: the folder node itself first, then each child
/// subtree in order of appearance, finally the folder's entries, sorted by
/// name. `folder` is the description node that `name` and `paths` belong
/// to.
#[verifier::loop_isolation(false)]
#[verifier::rlimit(100)]
fn build_folder(
    tbl: &mut Vec<INode>,
    name: &String,
    paths: &Vec<(String, Path)>,
    parent: u64,
    Ghost(folder): Ghost<Path>,
)
    requires
        folder.wf(),
        folder == (Path::Folder { name: *name, paths: *paths }),
        old(tbl)@.len() + folder.count() <= usize::MAX,
    ensures
        final(tbl)@.len() == old(tbl)@.len() + folder.count(),
        final(tbl)@.subrange(0, old(tbl)@.len() as int) == old(tbl)@,
        final(tbl)@[old(tbl)@.len() as int].spec_ino() == old(tbl)@.len() as int + 1,
        final(tbl)@[old(tbl)@.len() as int].spec_parent() == parent,
        inos_ok(final(tbl)@, old(tbl)@.len() as int),
        children_ok(final(tbl)@, old(tbl)@.len() as int),
        folders_ok(final(tbl)@, old(tbl)@.len() as int),
        represents(final(tbl)@, old(tbl)@.len() as int + 1, folder),
    decreases folder, 0int,
{
    let slot = tbl.len();
    let ghost l0 = tbl@.len() as int;
    let fi: u64 = (slot as u64) + 1;
    proof {
        Path::lemma_count_pos(folder);
        assert(folder.count() == 1 + Path::count_children(folder, paths@.len() as int));
    }
    tbl.push(INode::Folder { ino: fi, parent, name: name.clone(), entries: Vec::new() });
    let mut entries: Vec<NameEntry> = Vec::new();
    let mut j: usize = 0;
    proof {
        assert(tbl@.subrange(0, l0) =~= old(tbl)@);
        assert(partial_children_ok(tbl@, l0, entries@)) by {
            reveal(partial_children_ok);
        }
        assert(entries_match(tbl@, fi, entries@, folder, 0)) by {
            reveal(entries_match);
        }
        assert(folders_ok(tbl@, l0 + 1)) by {
            reveal(folders_ok);
        }
    }
    while j < paths.len()
        invariant
            0 <= j <= paths@.len(),
            entries@.len() == j,
            tbl@.len() == l0 + 1 + Path::count_children(folder, j as int),
            tbl@.len() + (Path::count_children(folder, paths@.len() as int)
                - Path::count_children(folder, j as int)) <= usize::MAX,
            tbl@.subrange(0, l0) == old(tbl)@,
            tbl@[l0] is Folder,
            tbl@[l0].spec_ino() == fi,
            tbl@[l0].spec_parent() == parent,
            tbl@[l0].spec_name() == name@,
            inos_ok(tbl@, l0),
            folders_ok(tbl@, l0 + 1),
            partial_children_ok(tbl@, l0, entries@),
            entries_match(tbl@, fi, entries@, folder, j as int),
        decreases paths@.len() - j,
    {
        proof {
            Path::lemma_count_pos(paths@[j as int].1);
            assert(Path::count_children(folder, j as int + 1) == Path::count_children(
                folder,
                j as int,
            ) + paths@[j as int].1.count());
            Path::lemma_count_children_mono(folder, j as int + 1, paths@.len() as int);
        }
        let child_ino: u64 = (tbl.len() as u64) + 1;
        let ghost es_prev = entries@;
        entries.push((paths[j].0.clone(), child_ino));
        let ghost t_before = tbl@;
        let ghost es_now = entries@;
        proof {
            assert(es_now.drop_last() =~= es_prev);
            assert(partial_children_ok(t_before, l0, es_now.drop_last()));
            assert(entries_match(t_before, fi, es_now.drop_last(), folder, j as int));
            assert(decreases_to!(folder, 0int => paths@[j as int].1, 1int)) by {
                assert(decreases_to!(folder => folder->paths));
                assert(decreases_to!(folder->paths => folder->paths[j as int]));
            }
            assert(paths@[j as int].1.wf());
            assert(paths@[j as int].0@ == paths@[j as int].1.spec_name());
        }
        build_node(tbl, &paths[j].1, fi);
        proof {
            let t_now = tbl@;
            let lc = t_before.len() as int;
            assert(t_now[lc].spec_name() == paths@[j as int].1.spec_name());
            lemma_prefix_pointwise(t_before, t_now);
            lemma_seg_inos(t_before, t_now, l0);
            lemma_seg_folders(t_before, t_now, l0);
            assert(es_now.last() == es_now[j as int]);
            lemma_seg_children(t_before, t_now, l0, es_now);
            lemma_seg_entries(t_before, t_now, fi, es_now, folder, j as int);
            assert(t_now.subrange(0, l0) =~= old(tbl)@);
        }
        j += 1;
    }
    proof {
        assert(distinct_names(entries@)) by {
            reveal(entries_match);
            assert forall|a: int, b: int|
                0 <= a < entries@.len() && 0 <= b < entries@.len() && a != b implies (
            #[trigger] entries@[a]).0@ != (#[trigger] entries@[b]).0@ by {
                assert(entries@[a].0@ == folder->paths@[a].0@ && entries@[b].0@
                    == folder->paths@[b].0@);
                if a < b {
                    assert(paths@[a].0@ != paths@[b].0@);
                } else {
                    assert(paths@[b].0@ != paths@[a].0@);
                }
            }
        }
    }
    let ghost es0 = entries@;
    let ghost t_l = tbl@;
    sort_entries(&mut entries);
    let ghost es1 = entries@;
    proof {
        broadcast use vstd::seq_lib::group_to_multiset_ensures;

        assert forall|k: int| 0 <= k < es1.len() implies es0.contains(#[trigger] es1[k]) by {
            assert(es1.contains(es1[k]));
            assert(es1.to_multiset().count(es1[k]) > 0);
        }
        assert forall|k: int| 0 <= k < es0.len() implies es1.contains(#[trigger] es0[k]) by {
            assert(es0.contains(es0[k]));
            assert(es0.to_multiset().count(es0[k]) > 0);
        }
    }
    let node = INode::Folder { ino: fi, parent, name: name.clone(), entries };
    tbl[slot] = node;
    proof {
        lemma_close_folder(t_l, tbl@, node, l0, fi, parent, es0, es1, folder);
        assert(tbl@.subrange(0, l0) == old(tbl)@);
    }
}

/// Whether walking parent links upward from node `j` reaches node `anc`:
/// node `j` lies in the subtree rooted at `anc`.
pub open spec fn in_subtree(t: Seq<INode>, anc: int, j: int) -> bool
    decreases j,
{
    if j == anc {
        true
    } else if 1 <= j <= t.len() {
        let p = t[j - 1].spec_parent() as int;
        if 1 <= p < j {
            in_subtree(t, anc, p)
        } else {
            false
        }
    } else {
        false
    }
}

/// Listing operations over the identity table.
pub trait INodeOps {
    /// The nodes listed over, in identity order.
    spec fn list_nodes(&self) -> Seq<INode>;

    /// The identities of the children of `ino`, in entry order — that is,
    /// sorted by name. Empty for a file or for an unknown identity.
    fn list_current(&self, ino: u64) -> (r: Vec<u64>)
        ensures
            ({
                let t = self.list_nodes();
                if 1 <= ino <= t.len() {
                    r@ == t[ino - 1].spec_entries().map_values(|e: NameEntry| e.1)
                } else {
                    r@ == Seq::<u64>::empty()
                }
            }),
    ;

    /// The identities of every node of the subtree rooted at `ino`, in
    /// ascending identity order. For a table built from a description this
    /// is the pre-order of the description's subtree: by
    /// [`lemma_subtree_range`], the subtree occupies exactly the
    /// consecutive identity run starting at `ino`.
    fn list_recursively(&self, ino: u64) -> (r: Vec<u64>)
        ensures
            forall|a: int, b: int| 0 <= a < b < r@.len() ==> r@[a] < r@[b],
            forall|k: int|
                0 <= k < r@.len() ==> 1 <= #[trigger] r@[k] <= self.list_nodes().len()
                    && in_subtree(self.list_nodes(), ino as int, r@[k] as int),
            forall|j: u64|
                1 <= j <= self.list_nodes().len() && in_subtree(
                    self.list_nodes(),
                    ino as int,
                    j as int,
                ) ==> r@.contains(j),
    ;
}

impl INodeTable {
    /// Whether node `j` lies in the subtree rooted at `anc`, by walking
    /// parent links.
    fn is_descendant(&self, anc: u64, j: u64) -> (r: bool)
        ensures
            r == in_subtree(self.nodes(), anc as int, j as int),
    {
        let mut cur = j;
        loop
            invariant
                in_subtree(self.nodes(), anc as int, cur as int) == in_subtree(
                    self.nodes(),
                    anc as int,
                    j as int,
                ),
            decreases cur,
        {
            if cur == anc {
                return true;
            }
            if cur < 1 || cur > self.table.len() as u64 {
                return false;
            }
            let p = self.table[(cur - 1) as usize].get_parent();
            if !(1 <= p && p < cur) {
                return false;
            }
            cur = p;
        }
    }
}

impl INodeOps for INodeTable {
    open spec fn list_nodes(&self) -> Seq<INode> {
        self.nodes()
    }

    fn list_current(&self, ino: u64) -> (r: Vec<u64>) {
        let mut r: Vec<u64> = Vec::new();
        let Some(node) = self.get_by_ino(ino) else {
            proof {
                assert(r@ =~= Seq::<u64>::empty());
            }
            return r;
        };
        match node {
            INode::File { .. } => {
                proof {
                    assert(r@ =~= self.nodes()[ino - 1].spec_entries().map_values(
                        |e: NameEntry| e.1,
                    ));
                }
                r
            },
            INode::Folder { entries, .. } => {
                let n = entries.len();
                let mut k: usize = 0;
                while k < n
                    invariant
                        n == entries@.len(),
                        0 <= k <= n,
                        r@.len() == k,
                        forall|i: int| 0 <= i < k ==> r@[i] == entries@[i].1,
                    decreases n - k,
                {
                    r.push(entries[k].1);
                    k += 1;
                }
                proof {
                    assert(node.spec_entries() == entries@);
                    assert(r@ =~= self.nodes()[ino - 1].spec_entries().map_values(
                        |e: NameEntry| e.1,
                    ));
                }
                r
            },
        }
    }

    #[verifier::rlimit(100)]
    fn list_recursively(&self, ino: u64) -> (r: Vec<u64>) {
        let n = self.table.len();
        let mut r: Vec<u64> = Vec::new();
        let mut idx: usize = 0;
        while idx < n
            invariant
                n == self.nodes().len(),
                0 <= idx <= n,
                forall|a: int, b: int| 0 <= a < b < r@.len() ==> r@[a] < r@[b],
                forall|k: int| 0 <= k < r@.len() ==> 1 <= #[trigger] r@[k] <= idx,
                forall|k: int|
                    0 <= k < r@.len() ==> in_subtree(self.nodes(), ino as int, #[trigger] r@[k] as int),
                forall|jj: u64|
                    1 <= jj <= idx && in_subtree(self.nodes(), ino as int, jj as int)
                        ==> r@.contains(jj),
            decreases n - idx,
        {
            let j: u64 = (idx as u64) + 1;
            let ghost r_old = r@;
            if self.is_descendant(ino, j) {
                r.push(j);
                proof {
                    assert(r@ == r_old.push(j));
                    assert forall|jj: u64|
                        1 <= jj <= idx + 1 && in_subtree(self.nodes(), ino as int, jj as int) implies r@
                        .contains(jj) by {
                        if jj <= idx {
                            assert(r_old.contains(jj));
                            let k = choose|k: int| 0 <= k < r_old.len() && r_old[k] == jj;
                            assert(r@[k] == r_old[k]);
                        } else {
                            assert(r@[r@.len() - 1] == jj);
                        }
                    }
                }
            } else {
                proof {
                    assert forall|jj: u64|
                        1 <= jj <= idx + 1 && in_subtree(self.nodes(), ino as int, jj as int) implies r@
                        .contains(jj) by {
                        if jj <= idx {
                            assert(r_old.contains(jj));
                        }
                    }
                }
            }
            idx += 1;
        }
        r
    }
}


/// Identity assignment and parent linkage are mutually consistent: the
/// root, identity `1`, has no parent; every other node's parent is an
/// earlier folder of the table, and that folder lists the node, under the
/// node's own name, with the node's own identity.
pub proof fn lemma_parent_linkage(t: INodeTable, ino: u64)
    requires
        t.wf(),
        1 <= ino <= t.spec_len(),
    ensures
        ino == 1 ==> t.nodes()[ino - 1].spec_parent() == 0,
        ino >= 2 ==> ({
            let p = t.nodes()[ino - 1].spec_parent();
            &&& 1 <= p < ino
            &&& t.nodes()[p - 1] is Folder
            &&& entries_contain(
                t.nodes()[p - 1].spec_entries(),
                t.nodes()[ino - 1].spec_name(),
                ino,
            )
        }),
{
    reveal(children_ok);
    if ino >= 2 {
        assert(t.nodes()[ino - 1].spec_ino() == ino);
    }
}

/// Identities are exactly the contiguous range from `1` to the node count,
/// with no duplicates: position determines identity, every identity in
/// range is taken, and no two nodes share one. The node count itself is
/// the mapping description's total count, by the builder's contract.
pub proof fn lemma_identities_contiguous(t: INodeTable)
    requires
        t.wf(),
    ensures
        forall|i: int| 0 <= i < t.spec_len() ==> (#[trigger] t.nodes()[i]).spec_ino() == i + 1,
        forall|id: u64|
            1 <= id <= t.spec_len() ==> (#[trigger] t.nodes()[id - 1]).spec_ino() == id,
        forall|i: int, j: int|
            #![trigger t.nodes()[i], t.nodes()[j]]
            0 <= i < j < t.spec_len() ==> t.nodes()[i].spec_ino() != t.nodes()[j].spec_ino(),
{
}

/// Name lookup is deterministic and, the table being immutable after
/// startup, idempotent: any two results of resolving the same name under
/// the same identity against the same table are equal.
pub proof fn lemma_lookup_deterministic(
    t: INodeTable,
    ino: u64,
    name: Seq<char>,
    r1: Option<u64>,
    r2: Option<u64>,
)
    requires
        r1 == t.spec_lookup(ino, name),
        r2 == t.spec_lookup(ino, name),
    ensures
        r1 == r2,
{
}


/// Success is owed: in a table that realises a folder subtree, looking up
/// any described child's name under the folder's identity succeeds, the
/// identity it returns is the child's pinned pre-order identity, and that
/// identity realises the child's subtree.
pub proof fn lemma_lookup_finds_described_child(t: INodeTable, ino: u64, p: Path, j: int)
    requires
        represents(t.nodes(), ino as int, p),
        p is Folder,
        0 <= j < p->paths@.len(),
    ensures
        ({
            let c = t.spec_lookup(ino, p->paths@[j].0@);
            &&& c is Some
            &&& c->0 as int == ino + 1 + Path::count_children(p, j)
            &&& represents(t.nodes(), c->0 as int, p->paths@[j].1)
        }),
{
    assert(1 <= ino <= t.spec_len());
}


/// Reachability by parent walks composes.
proof fn lemma_in_subtree_trans(t: Seq<INode>, a: int, b: int, x: int)
    requires
        in_subtree(t, a, b),
        in_subtree(t, b, x),
    ensures
        in_subtree(t, a, x),
    decreases x,
{
    if x != b {
        let p = t[x - 1].spec_parent() as int;
        lemma_in_subtree_trans(t, a, b, p);
    }
}

/// A strict descendant of `a` is reached through one of `a`'s own
/// children.
proof fn lemma_in_subtree_step(t: Seq<INode>, a: int, x: int)
    requires
        in_subtree(t, a, x),
        x != a,
    ensures
        exists|y: int|
            1 <= y <= t.len() && (#[trigger] t[y - 1]).spec_parent() as int == a && in_subtree(
                t,
                y,
                x,
            ),
    decreases x,
{
    let p = t[x - 1].spec_parent() as int;
    if p == a {
        assert(t[x - 1].spec_parent() as int == a && in_subtree(t, x, x));
    } else {
        lemma_in_subtree_step(t, a, p);
        let y = choose|y: int|
            1 <= y <= t.len() && (#[trigger] t[y - 1]).spec_parent() as int == a && in_subtree(
                t,
                y,
                p,
            );
        assert(in_subtree(t, y, x));
    }
}

/// Everything reachable from `ino` lies in the identity run of its
/// description subtree.
#[verifier::rlimit(100)]
proof fn lemma_subtree_in_range(t: INodeTable, ino: int, p: Path, x: int)
    requires
        t.wf(),
        represents(t.nodes(), ino, p),
        in_subtree(t.nodes(), ino, x),
    ensures
        ino <= x < ino + p.count(),
    decreases p,
{
    Path::lemma_count_pos(p);
    if x != ino {
        let tn = t.nodes();
        lemma_in_subtree_step(tn, ino, x);
        let y = choose|y: int|
            1 <= y <= tn.len() && (#[trigger] tn[y - 1]).spec_parent() as int == ino && in_subtree(
                tn,
                y,
                x,
            );
        assert(y >= 2) by {
            if y == 1 {
                assert(tn[0].spec_parent() == 0);
            }
        }
        let es = tn[ino - 1].spec_entries();
        assert(entries_contain(es, tn[y - 1].spec_name(), y as u64)) by {
            reveal(children_ok);
        }
        let k = choose|k: int|
            0 <= k < es.len() && (#[trigger] es[k]).0@ == tn[y - 1].spec_name() && es[k].1
                == y as u64;
        assert(p is Folder) by {
            if p is File {
                assert(es.len() == 0);
            }
        }
        let j = choose|j: int|
            0 <= j < p->paths@.len() && es[k].0@ == (#[trigger] p->paths@[j]).0@;
        assert(folder_ok(tn, ino - 1)) by {
            reveal(folders_ok);
        }
        crate::order::lemma_sorted_distinct(es);
        lemma_entry_lookup_unique(es, p->paths@[j].0@, y as u64);
        assert(y == ino + 1 + Path::count_children(p, j));
        assert(represents(tn, y, p->paths@[j].1));
        lemma_subtree_in_range(t, y, p->paths@[j].1, x);
        assert(Path::count_children(p, j + 1) == Path::count_children(p, j)
            + p->paths@[j].1.count());
        Path::lemma_count_children_mono(p, j + 1, p->paths@.len() as int);
        assert(p.count() == 1 + Path::count_children(p, p->paths@.len() as int));
    }
}

/// Which child's identity run an inner offset falls in.
proof fn lemma_find_child(p: Path, d: int, k: int)
    requires
        p is Folder,
        0 <= k <= p->paths@.len(),
        0 <= d < Path::count_children(p, k),
    ensures
        exists|j: int|
            0 <= j < k && Path::count_children(p, j) <= d < Path::count_children(p, j) + (
            #[trigger] p->paths@[j]).1.count(),
    decreases k,
{
    if k > 0 {
        assert(Path::count_children(p, k) == Path::count_children(p, k - 1)
            + p->paths@[k - 1].1.count());
        if d < Path::count_children(p, k - 1) {
            lemma_find_child(p, d, k - 1);
            let j = choose|j: int|
                0 <= j < k - 1 && Path::count_children(p, j) <= d < Path::count_children(p, j) + (
                #[trigger] p->paths@[j]).1.count();
            assert(Path::count_children(p, j) <= d < Path::count_children(p, j)
                + p->paths@[j].1.count());
        } else {
            assert(Path::count_children(p, k - 1) <= d < Path::count_children(p, k - 1)
                + p->paths@[k - 1].1.count());
        }
    }
}

/// Everything in the identity run of the description subtree is reachable
/// from `ino`.
proof fn lemma_range_in_subtree(t: INodeTable, ino: int, p: Path, x: int)
    requires
        t.wf(),
        represents(t.nodes(), ino, p),
        ino <= x < ino + p.count(),
    ensures
        in_subtree(t.nodes(), ino, x),
    decreases p,
{
    let tn = t.nodes();
    if x != ino {
        assert(p is Folder) by {
            if p is File {
                assert(p.count() == 1);
            }
        }
        assert(p.count() == 1 + Path::count_children(p, p->paths@.len() as int));
        let d = x - ino - 1;
        lemma_find_child(p, d, p->paths@.len() as int);
        let j = choose|j: int|
            0 <= j < p->paths@.len() && Path::count_children(p, j) <= d < Path::count_children(
                p,
                j,
            ) + (#[trigger] p->paths@[j]).1.count();
        let es = tn[ino - 1].spec_entries();
        let c = ino + 1 + Path::count_children(p, j);
        assert(entry_lookup(es, p->paths@[j].0@) == Some((c as u64)));
        assert(represents(tn, c, p->paths@[j].1));
        lemma_range_in_subtree(t, c, p->paths@[j].1, x);
        // The child's parent link points back at this folder.
        lemma_entry_lookup(es, p->paths@[j].0@);
        assert(entries_contain(es, p->paths@[j].0@, (c as u64)));
        let k = choose|k: int|
            0 <= k < es.len() && (#[trigger] es[k]).0@ == p->paths@[j].0@ && es[k].1 == (
            c as u64);
        assert(folder_ok(tn, ino - 1)) by {
            reveal(folders_ok);
        }
        assert(tn[c - 1].spec_parent() == ino);
        assert(1 <= c <= tn.len());
        assert(1 <= ino < c);
        assert(in_subtree(tn, ino, ino));
        assert(in_subtree(tn, ino, c));
        lemma_in_subtree_trans(tn, ino, c, x);
    }
}

/// Identities are assigned in pre-order: the subtree reachable from a node
/// is exactly the consecutive identity run that starts at the node and
/// spans its description's node count — a node directly precedes its
/// descendants, and sibling subtrees are consecutive, in description
/// order.
pub proof fn lemma_subtree_range(t: INodeTable, ino: u64, p: Path)
    requires
        t.wf(),
        represents(t.nodes(), ino as int, p),
    ensures
        forall|x: int| in_subtree(t.nodes(), ino as int, x) <==> ino <= x < ino + p.count(),
{
    assert forall|x: int|
        in_subtree(t.nodes(), ino as int, x) <==> ino <= x < ino + p.count() by {
        if in_subtree(t.nodes(), ino as int, x) {
            lemma_subtree_in_range(t, ino as int, p, x);
        }
        if ino <= x < ino + p.count() {
            lemma_range_in_subtree(t, ino as int, p, x);
        }
    }
}

/// In a sorted listing whose elements all lie at or above `lo`, the `k`-th
/// element lies at or above `lo + k`.
proof fn lemma_run_lower(r: Seq<u64>, lo: int, k: int)
    requires
        forall|a: int, b: int| 0 <= a < b < r.len() ==> r[a] < r[b],
        forall|i: int| 0 <= i < r.len() ==> lo <= #[trigger] r[i],
        0 <= k < r.len(),
    ensures
        r[k] >= lo + k,
    decreases k,
{
    if k > 0 {
        lemma_run_lower(r, lo, k - 1);
    }
}

/// A strictly sorted listing that stays inside a run and hits every value
/// of the run enumerates it: the `k`-th element is `lo + k`.
proof fn lemma_run_pointwise(r: Seq<u64>, lo: int, n: int, k: int)
    requires
        forall|a: int, b: int| 0 <= a < b < r.len() ==> r[a] < r[b],
        forall|i: int| 0 <= i < r.len() ==> lo <= #[trigger] r[i] < lo + n,
        forall|v: u64| lo <= v < lo + n ==> r.contains(v),
        0 <= lo,
        lo + n - 1 <= u64::MAX,
        0 <= k < r.len(),
        k < n,
    ensures
        r[k] == lo + k,
    decreases k,
{
    lemma_run_lower(r, lo, k);
    if r[k] > lo + k {
        assert(r.contains(((lo + k) as u64)));
        let i = choose|i: int| 0 <= i < r.len() && r[i] == ((lo + k) as u64);
        assert(i < k);
        lemma_run_pointwise(r, lo, n, i);
        assert(false);
    }
}

/// A subtree listing enumerates the subtree's identity run: for a table
/// realising a description, the identities `list_recursively` hands back
/// for the subtree root are exactly `ino`, `ino + 1`, …, one per node of
/// the description subtree, in pre-order.
pub proof fn lemma_list_is_identity_run(t: INodeTable, ino: u64, p: Path, r: Seq<u64>)
    requires
        t.wf(),
        t.spec_len() <= u64::MAX,
        represents(t.nodes(), ino as int, p),
        forall|a: int, b: int| 0 <= a < b < r.len() ==> r[a] < r[b],
        forall|k: int|
            0 <= k < r.len() ==> 1 <= #[trigger] r[k] <= t.spec_len() && in_subtree(
                t.nodes(),
                ino as int,
                r[k] as int,
            ),
        forall|j: u64|
            1 <= j <= t.spec_len() && in_subtree(t.nodes(), ino as int, j as int) ==> r.contains(
                j,
            ),
    ensures
        r.len() == p.count(),
        forall|k: int| 0 <= k < r.len() ==> #[trigger] r[k] == ino + k,
{
    let tn = t.nodes();
    let n = p.count() as int;
    Path::lemma_count_pos(p);
    lemma_subtree_range(t, ino, p);
    // The run's top end is a real identity, so it fits.
    assert(ino + n - 1 <= u64::MAX) by {
        if n > 1 {
            assert(in_subtree(tn, ino as int, ino + n - 1));
            assert(1 <= ino + n - 1 <= tn.len());
        }
    }
    // The run stays within the table, so the coverage premise applies to
    // all of it.
    assert forall|v: u64| ino <= v < ino + n implies r.contains(v) by {
        assert(in_subtree(tn, ino as int, v as int));
        if v != ino {
            assert(1 <= v <= tn.len());
        }
    }
    assert(forall|i: int| 0 <= i < r.len() ==> ino <= #[trigger] r[i] < ino + n);
    assert forall|k: int| 0 <= k < r.len() implies #[trigger] r[k] == ino + k by {
        if k < n {
            lemma_run_pointwise(r, ino as int, n, k);
        } else {
            lemma_run_lower(r, ino as int, k);
        }
    }
    if r.len() > n {
        lemma_run_lower(r, ino as int, n);
        assert(false);
    }
    if r.len() < n {
        assert(r.contains((((ino + n - 1)) as u64)));
        let i = choose|i: int| 0 <= i < r.len() && r[i] == (((ino + n - 1)) as u64);
        assert(r[i] == ino + i);
        assert(false);
    }
}

} // verus!
