//! The mapping description: the externally supplied tree of named nodes that
//! configures the exposed virtual filesystem.
//!
//! A node is either a `File`, redirecting reads to a real host path, or a
//! `Folder` carrying named children. The description is immutable once
//! loaded; the node graph is built from it exactly once at startup.

use vstd::prelude::*;

use crate::order::str_eq;

verus! {

broadcast use vstd::std_specs::vec::axiom_vec_index_decreases;

/// One node of the mapping description.
#[derive(Debug)]
pub enum Path {
    File { name: String, path: String },
    Folder { name: String, paths: Vec<(String, Path)> },
}

/// The whole configuration: the root of the description tree.
#[derive(Debug)]
pub struct MappingConfig {
    pub mapping: Path,
}

impl Path {
    /// The node's own name.
    pub open spec fn spec_name(self) -> Seq<char> {
        match self {
            Path::File { name, .. } => name@,
            Path::Folder { name, .. } => name@,
        }
    }

    /// Total number of nodes in this subtree, the node itself included.
    pub open spec fn count(self) -> nat
        decreases self, 1int, 0int,
    {
        match self {
            Path::File { .. } => 1,
            Path::Folder { paths, .. } => 1 + Path::count_children(self, paths@.len() as int),
        }
    }

    /// Number of nodes in the subtrees of the first `k` children of a
    /// folder.
    pub open spec fn count_children(p: Path, k: int) -> nat
        decreases p, 0int, k,
    {
        match p {
            Path::Folder { paths, .. } => {
                if 0 < k <= paths@.len() {
                    Path::count_children(p, k - 1) + paths[k - 1].1.count()
                } else {
                    0
                }
            },
            _ => 0,
        }
    }

    /// Every subtree holds at least its own node.
    pub proof fn lemma_count_pos(p: Path)
        ensures
            p.count() >= 1,
    {
        match p {
            Path::File { .. } => {
            },
            Path::Folder { .. } => {
            },
        }
    }

    /// Counting more children never shrinks the total.
    pub proof fn lemma_count_children_mono(p: Path, a: int, b: int)
        requires
            0 <= a <= b,
            p is Folder ==> b <= p->paths@.len(),
        ensures
            Path::count_children(p, a) <= Path::count_children(p, b),
        decreases b,
    {
        if a < b {
            Path::lemma_count_children_mono(p, a, b - 1);
        }
    }

    /// Well-formedness of a description: within each folder, child names are
    /// pairwise distinct, and each child stands under its own name.
    pub open spec fn wf(self) -> bool
        decreases self,
    {
        match self {
            Path::File { .. } => true,
            Path::Folder { paths, .. } => {
                &&& forall|i: int, j: int|
                    #![trigger paths@[i], paths@[j]]
                    0 <= i < j < paths@.len() ==> paths@[i].0@ != paths@[j].0@
                &&& forall|i: int|
                    0 <= i < paths@.len() ==> (#[trigger] paths@[i]).0@ == paths@[i].1.spec_name()
                &&& forall|i: int| 0 <= i < paths@.len() ==> (#[trigger] paths@[i]).1.wf()
            },
        }
    }

    /// The node's own name.
    pub fn name(&self) -> (r: &String)
        ensures
            r@ == self.spec_name(),
    {
        match self {
            Path::File { name, .. } => name,
            Path::Folder { name, .. } => name,
        }
    }

    /// Checks well-formedness of a description, as loaded from outside.
    #[verifier::loop_isolation(false)]
    pub fn check_wf(&self) -> (b: bool)
        ensures
            b == self.wf(),
        decreases *self,
    {
        match self {
            Path::File { .. } => true,
            Path::Folder { paths, .. } => {
                proof {
                    assert(self->paths == *paths);
                }
                let n = paths.len();
                let mut i: usize = 0;
                while i < n
                    invariant
                        n == paths@.len(),
                        0 <= i <= n,
                        forall|a: int, b: int|
                            #![trigger paths@[a], paths@[b]]
                            0 <= a < b < n && a < i ==> paths@[a].0@ != paths@[b].0@,
                    decreases n - i,
                {
                    let mut j: usize = i + 1;
                    while j < n
                        invariant
                            n == paths@.len(),
                            0 <= i < j <= n,
                            forall|b: int|
                                #![trigger paths@[b]]
                                i < b < j ==> paths@[i as int].0@ != paths@[b].0@,
                        decreases n - j,
                    {
                        if str_eq(paths[i].0.as_str(), paths[j].0.as_str()) {
                            proof {
                                assert(!self.wf()) by {
                                    if self.wf() {
                                        assert(self->paths@[i as int].0@ != self->paths@[j as int].0@);
                                        assert(paths@[i as int].0@ != paths@[j as int].0@);
                                    }
                                }
                            }
                            return false;
                        }
                        j += 1;
                    }
                    i += 1;
                }
                let mut k: usize = 0;
                while k < n
                    invariant
                        n == paths@.len(),
                        0 <= k <= n,
                        forall|a: int, b: int|
                            #![trigger paths@[a], paths@[b]]
                            0 <= a < b < n ==> paths@[a].0@ != paths@[b].0@,
                        forall|a: int| 0 <= a < k ==> #[trigger] paths@[a].1.wf(),
                        forall|a: int|
                            0 <= a < k ==> (#[trigger] paths@[a]).0@ == paths@[a].1.spec_name(),
                    decreases n - k,
                {
                    proof {
                        assert(self->paths == *paths);
                        assert(decreases_to!(*self => self->paths));
                        assert(decreases_to!(self->paths => self->paths[k as int]));
                        assert(decreases_to!(*self => paths[k as int].1));
                    }
                    if !str_eq(paths[k].0.as_str(), paths[k].1.name().as_str()) {
                        proof {
                            assert(!self.wf()) by {
                                if self.wf() {
                                    assert((self->paths@[k as int]).0@ == self->paths@[k as int].1.spec_name());
                                }
                            }
                        }
                        return false;
                    }
                    if !paths[k].1.check_wf() {
                        proof {
                            assert(!self.wf()) by {
                                if self.wf() {
                                    assert((self->paths@[k as int]).1.wf());
                                }
                            }
                        }
                        return false;
                    }
                    k += 1;
                }
                proof {
                    assert(self.wf()) by {
                        assert(self->paths == *paths);
                        assert forall|a: int, b: int|
                            #![trigger self->paths@[a], self->paths@[b]]
                            0 <= a < b < self->paths@.len() implies self->paths@[a].0@
                            != self->paths@[b].0@ by {
                            assert(paths@[a].0@ != paths@[b].0@);
                        }
                        assert forall|a: int|
                            0 <= a < self->paths@.len() implies (#[trigger] self->paths@[a]).1.wf() by {
                            assert(paths@[a].1.wf());
                        }
                        assert forall|a: int|
                            0 <= a < self->paths@.len() implies (#[trigger] self->paths@[a]).0@
                            == self->paths@[a].1.spec_name() by {
                            assert(paths@[a].0@ == paths@[a].1.spec_name());
                        }
                    }
                }
                true
            },
        }
    }
}

/// A small fixed mapping description: a root folder named "/" holding
/// "folder1" (with the single file "d1f1.txt"), "folder2" (with the files
/// "d2f1.txt" and "d2f2.txt") and the file "file1.txt" — seven nodes in
/// all, every leaf redirecting to the same host path.
pub fn fake_mapping() -> (m: MappingConfig)
    ensures
        m.mapping.wf(),
        m.mapping is Folder,
        m.mapping.spec_name() == "/"@,
        m.mapping->paths@.len() == 3,
        m.mapping.count() == 7,
        ({
            let c = m.mapping->paths@;
            &&& c[0].0@ == "folder1"@
            &&& c[0].1 is Folder
            &&& c[0].1->paths@.len() == 1
            &&& c[0].1->paths@[0].0@ == "d1f1.txt"@
            &&& c[0].1->paths@[0].1 is File
            &&& c[0].1->paths@[0].1->path@ == "/tmp/hello.txt"@
            &&& c[1].0@ == "folder2"@
            &&& c[1].1 is Folder
            &&& c[1].1->paths@.len() == 2
            &&& c[1].1->paths@[0].0@ == "d2f1.txt"@
            &&& c[1].1->paths@[0].1 is File
            &&& c[1].1->paths@[0].1->path@ == "/tmp/hello.txt"@
            &&& c[1].1->paths@[1].0@ == "d2f2.txt"@
            &&& c[1].1->paths@[1].1 is File
            &&& c[1].1->paths@[1].1->path@ == "/tmp/hello.txt"@
            &&& c[2].0@ == "file1.txt"@
            &&& c[2].1 is File
            &&& c[2].1->path@ == "/tmp/hello.txt"@
        }),
{
    let d1f1 = Path::File { name: "d1f1.txt".to_owned(), path: "/tmp/hello.txt".to_owned() };
    let mut folder1_paths: Vec<(String, Path)> = Vec::new();
    folder1_paths.push(("d1f1.txt".to_owned(), d1f1));
    let folder1 = Path::Folder { name: "folder1".to_owned(), paths: folder1_paths };

    let d2f1 = Path::File { name: "d2f1.txt".to_owned(), path: "/tmp/hello.txt".to_owned() };
    let d2f2 = Path::File { name: "d2f2.txt".to_owned(), path: "/tmp/hello.txt".to_owned() };
    let mut folder2_paths: Vec<(String, Path)> = Vec::new();
    folder2_paths.push(("d2f1.txt".to_owned(), d2f1));
    folder2_paths.push(("d2f2.txt".to_owned(), d2f2));
    let folder2 = Path::Folder { name: "folder2".to_owned(), paths: folder2_paths };

    let file1 = Path::File { name: "file1.txt".to_owned(), path: "/tmp/hello.txt".to_owned() };

    let mut root_paths: Vec<(String, Path)> = Vec::new();
    root_paths.push(("folder1".to_owned(), folder1));
    root_paths.push(("folder2".to_owned(), folder2));
    root_paths.push(("file1.txt".to_owned(), file1));
    let root = Path::Folder { name: "/".to_owned(), paths: root_paths };

    proof {
        reveal_strlit("d1f1.txt");
        reveal_strlit("d2f1.txt");
        reveal_strlit("d2f2.txt");
        reveal_strlit("folder1");
        reveal_strlit("folder2");
        reveal_strlit("file1.txt");
        let rp = root->paths@;
        assert(rp.len() == 3);
        assert(root.wf()) by {
            assert(rp[0].1.wf()) by {
                assert(rp[0].1->paths@.len() == 1);
                assert(rp[0].1->paths@[0].1.wf());
                assert(rp[0].1->paths@[0].0@ == rp[0].1->paths@[0].1.spec_name());
            }
            assert(rp[1].1.wf()) by {
                assert(rp[1].1->paths@.len() == 2);
                assert(rp[1].1->paths@[0].1.wf());
                assert(rp[1].1->paths@[1].1.wf());
                assert(rp[1].1->paths@[0].0@ == rp[1].1->paths@[0].1.spec_name());
                assert(rp[1].1->paths@[1].0@ == rp[1].1->paths@[1].1.spec_name());
                assert(rp[1].1->paths@[0].0@[3] != rp[1].1->paths@[1].0@[3]);
                assert(rp[1].1->paths@[0].0@ != rp[1].1->paths@[1].0@);
            }
            assert(rp[2].1.wf());
            assert(rp[0].0@[6] != rp[1].0@[6]);
            assert(rp[0].0@ != rp[1].0@);
            assert(rp[0].0@.len() != rp[2].0@.len());
            assert(rp[0].0@ != rp[2].0@);
            assert(rp[1].0@.len() != rp[2].0@.len());
            assert(rp[1].0@ != rp[2].0@);
            assert(forall|i: int| 0 <= i < 3 ==> #[trigger] rp[i].1.wf()) by {
                assert(rp[0].1.wf() && rp[1].1.wf() && rp[2].1.wf());
            }
            assert(forall|i: int| 0 <= i < 3 ==> (#[trigger] rp[i]).0@ == rp[i].1.spec_name()) by {
                assert(rp[0].0@ == rp[0].1.spec_name());
                assert(rp[1].0@ == rp[1].1.spec_name());
                assert(rp[2].0@ == rp[2].1.spec_name());
            }
        }
        assert(root.count() == 7) by {
            assert(rp[0].1.count() == 2) by {
                assert(rp[0].1->paths@[0].1.count() == 1);
                assert(Path::count_children(rp[0].1, 1) == Path::count_children(rp[0].1, 0)
                    + rp[0].1->paths@[0].1.count());
            }
            assert(rp[1].1.count() == 3) by {
                assert(rp[1].1->paths@[0].1.count() == 1);
                assert(rp[1].1->paths@[1].1.count() == 1);
                assert(Path::count_children(rp[1].1, 2) == Path::count_children(rp[1].1, 1)
                    + rp[1].1->paths@[1].1.count());
                assert(Path::count_children(rp[1].1, 1) == Path::count_children(rp[1].1, 0)
                    + rp[1].1->paths@[0].1.count());
            }
            assert(rp[2].1.count() == 1);
            assert(Path::count_children(root, 3) == Path::count_children(root, 2)
                + rp[2].1.count());
            assert(Path::count_children(root, 2) == Path::count_children(root, 1)
                + rp[1].1.count());
            assert(Path::count_children(root, 1) == Path::count_children(root, 0)
                + rp[0].1.count());
        }
    }
    MappingConfig { mapping: root }
}

} // verus!

