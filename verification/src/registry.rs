//! The open-file registry.
//!
//! `open` registers the host file it obtained under a freshly allocated
//! handle; `read` resolves a handle to its file; `release` removes it.
//! Handle identities come from a monotonic counter and are never reused for
//! the process lifetime, released or not. The registry is generic in what
//! it stores: the driver keeps the shared reference to the open host file
//! there, and everything the registry decides — allocation, resolution,
//! removal, the failures for unknown handles — is plain logic over the
//! `(handle, value)` list.

use vstd::prelude::*;

use crate::handler::FsError;

verus! {

/// The value registered under the first entry carrying handle `fh`.
pub open spec fn handle_lookup<T>(s: Seq<(u64, T)>, fh: u64) -> Option<T>
    decreases s.len(),
{
    if s.len() == 0 {
        None
    } else if s[0].0 == fh {
        Some(s[0].1)
    } else {
        handle_lookup(s.drop_first(), fh)
    }
}

/// A failed scan means no entry carries the handle; a successful one
/// returns a value that some entry pairs with it.
pub proof fn lemma_handle_lookup<T>(s: Seq<(u64, T)>, fh: u64)
    ensures
        match handle_lookup(s, fh) {
            Some(v) => exists|i: int| 0 <= i < s.len() && #[trigger] s[i] == (fh, v),
            None => forall|i: int| 0 <= i < s.len() ==> (#[trigger] s[i]).0 != fh,
        },
    decreases s.len(),
{
    if s.len() > 0 {
        if s[0].0 == fh {
            assert(s[0] == (fh, s[0].1));
        } else {
            lemma_handle_lookup(s.drop_first(), fh);
            match handle_lookup(s.drop_first(), fh) {
                Some(v) => {
                    let i = choose|i: int|
                        0 <= i < s.drop_first().len() && #[trigger] s.drop_first()[i] == (fh, v);
                    assert(s[i + 1] == s.drop_first()[i]);
                },
                None => {
                    assert forall|i: int| 0 <= i < s.len() implies (#[trigger] s[i]).0 != fh by {
                        if i > 0 {
                            assert(s.drop_first()[i - 1] == s[i]);
                        }
                    }
                },
            }
        }
    }
}

/// Appending an entry changes only what its own handle resolves to, and
/// that only if the handle was still free.
pub proof fn lemma_handle_lookup_push<T>(s: Seq<(u64, T)>, e: (u64, T), g: u64)
    ensures
        handle_lookup(s.push(e), g) == if handle_lookup(s, g) is Some {
            handle_lookup(s, g)
        } else if e.0 == g {
            Some(e.1)
        } else {
            None
        },
    decreases s.len(),
{
    if s.len() == 0 {
        assert(handle_lookup(s, g) is None);
        assert(s.push(e).len() == 1);
        assert(s.push(e)[0] == e);
        assert(s.push(e).drop_first() =~= Seq::<(u64, T)>::empty());
        if e.0 == g {
            assert(handle_lookup(s.push(e), g) == Some(e.1));
        } else {
            assert(handle_lookup(s.push(e), g) == handle_lookup(s.push(e).drop_first(), g));
            assert(handle_lookup(s.push(e).drop_first(), g) is None);
        }
    } else {
        assert(s.push(e).len() == s.len() + 1);
        assert(s.push(e)[0] == s[0]);
        assert(s.push(e).drop_first() =~= s.drop_first().push(e));
        lemma_handle_lookup_push(s.drop_first(), e, g);
        if s[0].0 == g {
            assert(handle_lookup(s, g) == Some(s[0].1));
            assert(handle_lookup(s.push(e), g) == Some(s[0].1));
        } else {
            assert(handle_lookup(s, g) == handle_lookup(s.drop_first(), g));
            assert(handle_lookup(s.push(e), g) == handle_lookup(s.drop_first().push(e), g));
        }
    }
}

/// Removing one entry changes only what its own handle resolves to,
/// provided handles are pairwise distinct.
pub proof fn lemma_handle_lookup_remove<T>(s: Seq<(u64, T)>, i: int, g: u64)
    requires
        0 <= i < s.len(),
        forall|a: int, b: int|
            #![trigger s[a], s[b]]
            0 <= a < b < s.len() ==> s[a].0 != s[b].0,
    ensures
        handle_lookup(s.remove(i), g) == if s[i].0 == g {
            None
        } else {
            handle_lookup(s, g)
        },
    decreases s.len(),
{
    s.remove_ensures(i);
    if i == 0 {
        assert(s.remove(0) =~= s.drop_first());
        if s[0].0 == g {
            lemma_handle_lookup(s.drop_first(), g);
            match handle_lookup(s.drop_first(), g) {
                Some(v) => {
                    let k = choose|k: int|
                        0 <= k < s.drop_first().len() && #[trigger] s.drop_first()[k] == (g, v);
                    assert(s[k + 1] == s.drop_first()[k]);
                    assert(false);
                },
                None => {
                },
            }
        }
    } else {
        assert(s.remove(i)[0] == s[0]);
        assert(s.remove(i).drop_first() =~= s.drop_first().remove(i - 1));
        assert(forall|k: int|
            0 <= k < s.drop_first().len() ==> #[trigger] s.drop_first()[k] == s[k + 1]);
        lemma_handle_lookup_remove(s.drop_first(), i - 1, g);
    }
}

/// The open-file registry: the live `(handle, value)` entries in
/// allocation order, and the monotonic counter handles are drawn from.
#[derive(Debug)]
pub struct FileHandleTable<T> {
    entries: Vec<(u64, T)>,
    counter: u64,
}

impl<T> FileHandleTable<T> {
    /// The live entries, in allocation order.
    pub closed spec fn handles(self) -> Seq<(u64, T)> {
        self.entries@
    }

    /// The last handle handed out; never exceeded by a live handle.
    pub closed spec fn spec_counter(self) -> u64 {
        self.counter
    }

    /// Well-formedness: handles are positive, strictly increasing in
    /// allocation order, and never above the counter.
    pub open spec fn wf(self) -> bool {
        &&& forall|a: int, b: int|
            #![trigger self.handles()[a], self.handles()[b]]
            0 <= a < b < self.handles().len() ==> self.handles()[a].0 < self.handles()[b].0
        &&& forall|a: int|
            0 <= a < self.handles().len() ==> 1 <= (#[trigger] self.handles()[a]).0
                <= self.spec_counter()
    }

    /// The value registered under handle `fh`, if it is live.
    pub open spec fn spec_get(self, fh: u64) -> Option<T> {
        handle_lookup(self.handles(), fh)
    }

    /// Whether handle `fh` is live.
    pub open spec fn contains_handle(self, fh: u64) -> bool {
        self.spec_get(fh) is Some
    }

    /// The last handle handed out so far.
    pub fn counter(&self) -> (c: u64)
        ensures
            c == self.spec_counter(),
    {
        self.counter
    }

    /// An empty registry; the first handle handed out will be `1`.
    pub fn new() -> (r: FileHandleTable<T>)
        ensures
            r.wf(),
            r.spec_counter() == 0,
            r.handles().len() == 0,
            forall|fh: u64| r.spec_get(fh) is None,
    {
        FileHandleTable { entries: Vec::new(), counter: 0 }
    }

    /// Registers `t` under a fresh handle and returns it. The handle is the
    /// successor of the counter, so it was never handed out before;
    /// everything else resolves as it did.
    pub fn insert(&mut self, t: T) -> (fh: u64)
        requires
            old(self).wf(),
            old(self).spec_counter() < u64::MAX,
        ensures
            final(self).wf(),
            fh == old(self).spec_counter() + 1,
            final(self).spec_counter() == fh,
            !old(self).contains_handle(fh),
            final(self).spec_get(fh) == Some(t),
            forall|g: u64| g != fh ==> final(self).spec_get(g) == old(self).spec_get(g),
            final(self).handles() == old(self).handles().push((fh, t)),
    {
        self.counter = self.counter + 1;
        let fh = self.counter;
        let ghost s = self.entries@;
        self.entries.push((fh, t));
        proof {
            assert(forall|a: int| 0 <= a < s.len() ==> #[trigger] self.entries@[a] == s[a]);
            lemma_handle_lookup(s, fh);
            lemma_handle_lookup_push(s, (fh, t), fh);
            assert(handle_lookup(s, fh) is None) by {
                if handle_lookup(s, fh) is Some {
                    lemma_handle_lookup(s, fh);
                }
            }
            assert forall|g: u64| g != fh implies final(self).spec_get(g) == old(self).spec_get(
                g,
            ) by {
                lemma_handle_lookup_push(s, (fh, t), g);
            }
        }
        fh
    }

    /// Resolves a live handle to its value.
    pub fn get(&self, fh: u64) -> (r: Option<&T>)
        ensures
            match r {
                Some(v) => self.spec_get(fh) == Some(*v),
                None => self.spec_get(fh) is None,
            },
    {
        let n = self.entries.len();
        let mut k: usize = 0;
        proof {
            assert(self.handles().skip(0) =~= self.handles());
        }
        while k < n
            invariant
                n == self.handles().len(),
                0 <= k <= n,
                self.spec_get(fh) == handle_lookup(self.handles().skip(k as int), fh),
            decreases n - k,
        {
            proof {
                assert(self.handles().skip(k as int)[0] == self.handles()[k as int]);
                assert(self.handles().skip(k as int).drop_first() =~= self.handles().skip(
                    k as int + 1,
                ));
            }
            if self.entries[k].0 == fh {
                return Some(&self.entries[k].1);
            }
            k += 1;
        }
        proof {
            assert(self.handles().skip(n as int).len() == 0);
        }
        None
    }

    /// Removes the entry registered under `fh` and hands its value back,
    /// or `None` if the handle is not live. The counter keeps its value:
    /// a released handle is retired for good.
    pub fn remove(&mut self, fh: u64) -> (r: Option<T>)
        requires
            old(self).wf(),
        ensures
            final(self).wf(),
            final(self).spec_counter() == old(self).spec_counter(),
            r == old(self).spec_get(fh),
            final(self).spec_get(fh) is None,
            forall|g: u64| g != fh ==> final(self).spec_get(g) == old(self).spec_get(g),
            final(self).handles().len() == old(self).handles().len() - (
            if old(self).contains_handle(fh) {
                1int
            } else {
                0int
            }),
    {
        let n = self.entries.len();
        let mut k: usize = 0;
        proof {
            assert(self.handles().skip(0) =~= self.handles());
        }
        while k < n
            invariant
                self.wf(),
                self == old(self),
                n == self.handles().len(),
                0 <= k <= n,
                self.spec_get(fh) == handle_lookup(self.handles().skip(k as int), fh),
                forall|a: int| 0 <= a < k ==> (#[trigger] self.handles()[a]).0 != fh,
            decreases n - k,
        {
            proof {
                assert(self.handles().skip(k as int)[0] == self.handles()[k as int]);
                assert(self.handles().skip(k as int).drop_first() =~= self.handles().skip(
                    k as int + 1,
                ));
            }
            if self.entries[k].0 == fh {
                let ghost s = self.entries@;
                let (_, v) = self.entries.remove(k);
                proof {
                    assert(old(self).spec_get(fh) == Some(s[k as int].1));
                    lemma_handle_lookup_remove(s, k as int, fh);
                    assert forall|g: u64| g != fh implies final(self).spec_get(g) == old(
                        self,
                    ).spec_get(g) by {
                        lemma_handle_lookup_remove(s, k as int, g);
                    }
                    s.remove_ensures(k as int);
                    assert(final(self).wf()) by {
                        assert forall|a: int, b: int|
                            #![trigger self.handles()[a], self.handles()[b]]
                            0 <= a < b < self.handles().len() implies self.handles()[a].0
                            < self.handles()[b].0 by {
                            let sa: int = if a < k {
                                a
                            } else {
                                a + 1
                            };
                            let sb: int = if b < k {
                                b
                            } else {
                                b + 1
                            };
                            assert(self.handles()[a] == s[sa] && self.handles()[b] == s[sb]);
                        }
                        assert forall|a: int|
                            0 <= a < self.handles().len() implies 1 <= (
                        #[trigger] self.handles()[a]).0 <= self.spec_counter() by {
                            let sa: int = if a < k {
                                a
                            } else {
                                a + 1
                            };
                            assert(self.handles()[a] == s[sa]);
                        }
                    }
                }
                return Some(v);
            }
            k += 1;
        }
        proof {
            assert(self.handles().skip(n as int).len() == 0);
        }
        None
    }

    /// Releases handle `fh`: removes its entry and hands the value back so
    /// the caller can close the host file. Releasing a handle that is not
    /// live — never issued, or already released — fails with `NotFound`.
    pub fn release(&mut self, fh: u64) -> (r: Result<T, FsError>)
        requires
            old(self).wf(),
        ensures
            final(self).wf(),
            final(self).spec_counter() == old(self).spec_counter(),
            match r {
                Result::Ok(v) => old(self).spec_get(fh) == Some(v),
                Result::Err(e) => e == FsError::NotFound && old(self).spec_get(fh) is None,
            },
            final(self).spec_get(fh) is None,
            forall|g: u64| g != fh ==> final(self).spec_get(g) == old(self).spec_get(g),
    {
        match self.remove(fh) {
            Some(v) => Ok(v),
            None => Err(FsError::NotFound),
        }
    }

    /// Resolves the handle a read request names. A handle that is not live
    /// — never issued, or already released — fails with `BadHandle`.
    pub fn read_handle(&self, fh: u64) -> (r: Result<&T, FsError>)
        ensures
            match r {
                Result::Ok(v) => self.spec_get(fh) == Some(*v),
                Result::Err(e) => e == FsError::BadHandle && self.spec_get(fh) is None,
            },
    {
        match self.get(fh) {
            Some(v) => Ok(v),
            None => Err(FsError::BadHandle),
        }
    }
}


/// Independently opened handles never observe each other: registering two
/// values under two fresh handles leaves each handle resolving to its own
/// value, whatever the other one does. Together with
/// [`lemma_handle_lookup_remove`], which says that removing one entry
/// leaves every other handle's resolution unchanged, reads through
/// distinct handles are fully isolated in the registry.
pub proof fn lemma_no_cross_talk<T>(s: Seq<(u64, T)>, e1: (u64, T), e2: (u64, T))
    requires
        e1.0 != e2.0,
        handle_lookup(s, e1.0) is None,
        handle_lookup(s.push(e1), e2.0) is None,
    ensures
        handle_lookup(s.push(e1).push(e2), e1.0) == Some(e1.1),
        handle_lookup(s.push(e1).push(e2), e2.0) == Some(e2.1),
{
    lemma_handle_lookup_push(s, e1, e1.0);
    lemma_handle_lookup_push(s.push(e1), e2, e1.0);
    lemma_handle_lookup_push(s.push(e1), e2, e2.0);
}

} // verus!
