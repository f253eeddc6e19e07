//! Lexicographic ordering of names.
//!
//! Children of a virtual folder are listed in name order. This module defines
//! that order on character sequences, proves the facts a sorting routine
//! needs of it (transitivity, trichotomy), and provides executable
//! comparison of `&str` values together with an insertion sort for the
//! `(name, identity)` entry lists a folder keeps.

use vstd::prelude::*;

verus! {

/// Strict lexicographic order on character sequences, by code point; a
/// proper prefix comes before its extensions.
pub open spec fn seq_lt(a: Seq<char>, b: Seq<char>) -> bool
    decreases a.len(),
{
    if a.len() == 0 {
        b.len() > 0
    } else if b.len() == 0 {
        false
    } else if a[0] == b[0] {
        seq_lt(a.drop_first(), b.drop_first())
    } else {
        (a[0] as u32) < (b[0] as u32)
    }
}

/// The order is transitive.
pub proof fn lemma_seq_lt_trans(a: Seq<char>, b: Seq<char>, c: Seq<char>)
    requires
        seq_lt(a, b),
        seq_lt(b, c),
    ensures
        seq_lt(a, c),
    decreases a.len(),
{
    if a.len() == 0 {
    } else if a[0] == b[0] && b[0] == c[0] {
        lemma_seq_lt_trans(a.drop_first(), b.drop_first(), c.drop_first());
    }
}

/// The order is total: two sequences that are not ordered either way are
/// equal.
pub proof fn lemma_seq_lt_total(a: Seq<char>, b: Seq<char>)
    requires
        !seq_lt(a, b),
        !seq_lt(b, a),
    ensures
        a == b,
    decreases a.len(),
{
    if a.len() == 0 {
        assert(b.len() == 0);
        assert(a =~= b);
    } else {
        assert(b.len() > 0);
        if a[0] != b[0] {
            assert(!((a[0] as u32) < (b[0] as u32)));
            assert(!((b[0] as u32) < (a[0] as u32)));
            assert(a[0] as u32 == b[0] as u32);
            vstd::utf8::char_u32_cast(a[0], a[0] as u32);
            vstd::utf8::char_u32_cast(b[0], b[0] as u32);
            assert(false);
        }
        lemma_seq_lt_total(a.drop_first(), b.drop_first());
        assert(a =~= b) by {
            assert(forall|i: int|
                1 <= i < a.len() ==> a[i] == a.drop_first()[i - 1] && b[i] == b.drop_first()[i
                    - 1]);
        }
    }
}

/// Nothing is ordered before itself.
pub proof fn lemma_seq_lt_irrefl(a: Seq<char>)
    ensures
        !seq_lt(a, a),
    decreases a.len(),
{
    if a.len() > 0 {
        lemma_seq_lt_irrefl(a.drop_first());
    }
}

/// Whether two strings hold the same characters.
pub fn str_eq(a: &str, b: &str) -> (r: bool)
    ensures
        r == (a@ == b@),
{
    let alen = a.unicode_len();
    let blen = b.unicode_len();
    if alen != blen {
        assert(a@ != b@) by {
            assert(a@.len() != b@.len());
        }
        return false;
    }
    let mut i: usize = 0;
    while i < alen
        invariant
            alen == a@.len(),
            alen == b@.len(),
            0 <= i <= alen,
            forall|k: int| 0 <= k < i ==> a@[k] == b@[k],
        decreases alen - i,
    {
        let ca = a.get_char(i);
        let cb = b.get_char(i);
        if ca as u32 != cb as u32 {
            assert(a@[i as int] != b@[i as int]);
            return false;
        }
        i += 1;
    }
    proof {
        assert(a@ =~= b@);
    }
    true
}

/// Whether `a` comes strictly before `b` in name order.
pub fn str_lt(a: &str, b: &str) -> (r: bool)
    ensures
        r == seq_lt(a@, b@),
{
    let alen = a.unicode_len();
    let blen = b.unicode_len();
    let mut i: usize = 0;
    proof {
        assert(a@.skip(0) =~= a@);
        assert(b@.skip(0) =~= b@);
    }
    while i < alen && i < blen
        invariant
            alen == a@.len(),
            blen == b@.len(),
            0 <= i <= alen,
            0 <= i <= blen,
            seq_lt(a@, b@) == seq_lt(a@.skip(i as int), b@.skip(i as int)),
        decreases alen - i,
    {
        let ca = a.get_char(i);
        let cb = b.get_char(i);
        proof {
            assert(a@.skip(i as int)[0] == a@[i as int]);
            assert(b@.skip(i as int)[0] == b@[i as int]);
            assert(a@.skip(i as int).drop_first() =~= a@.skip(i as int + 1));
            assert(b@.skip(i as int).drop_first() =~= b@.skip(i as int + 1));
        }
        if ca as u32 != cb as u32 {
            return (ca as u32) < (cb as u32);
        }
        i += 1;
    }
    proof {
        if i >= alen {
            assert(a@.skip(i as int).len() == 0);
        } else {
            assert(b@.skip(i as int).len() == 0);
            assert(a@.skip(i as int).len() > 0);
        }
    }
    alen < blen
}

/// The entry lists sorted here: a name paired with the identity of the node
/// it names.
pub type NameEntry = (String, u64);

/// All names in the entry list are distinct.
pub open spec fn distinct_names(s: Seq<NameEntry>) -> bool {
    forall|i: int, j: int|
        #![trigger s[i], s[j]]
        0 <= i < s.len() && 0 <= j < s.len() && i != j ==> s[i].0@ != s[j].0@
}

/// The entry list is strictly sorted by name.
pub open spec fn sorted_strict(s: Seq<NameEntry>) -> bool {
    forall|i: int, j: int|
        #![trigger s[i], s[j]]
        0 <= i < j < s.len() ==> seq_lt(s[i].0@, s[j].0@)
}

/// A strictly sorted entry list has pairwise-distinct names.
pub proof fn lemma_sorted_distinct(s: Seq<NameEntry>)
    requires
        sorted_strict(s),
    ensures
        distinct_names(s),
{
    assert forall|i: int, j: int|
        0 <= i < s.len() && 0 <= j < s.len() && i != j implies (#[trigger] s[i]).0@ != (
    #[trigger] s[j]).0@ by {
        if i < j {
            lemma_seq_lt_irrefl(s[i].0@);
        } else {
            lemma_seq_lt_irrefl(s[j].0@);
        }
    }
}

/// Sorts an entry list with pairwise-distinct names into strict name order.
/// The entries themselves are kept: the result is a permutation of the
/// input.
pub fn sort_entries(v: &mut Vec<NameEntry>)
    requires
        distinct_names(old(v)@),
    ensures
        sorted_strict(final(v)@),
        final(v)@.to_multiset() == old(v)@.to_multiset(),
        final(v)@.len() == old(v)@.len(),
{
    broadcast use vstd::seq_lib::group_to_multiset_ensures;

    if v.len() <= 1 {
        return ;
    }
    let mut i: usize = 1;
    while i < v.len()
        invariant
            1 <= i <= v@.len(),
            v@.len() == old(v)@.len(),
            v@.to_multiset() == old(v)@.to_multiset(),
            distinct_names(v@),
            sorted_strict(v@.take(i as int)),
        decreases v@.len() - i,
    {
        let mut j: usize = 0;
        while j < i && str_lt(v[j].0.as_str(), v[i].0.as_str())
            invariant
                0 <= j <= i < v@.len(),
                forall|k: int| 0 <= k < j ==> seq_lt(v@[k].0@, v@[i as int].0@),
            decreases i - j,
        {
            j += 1;
        }
        let ghost s = v@;
        let ghost x_val = v@[i as int];
        // Everything in the sorted prefix before `j` is below the element,
        // and everything from `j` up to `i` is above it.
        proof {
            assert forall|k1: int, k2: int|
                #![trigger s[k1], s[k2]]
                0 <= k1 < k2 < i implies seq_lt(s[k1].0@, s[k2].0@) by {
                assert(s.take(i as int)[k1] == s[k1]);
                assert(s.take(i as int)[k2] == s[k2]);
                assert(seq_lt(s.take(i as int)[k1].0@, s.take(i as int)[k2].0@));
            }
            if j < i {
                assert(!seq_lt(s[j as int].0@, x_val.0@));
                if !seq_lt(x_val.0@, s[j as int].0@) {
                    lemma_seq_lt_total(x_val.0@, s[j as int].0@);
                    assert(s[j as int].0@ != s[i as int].0@);
                    assert(false);
                }
            }
            assert forall|k: int| j <= k < i implies seq_lt(x_val.0@, s[k].0@) by {
                if k > j {
                    assert(seq_lt(s[j as int].0@, s[k].0@));
                    lemma_seq_lt_trans(x_val.0@, s[j as int].0@, s[k].0@);
                }
            }
        }
        let x = v.remove(i);
        v.insert(j, x);
        proof {
            let cur = v@;
            s.remove_ensures(i as int);
            s.remove(i as int).insert_ensures(j as int, x_val);
            assert(cur =~= s.remove(i as int).insert(j as int, x_val));
            // Where each element of the new list came from.
            assert(forall|k: int| 0 <= k < j ==> cur[k] == s[k]);
            assert(cur[j as int] == x_val);
            assert forall|k: int| j < k <= i implies cur[k] == s[k - 1] by {
                assert(cur[k] == s.remove(i as int)[k - 1]);
            }
            assert forall|k: int| i < k < cur.len() implies cur[k] == s[k] by {
                assert(cur[k] == s.remove(i as int)[k - 1]);
            }
            assert(cur.to_multiset() =~= s.to_multiset()) by {
                broadcast use vstd::multiset::group_multiset_axioms;

                vstd::seq_lib::to_multiset_remove(s, i as int);
                vstd::seq_lib::to_multiset_insert(s.remove(i as int), j as int, x_val);
                vstd::seq_lib::to_multiset_contains(s, x_val);
                assert(s.contains(x_val)) by {
                    assert(s[i as int] == x_val);
                }
                assert(s.to_multiset().count(x_val) > 0);
            }
            assert(distinct_names(cur)) by {
                assert forall|a: int, b: int|
                    0 <= a < cur.len() && 0 <= b < cur.len() && a != b implies cur[a].0@
                    != cur[b].0@ by {
                    let ga: int = if a < j {
                        a
                    } else if a == j {
                        i as int
                    } else if a <= i {
                        a - 1
                    } else {
                        a
                    };
                    let gb: int = if b < j {
                        b
                    } else if b == j {
                        i as int
                    } else if b <= i {
                        b - 1
                    } else {
                        b
                    };
                    assert(cur[a] == s[ga] && cur[b] == s[gb] && ga != gb);
                }
            }
            assert(sorted_strict(cur.take(i + 1))) by {
                assert forall|a: int, b: int|
                    #![trigger cur.take(i + 1)[a], cur.take(i + 1)[b]]
                    0 <= a < b < i + 1 implies seq_lt(cur.take(i + 1)[a].0@, cur.take(
                    i + 1,
                )[b].0@) by {
                    assert(cur.take(i + 1)[a] == cur[a] && cur.take(i + 1)[b] == cur[b]);
                    if b < j {
                        assert(seq_lt(s[a].0@, s[b].0@));
                    } else if b == j {
                        assert(seq_lt(s[a].0@, x_val.0@));
                    } else if a < j {
                        assert(cur[b] == s[b - 1] && j <= b - 1 < i && a < b - 1);
                        assert(seq_lt(s[a].0@, s[b - 1].0@));
                    } else if a == j {
                        assert(seq_lt(x_val.0@, s[b - 1].0@));
                    } else {
                        assert(seq_lt(s[a - 1].0@, s[b - 1].0@));
                    }
                }
            }
        }
        i += 1;
    }
    proof {
        assert(v@.take(v@.len() as int) =~= v@);
    }
}

} // verus!
