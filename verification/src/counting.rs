//! Counting helpers shared by the disjoint-set structures: how often a
//! value occurs in a sequence of representatives, and how many positions
//! are roots (hold their own index).

use vstd::prelude::*;

verus! {

/// How many entries of `s` equal `v`.
pub(crate) open spec fn count_eq(s: Seq<int>, v: int) -> nat
    decreases s.len(),
{
    if s.len() == 0 {
        0
    } else {
        count_eq(s.drop_last(), v) + if s.last() == v {
            1nat
        } else {
            0nat
        }
    }
}

/// How many positions of `s` hold their own index: the number of roots,
/// that is, of groups.
pub(crate) open spec fn count_roots(s: Seq<int>) -> nat
    decreases s.len(),
{
    if s.len() == 0 {
        0
    } else {
        count_roots(s.drop_last()) + if s.last() == s.len() - 1 {
            1nat
        } else {
            0nat
        }
    }
}

/// In the identity sequence every value below `n` occurs exactly once and
/// every other value not at all.
pub(crate) proof fn lemma_identity_count_eq(n: nat, v: int)
    ensures
        count_eq(Seq::new(n, |i: int| i), v) == if 0 <= v < n {
            1nat
        } else {
            0nat
        },
    decreases n,
{
    let s = Seq::new(n, |i: int| i);
    if n > 0 {
        lemma_identity_count_eq((n - 1) as nat, v);
        let s0 = Seq::new((n - 1) as nat, |i: int| i);
        assert(s.drop_last() =~= s0);
        assert(s.last() == n - 1);
    }
}

/// In the identity sequence every position is a root.
pub(crate) proof fn lemma_identity_count_roots(n: nat)
    ensures
        count_roots(Seq::new(n, |i: int| i)) == n,
    decreases n,
{
    let s = Seq::new(n, |i: int| i);
    if n > 0 {
        lemma_identity_count_roots((n - 1) as nat);
        let s0 = Seq::new((n - 1) as nat, |i: int| i);
        assert(s.drop_last() =~= s0);
        assert(s.last() == n - 1);
    }
}

/// Two distinct values cannot together occur more often than there are
/// entries.
pub(crate) proof fn lemma_count_eq_pair(s: Seq<int>, a: int, b: int)
    requires
        a != b,
    ensures
        count_eq(s, a) + count_eq(s, b) <= s.len(),
    decreases s.len(),
{
    if s.len() > 0 {
        lemma_count_eq_pair(s.drop_last(), a, b);
    }
}

/// A sequence with a root has at least one root.
pub(crate) proof fn lemma_count_roots_pos(s: Seq<int>, r: int)
    requires
        0 <= r < s.len(),
        s[r] == r,
    ensures
        count_roots(s) >= 1,
    decreases s.len(),
{
    if r == s.len() - 1 {
    } else {
        lemma_count_roots_pos(s.drop_last(), r);
    }
}

/// Redirecting every entry holding `a` to `b` empties `a`'s count into
/// `b`'s.
pub(crate) proof fn lemma_count_eq_merge(s: Seq<int>, a: int, b: int)
    requires
        a != b,
    ensures
        count_eq(Seq::new(s.len(), |i: int| if s[i] == a { b } else { s[i] }), b) == count_eq(
            s,
            a,
        ) + count_eq(s, b),
        count_eq(Seq::new(s.len(), |i: int| if s[i] == a { b } else { s[i] }), a) == 0,
    decreases s.len(),
{
    let t = Seq::new(s.len(), |i: int| if s[i] == a { b } else { s[i] });
    if s.len() == 0 {
    } else {
        lemma_count_eq_merge(s.drop_last(), a, b);
        let s0 = s.drop_last();
        let t0 = Seq::new(s0.len(), |i: int| if s0[i] == a { b } else { s0[i] });
        assert(t.drop_last() =~= t0);
        assert(t.last() == if s.last() == a { b } else { s.last() });
    }
}

/// Redirecting every entry holding `a` to `b` leaves the count of any
/// third value alone.
pub(crate) proof fn lemma_count_eq_merge_other(s: Seq<int>, a: int, b: int, v: int)
    requires
        v != a,
        v != b,
    ensures
        count_eq(Seq::new(s.len(), |i: int| if s[i] == a { b } else { s[i] }), v) == count_eq(
            s,
            v,
        ),
    decreases s.len(),
{
    let t = Seq::new(s.len(), |i: int| if s[i] == a { b } else { s[i] });
    if s.len() > 0 {
        lemma_count_eq_merge_other(s.drop_last(), a, b, v);
        let s0 = s.drop_last();
        let t0 = Seq::new(s0.len(), |i: int| if s0[i] == a { b } else { s0[i] });
        assert(t.drop_last() =~= t0);
        assert(t.last() == if s.last() == a { b } else { s.last() });
    }
}

/// Redirecting the entries of root `a` to root `b` removes exactly one
/// root.
pub(crate) proof fn lemma_count_roots_merge(s: Seq<int>, a: int, b: int)
    requires
        a != b,
        0 <= b,
        b < s.len() ==> s[b] == b,
    ensures
        count_roots(Seq::new(s.len(), |i: int| if s[i] == a { b } else { s[i] }))
            == count_roots(s) - (if 0 <= a < s.len() && s[a] == a {
            1nat
        } else {
            0nat
        }),
    decreases s.len(),
{
    let t = Seq::new(s.len(), |i: int| if s[i] == a { b } else { s[i] });
    if s.len() == 0 {
    } else {
        let l = s.len() - 1;
        lemma_count_roots_merge(s.drop_last(), a, b);
        let s0 = s.drop_last();
        let t0 = Seq::new(s0.len(), |i: int| if s0[i] == a { b } else { s0[i] });
        assert(t.drop_last() =~= t0);
        assert(t.last() == if s.last() == a { b } else { s.last() });
        if s[l] == a && l != a {
            // position l does not become a root: that would need b == l,
            // but then s[l] would already be b, not a
            assert(t[l] == b);
            if b == l {
                assert(s[l] == b);
                assert(false);
            }
        }
    }
}

} // verus!
