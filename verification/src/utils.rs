//! Generic utilities: smallest/largest of several values, a digit sum, a
//! binary search over a caller-supplied predicate, comparison-guarded
//! insertion into a hash map, and iterative merge sorts.

use vstd::prelude::*;

use std::collections::HashMap;
use std::collections::VecDeque;

use vstd::multiset::Multiset;

verus! {

/// The least of `first` and the values of `rest`.
pub fn min_value(first: i64, rest: &Vec<i64>) -> (r: i64)
    ensures
        r <= first,
        forall|i: int| 0 <= i < rest@.len() ==> r <= #[trigger] rest@[i],
        r == first || rest@.contains(r),
{
    let mut temp_min: i64 = first;
    let mut i: usize = 0;
    while i < rest.len()
        invariant
            i <= rest@.len(),
            temp_min <= first,
            forall|k: int| 0 <= k < i ==> temp_min <= #[trigger] rest@[k],
            temp_min == first || rest@.contains(temp_min),
        decreases rest@.len() - i,
    {
        if rest[i] < temp_min {
            temp_min = rest[i];
        }
        i += 1;
    }
    temp_min
}

/// The greatest of `first` and the values of `rest`.
pub fn max_value(first: i64, rest: &Vec<i64>) -> (r: i64)
    ensures
        r >= first,
        forall|i: int| 0 <= i < rest@.len() ==> r >= #[trigger] rest@[i],
        r == first || rest@.contains(r),
{
    let mut temp_max: i64 = first;
    let mut i: usize = 0;
    while i < rest.len()
        invariant
            i <= rest@.len(),
            temp_max >= first,
            forall|k: int| 0 <= k < i ==> temp_max >= #[trigger] rest@[k],
            temp_max == first || rest@.contains(temp_max),
        decreases rest@.len() - i,
    {
        if rest[i] > temp_max {
            temp_max = rest[i];
        }
        i += 1;
    }
    temp_max
}

/// Overwrites `target` with the least of its current value and the values
/// of `others`.
pub fn replace_min(target: &mut i64, others: &Vec<i64>)
    ensures
        *final(target) <= *old(target),
        forall|i: int| 0 <= i < others@.len() ==> *final(target) <= #[trigger] others@[i],
        *final(target) == *old(target) || others@.contains(*final(target)),
{
    let r = min_value(*target, others);
    *target = r;
}

/// Overwrites `target` with the greatest of its current value and the
/// values of `others`.
pub fn replace_max(target: &mut i64, others: &Vec<i64>)
    ensures
        *final(target) >= *old(target),
        forall|i: int| 0 <= i < others@.len() ==> *final(target) >= #[trigger] others@[i],
        *final(target) == *old(target) || others@.contains(*final(target)),
{
    let r = max_value(*target, others);
    *target = r;
}

/// The sum of the decimal digits of `v`.
pub open spec fn spec_sum_digits(v: nat) -> nat
    decreases v,
{
    if v < 10 {
        v
    } else {
        v % 10 + spec_sum_digits(v / 10)
    }
}

/// A number is at least the sum of its decimal digits.
proof fn lemma_sum_digits_le(v: nat)
    ensures
        spec_sum_digits(v) <= v,
    decreases v,
{
    if v >= 10 {
        lemma_sum_digits_le(v / 10);
    }
}

/// Computes the sum of the decimal digits of `v`.
pub fn sum_digits(v: usize) -> (r: usize)
    ensures
        r == spec_sum_digits(v as nat),
{
    let ghost orig = v as nat;
    let mut v: usize = v;
    let mut sum: usize = 0;
    proof {
        lemma_sum_digits_le(orig);
    }
    sum += v % 10;
    v /= 10;
    while v > 0
        invariant
            sum + (if v > 0 {
                spec_sum_digits(v as nat)
            } else {
                0nat
            }) == spec_sum_digits(orig),
            spec_sum_digits(orig) <= orig <= usize::MAX,
        decreases v,
    {
        proof {
            lemma_sum_digits_le(v as nat);
        }
        sum += v % 10;
        v /= 10;
    }
    sum
}

/// Binary search over the index range `[edge_l, edge_r]` with a
/// caller-supplied predicate. Returns the last index for which `judge`
/// answered `true`, assuming — as a binary search must — that `judge` is
/// monotone (a `true` prefix followed by a `false` suffix); returns
/// `edge_l - 1` when `judge` answered `false` even at `edge_l`, and also
/// for a reversed bracket (`edge_l > edge_r`), where nothing is probed.
pub fn bin_sch<F: Fn(usize) -> bool>(edge_l: usize, edge_r: usize, judge: F) -> (r: isize)
    requires
        edge_l as int <= isize::MAX as int,
        2 * (edge_r as int) + 1 <= isize::MAX as int,
        forall|m: usize| edge_l <= m <= edge_r ==> call_requires(judge, (m,)),
    ensures
        edge_l as int - 1 <= r,
        edge_l <= edge_r ==> r <= edge_r as int,
        edge_l > edge_r ==> r == edge_l as int - 1,
        r >= edge_l ==> call_ensures(judge, (r as usize,), true),
        r < edge_r ==> call_ensures(judge, ((r + 1) as usize,), false),
{
    if edge_l > edge_r {
        return edge_l as isize - 1;
    }
    let mut ok: isize = edge_l as isize - 1;
    let mut ng: isize = (edge_r + 1) as isize;
    while ng - ok > 1
        invariant
            2 * (edge_r as int) + 1 <= isize::MAX as int,
            edge_l as int - 1 <= ok < ng <= edge_r as int + 1,
            forall|m: usize| edge_l <= m <= edge_r ==> call_requires(judge, (m,)),
            ok >= edge_l ==> call_ensures(judge, (ok as usize,), true),
            ng <= edge_r ==> call_ensures(judge, (ng as usize,), false),
        decreases ng - ok,
    {
        let mid: isize = (ok + ng) / 2;
        if judge(mid as usize) {
            ok = mid;
        } else {
            ng = mid;
        }
    }
    ok
}

/// Compares `candidate_v` with the value stored under `key` using the
/// caller-supplied `cmp`, and stores `candidate_v` when `cmp` approves or
/// when no value is stored yet.
pub fn cmp_and_replace_value_in_hashmap<T, U, F>(
    map: &mut HashMap<T, U>,
    key: &T,
    candidate_v: U,
    cmp: F,
) where T: Eq + std::hash::Hash + Copy, F: Fn(&U, &U) -> bool
    requires
        vstd::std_specs::hash::obeys_key_model::<T>(),
        old(map)@.contains_key(*key) ==> call_requires(cmp, (&candidate_v, &old(map)@[*key])),
    ensures
        !old(map)@.contains_key(*key) ==> final(map)@ == old(map)@.insert(*key, candidate_v),
        old(map)@.contains_key(*key) ==> {
            ||| (call_ensures(cmp, (&candidate_v, &old(map)@[*key]), true) && final(map)@ == old(
                map,
            )@.insert(*key, candidate_v))
            ||| (call_ensures(cmp, (&candidate_v, &old(map)@[*key]), false) && final(map)@ == old(
                map,
            )@)
        },
{
    let existing = map.get(key);
    match existing {
        Some(existing_v) => {
            if cmp(&candidate_v, existing_v) {
                map.insert(*key, candidate_v);
            }
        },
        None => {
            map.insert(*key, candidate_v);
        },
    }
}

/// Whether `x` may stand before `y` according to the caller-supplied
/// comparison: the comparison approved `(x, y)`, or turned `(y, x)` down.
pub open spec fn can_precede<T, F: Fn(&T, &T) -> bool>(cmp: F, x: T, y: T) -> bool {
    call_ensures(cmp, (&x, &y), true) || call_ensures(cmp, (&y, &x), false)
}

/// Whether each element of `s` may stand before its successor.
pub open spec fn ordered_by<T, F: Fn(&T, &T) -> bool>(cmp: F, s: Seq<T>) -> bool {
    forall|i: int, j: int|
        0 <= i && i + 1 == j && j < s.len() ==> can_precede(cmp, #[trigger] s[i], #[trigger] s[j])
}

/// Whether `p` lists, for each position of `s`, the position of `v` that
/// its element came from: a permutation of the input positions under
/// which `s` rearranges `v`, and in which every inversion of input order
/// carries comparison evidence — some element standing between the two
/// answered `false` against the earlier-placed one. Only the
/// comparison's own verdicts can move an element ahead of an earlier
/// one; in particular, for a comparison that decides a total preorder,
/// elements it ties keep their input order (stability).
pub open spec fn stable_arrangement<T, F: Fn(&T, &T) -> bool>(
    cmp: F,
    v: Seq<T>,
    s: Seq<T>,
    p: Seq<int>,
) -> bool {
    &&& p.len() == s.len()
    &&& s.len() == v.len()
    &&& source_matches(v, s, p)
    &&& distinct_seq(p)
    &&& inversions_evidenced(cmp, s, p)
}

/// Every entry of `p` is a position of `src` holding the corresponding
/// element of `run`.
pub open spec fn source_matches<T>(src: Seq<T>, run: Seq<T>, p: Seq<int>) -> bool {
    &&& p.len() == run.len()
    &&& (forall|i: int| 0 <= i < p.len() ==> 0 <= #[trigger] p[i] < src.len() && run[i] == src[p[i]])
}

/// No two entries of `p` are equal.
pub open spec fn distinct_seq(p: Seq<int>) -> bool {
    forall|i: int, j: int| 0 <= i < j < p.len() ==> #[trigger] p[i] != #[trigger] p[j]
}

/// Every pair placed against its source order has a witness in between:
/// an element that answered `false` against the earlier-placed one.
pub open spec fn inversions_evidenced<T, F: Fn(&T, &T) -> bool>(
    cmp: F,
    s: Seq<T>,
    p: Seq<int>,
) -> bool {
    forall|i: int, j: int|
        0 <= i < j < p.len() && #[trigger] p[i] > #[trigger] p[j] ==> exists|m: int|
            i < m <= j && call_ensures(cmp, (&s[m], &s[i]), false)
}

/// Every entry of `p` is smaller than every entry of `q`.
spec fn all_below(p: Seq<int>, q: Seq<int>) -> bool {
    forall|i: int, j: int|
        0 <= i < p.len() && 0 <= j < q.len() ==> #[trigger] p[i] < #[trigger] q[j]
}

/// No entry of `p` equals an entry of `q`.
spec fn disjoint_entries(p: Seq<int>, q: Seq<int>) -> bool {
    forall|i: int, j: int|
        0 <= i < p.len() && 0 <= j < q.len() ==> #[trigger] p[i] != #[trigger] q[j]
}

/// The multiset of all elements held by a sequence of runs.
spec fn runs_multiset<T>(rs: Seq<VecDeque<T>>) -> Multiset<T>
    decreases rs.len(),
{
    if rs.len() == 0 {
        Multiset::empty()
    } else {
        runs_multiset(rs.drop_last()).add(rs.last()@.to_multiset())
    }
}

/// Peeling the first run off a sequence of runs peels its elements off
/// the combined multiset.
proof fn lemma_runs_multiset_drop_first<T>(rs: Seq<VecDeque<T>>)
    requires
        rs.len() >= 1,
    ensures
        runs_multiset(rs) == rs[0]@.to_multiset().add(runs_multiset(rs.drop_first())),
    decreases rs.len(),
{
    broadcast use vstd::multiset::group_multiset_axioms;

    if rs.len() == 1 {
        assert(rs.drop_last() =~= Seq::empty());
        assert(rs.drop_first() =~= Seq::empty());
        assert(runs_multiset(rs) =~= rs[0]@.to_multiset().add(runs_multiset(rs.drop_first())));
    } else {
        lemma_runs_multiset_drop_first(rs.drop_last());
        assert(rs.drop_last().drop_first() =~= rs.drop_first().drop_last());
        assert(rs.drop_last()[0] == rs[0]);
        assert(rs.drop_first().last() == rs.last());
        assert(runs_multiset(rs) =~= rs[0]@.to_multiset().add(runs_multiset(rs.drop_first())));
    }
}

/// An ordered sequence stays ordered when an element that may stand after
/// its last one is appended.
proof fn lemma_ordered_push<T, F: Fn(&T, &T) -> bool>(cmp: F, s: Seq<T>, x: T)
    requires
        ordered_by(cmp, s),
        s.len() > 0 ==> can_precede(cmp, s.last(), x),
    ensures
        ordered_by(cmp, s.push(x)),
{
    let u = s.push(x);
    assert forall|i: int, j: int| 0 <= i && i + 1 == j && j < u.len() implies can_precede(
        cmp,
        #[trigger] u[i],
        #[trigger] u[j],
    ) by {
        if j < s.len() {
            assert(u[i] == s[i] && u[j] == s[j]);
        } else {
            assert(u[i] == s[s.len() - 1] && u[j] == x);
        }
    }
}

/// Two ordered sequences whose boundary elements may stand next to each
/// other concatenate to an ordered sequence.
proof fn lemma_ordered_concat<T, F: Fn(&T, &T) -> bool>(cmp: F, s: Seq<T>, t: Seq<T>)
    requires
        ordered_by(cmp, s),
        ordered_by(cmp, t),
        s.len() > 0 && t.len() > 0 ==> can_precede(cmp, s.last(), t[0]),
    ensures
        ordered_by(cmp, s + t),
{
    let u = s + t;
    assert forall|i: int, j: int| 0 <= i && i + 1 == j && j < u.len() implies can_precede(
        cmp,
        #[trigger] u[i],
        #[trigger] u[j],
    ) by {
        if j < s.len() {
            assert(u[i] == s[i] && u[j] == s[j]);
        } else if j == s.len() {
            assert(u[i] == s[s.len() - 1] && u[j] == t[0]);
        } else {
            assert(u[i] == t[i - s.len()] && u[j] == t[j - s.len()]);
        }
    }
}

/// Merges two ordered runs into one ordered run holding the elements of
/// both, taking from `first` whenever the comparison approves its head
/// against `second`'s. The ghost arguments carry, for each run element,
/// the position of the overall source sequence it came from; the merged
/// run's positions are returned, with every inversion of source order
/// evidenced by a recorded `false` answer of the comparison (provided
/// the `first` run's sources all stand before the `second` run's).
fn merge_runs<T: Copy, F: Fn(&T, &T) -> bool>(
    cmp: &F,
    first: VecDeque<T>,
    second: VecDeque<T>,
    Ghost(src): Ghost<Seq<T>>,
    Ghost(pf): Ghost<Seq<int>>,
    Ghost(ps): Ghost<Seq<int>>,
) -> (res: (VecDeque<T>, Ghost<Seq<int>>))
    requires
        forall|x: T, y: T| call_requires(*cmp, (&x, &y)),
        ordered_by(*cmp, first@),
        ordered_by(*cmp, second@),
        source_matches(src, first@, pf),
        source_matches(src, second@, ps),
        distinct_seq(pf),
        distinct_seq(ps),
        disjoint_entries(pf, ps),
    ensures
        ({
            let m = res.0;
            let pm = res.1@;
            &&& m@.to_multiset() == first@.to_multiset().add(second@.to_multiset())
            &&& ordered_by(*cmp, m@)
            &&& m@.len() == first@.len() + second@.len()
            &&& source_matches(src, m@, pm)
            &&& distinct_seq(pm)
            &&& (all_below(pf, ps) && inversions_evidenced(*cmp, first@, pf)
                && inversions_evidenced(*cmp, second@, ps) ==> inversions_evidenced(
                *cmp,
                m@,
                pm,
            ))
            &&& (forall|q: Seq<int>|
                all_below(pf, q) && all_below(ps, q) ==> #[trigger] all_below(pm, q))
            &&& (forall|q: Seq<int>|
                all_below(q, pf) && all_below(q, ps) ==> #[trigger] all_below(q, pm))
            &&& (forall|q: Seq<int>|
                disjoint_entries(pf, q) && disjoint_entries(ps, q)
                    ==> #[trigger] disjoint_entries(pm, q))
        }),
{
    broadcast use vstd::seq_lib::group_to_multiset_ensures;
    broadcast use vstd::multiset::group_multiset_axioms;

    let ghost first0 = first@;
    let ghost second0 = second@;
    let mut first = first;
    let mut second = second;
    let mut merged: VecDeque<T> = VecDeque::new();
    let ghost mut pm = Seq::<int>::empty();
    let ghost mut ef = Seq::<int>::empty();
    let ghost mut es = Seq::<int>::empty();
    let ghost mut via_first = Seq::<bool>::empty();
    let ghost mut via_idx = Seq::<int>::empty();
    while first.len() > 0 && second.len() > 0
        invariant
            forall|x: T, y: T| call_requires(*cmp, (&x, &y)),
            source_matches(src, first0, pf),
            source_matches(src, second0, ps),
            ordered_by(*cmp, first0),
            ordered_by(*cmp, second0),
            ordered_by(*cmp, first@),
            ordered_by(*cmp, second@),
            ordered_by(*cmp, merged@),
            ef.len() <= pf.len() && pf.len() == first0.len(),
            es.len() <= ps.len() && ps.len() == second0.len(),
            first@ == first0.skip(ef.len() as int),
            second@ == second0.skip(es.len() as int),
            merged@.len() > 0 && first@.len() > 0 ==> can_precede(
                *cmp,
                merged@.last(),
                first@[0],
            ),
            merged@.len() > 0 && second@.len() > 0 ==> can_precede(
                *cmp,
                merged@.last(),
                second@[0],
            ),
            merged@.to_multiset().add(first@.to_multiset()).add(second@.to_multiset())
                == first0.to_multiset().add(second0.to_multiset()),
            merged@.len() + first@.len() + second@.len() == first0.len() + second0.len(),
            pm.len() == merged@.len(),
            ef.len() + es.len() == pm.len(),
            via_first.len() == pm.len(),
            via_idx.len() == pm.len(),
            forall|a: int, b: int| 0 <= a < b < ef.len() ==> #[trigger] ef[a] < #[trigger] ef[b],
            forall|a: int, b: int| 0 <= a < b < es.len() ==> #[trigger] es[a] < #[trigger] es[b],
            forall|a: int| 0 <= a < ef.len() ==> 0 <= #[trigger] ef[a] < pm.len(),
            forall|a: int| 0 <= a < es.len() ==> 0 <= #[trigger] es[a] < pm.len(),
            forall|a: int|
                0 <= a < ef.len() ==> pm[#[trigger] ef[a]] == pf[a] && merged@[ef[a]]
                    == first0[a],
            forall|a: int|
                0 <= a < es.len() ==> pm[#[trigger] es[a]] == ps[a] && merged@[es[a]]
                    == second0[a],
            forall|t: int|
                0 <= t < pm.len() && via_first[t] ==> 0 <= #[trigger] via_idx[t] < ef.len()
                    && ef[via_idx[t]] == t,
            forall|t: int|
                0 <= t < pm.len() && !via_first[t] ==> 0 <= #[trigger] via_idx[t] < es.len()
                    && es[via_idx[t]] == t,
            forall|k: int, k2: int|
                0 <= k < es.len() && 0 <= k2 < ef.len() && #[trigger] ef[k2] > #[trigger] es[k]
                    && (k2 == 0 || ef[k2 - 1] < es[k]) ==> call_ensures(
                    *cmp,
                    (&first0[k2], &merged@[es[k]]),
                    false,
                ),
            forall|k: int|
                0 <= k < es.len() && (ef.len() == 0 || ef[ef.len() - 1] < #[trigger] es[k])
                    && ef.len() < pf.len() ==> call_ensures(
                    *cmp,
                    (&first0[ef.len() as int], &merged@[es[k]]),
                    false,
                ),
        decreases first@.len() + second@.len(),
    {
        let take_first = cmp(&first[0], &second[0]);
        let ghost mf = merged@;
        let ghost ff = first@;
        let ghost sf = second@;
        let ghost f0 = first@[0];
        let ghost s0 = second@[0];
        let ghost t: int = pm.len() as int;
        if take_first {
            let x = first.pop_front().unwrap();
            merged.push_back(x);
            proof {
                assert(f0 == first0[ef.len() as int]);
                pm = pm.push(pf[ef.len() as int]);
                via_first = via_first.push(true);
                via_idx = via_idx.push(ef.len() as int);
                ef = ef.push(t);
                assert(first@ =~= first0.skip(ef.len() as int));
                assert(call_ensures(*cmp, (&f0, &s0), true));
                assert(can_precede(*cmp, f0, s0));
                if ff.len() > 1 {
                    assert(can_precede(*cmp, ff[0], ff[1]));
                }
                lemma_ordered_push(*cmp, mf, f0);
                assert(ff.remove(0) =~= first@);
                vstd::seq_lib::to_multiset_remove(ff, 0);
                vstd::seq_lib::to_multiset_build(mf, f0);
                assert(ff.contains(f0)) by {
                    assert(ff[0] == f0);
                }
                vstd::seq_lib::to_multiset_contains(ff, f0);
                assert(merged@.to_multiset().add(first@.to_multiset()).add(
                    second@.to_multiset(),
                ) =~= mf.to_multiset().add(ff.to_multiset()).add(sf.to_multiset()));
                // the newly placed element is the next one of `first`; any
                // trailing `second` elements gain it as permanent evidence
                assert forall|k: int, k2: int|
                    0 <= k < es.len() && 0 <= k2 < ef.len() && #[trigger] ef[k2] > #[trigger] es[
                    k
                ] && (k2 == 0 || ef[k2 - 1] < es[k]) implies call_ensures(
                    *cmp,
                    (&first0[k2], &merged@[es[k]]),
                    false,
                ) by {
                    if k2 == ef.len() - 1 {
                        assert(ef[k2] == t);
                        assert(merged@[es[k]] == mf[es[k]]);
                    } else {
                        assert(ef[k2] == ef.drop_last()[k2]);
                    }
                }
            }
        } else {
            let x = second.pop_front().unwrap();
            merged.push_back(x);
            proof {
                assert(s0 == second0[es.len() as int]);
                pm = pm.push(ps[es.len() as int]);
                via_first = via_first.push(false);
                via_idx = via_idx.push(es.len() as int);
                es = es.push(t);
                assert(second@ =~= second0.skip(es.len() as int));
                assert(call_ensures(*cmp, (&f0, &s0), false));
                assert(can_precede(*cmp, s0, f0));
                if sf.len() > 1 {
                    assert(can_precede(*cmp, sf[0], sf[1]));
                }
                lemma_ordered_push(*cmp, mf, s0);
                assert(sf.remove(0) =~= second@);
                vstd::seq_lib::to_multiset_remove(sf, 0);
                vstd::seq_lib::to_multiset_build(mf, s0);
                assert(sf.contains(s0)) by {
                    assert(sf[0] == s0);
                }
                vstd::seq_lib::to_multiset_contains(sf, s0);
                assert(merged@.to_multiset().add(first@.to_multiset()).add(
                    second@.to_multiset(),
                ) =~= mf.to_multiset().add(ff.to_multiset()).add(sf.to_multiset()));
                // the head of `first` that just lost the comparison is the
                // pending evidence for the newly placed `second` element
                assert(merged@[t] == s0);
                assert forall|k: int|
                    0 <= k < es.len() && (ef.len() == 0 || ef[ef.len() - 1] < #[trigger] es[k])
                        && ef.len() < pf.len() implies call_ensures(
                    *cmp,
                    (&first0[ef.len() as int], &merged@[es[k]]),
                    false,
                ) by {
                    if k < es.len() - 1 {
                        assert(es[k] == es.drop_last()[k]);
                        assert(merged@[es[k]] == mf[es[k]]);
                    }
                }
            }
        }
    }
    let ghost m_mid = merged@;
    let ghost f_mid = first@;
    let ghost s_mid = second@;
    merged.append(&mut first);
    merged.append(&mut second);
    proof {
        assert(merged@ == m_mid + f_mid + s_mid);
        if f_mid.len() == 0 {
            assert(m_mid + f_mid =~= m_mid);
            lemma_ordered_concat(*cmp, m_mid, s_mid);
            assert(m_mid + f_mid + s_mid =~= m_mid + s_mid);
        } else {
            assert(s_mid.len() == 0);
            lemma_ordered_concat(*cmp, m_mid, f_mid);
            assert(m_mid + f_mid + s_mid =~= m_mid + f_mid);
        }
        vstd::seq_lib::lemma_multiset_commutative(m_mid + f_mid, s_mid);
        vstd::seq_lib::lemma_multiset_commutative(m_mid, f_mid);
    }
    let ghost pm_mid = pm;
    proof {
        pm = pm + pf.skip(ef.len() as int) + ps.skip(es.len() as int);
        lemma_finish_merge(
            *cmp,
            src,
            first0,
            second0,
            pf,
            ps,
            m_mid,
            merged@,
            pm_mid,
            pm,
            ef,
            es,
            via_first,
            via_idx,
        );
    }
    (merged, Ghost(pm))
}

/// The facts a merge loop keeps about its embeddings: `e` lists, strictly
/// increasing, the positions where the elements of a source run (with
/// source positions `p` and contents `run0`) stand in the merged prefix.
spec fn embeds<T>(pm: Seq<int>, m: Seq<T>, e: Seq<int>, p: Seq<int>, run0: Seq<T>) -> bool {
    &&& (forall|a: int, b: int| 0 <= a < b < e.len() ==> #[trigger] e[a] < #[trigger] e[b])
    &&& (forall|a: int| 0 <= a < e.len() ==> 0 <= #[trigger] e[a] < pm.len())
    &&& (forall|a: int| 0 <= a < e.len() ==> pm[#[trigger] e[a]] == p[a] && m[e[a]] == run0[a])
}

/// The inverse of the two embeddings: every merged position is either
/// `via_idx[t]` of the `first` embedding or of the `second` one.
spec fn covers(
    pm: Seq<int>,
    ef: Seq<int>,
    es: Seq<int>,
    via_first: Seq<bool>,
    via_idx: Seq<int>,
) -> bool {
    &&& via_first.len() == pm.len()
    &&& via_idx.len() == pm.len()
    &&& (forall|t: int|
        0 <= t < pm.len() && via_first[t] ==> 0 <= #[trigger] via_idx[t] < ef.len() && ef[
        via_idx[t]] == t)
    &&& (forall|t: int|
        0 <= t < pm.len() && !via_first[t] ==> 0 <= #[trigger] via_idx[t] < es.len() && es[
        via_idx[t]] == t)
}

/// Finishes a merge: extends the two embeddings over the appended
/// remainder of whichever run was left, and assembles the permutation
/// and evidence facts for the full merged run.
/// Extending an embedding over a run's appended tail, standing
/// contiguously from position `start`, embeds the whole run.
proof fn lemma_extend_embeds<T>(
    pm_mid: Seq<int>,
    m_mid: Seq<T>,
    pm: Seq<int>,
    m: Seq<T>,
    e: Seq<int>,
    p: Seq<int>,
    run0: Seq<T>,
    e_full: Seq<int>,
    start: int,
)
    requires
        embeds(pm_mid, m_mid, e, p, run0),
        e.len() <= p.len() && p.len() == run0.len(),
        pm.len() == m.len(),
        pm_mid.len() <= start,
        start + (p.len() - e.len()) <= pm.len(),
        forall|t: int| 0 <= t < pm_mid.len() ==> #[trigger] pm[t] == pm_mid[t],
        forall|t: int| 0 <= t < pm_mid.len() ==> #[trigger] m[t] == m_mid[t],
        forall|i: int|
            0 <= i < p.len() - e.len() ==> #[trigger] pm[start + i] == p[e.len() + i],
        forall|i: int|
            0 <= i < p.len() - e.len() ==> #[trigger] m[start + i] == run0[e.len() + i],
        e_full == e + Seq::new((p.len() - e.len()) as nat, |i: int| start + i),
    ensures
        e_full.len() == p.len(),
        embeds(pm, m, e_full, p, run0),
        forall|a: int| 0 <= a < e.len() ==> #[trigger] e_full[a] == e[a],
        forall|a: int| e.len() <= a < e_full.len() ==> #[trigger] e_full[a] == start + (a
            - e.len()),
{
    let done: int = e.len() as int;
    assert forall|a: int| 0 <= a < e_full.len() implies pm[#[trigger] e_full[a]] == p[a] && m[
        e_full[a]] == run0[a] && 0 <= e_full[a] < pm.len() by {
        if a >= done {
            assert(e_full[a] == start + (a - done));
            assert(pm[start + (a - done)] == p[done + (a - done)]);
            assert(m[start + (a - done)] == run0[done + (a - done)]);
        } else {
            assert(e_full[a] == e[a]);
            assert(pm[e[a]] == pm_mid[e[a]] && m[e[a]] == m_mid[e[a]]);
        }
    }
    assert forall|a: int, b: int| 0 <= a < b < e_full.len() implies #[trigger] e_full[a]
        < #[trigger] e_full[b] by {
        if b < done {
            assert(e_full[a] == e[a] && e_full[b] == e[b]);
        } else if a < done {
            assert(e_full[a] == e[a] && e[a] < pm_mid.len());
            assert(e_full[b] == start + (b - done));
        } else {
            assert(e_full[a] == start + (a - done) && e_full[b] == start + (b - done));
        }
    }
}

/// Extending the inverse maps over the two appended tails covers the
/// whole merged run.
proof fn lemma_extend_covers(
    pm_mid: Seq<int>,
    pm: Seq<int>,
    ef: Seq<int>,
    es: Seq<int>,
    ef_full: Seq<int>,
    es_full: Seq<int>,
    via_first: Seq<bool>,
    via_idx: Seq<int>,
    via_first_full: Seq<bool>,
    via_idx_full: Seq<int>,
    frest: int,
    srest: int,
)
    requires
        covers(pm_mid, ef, es, via_first, via_idx),
        0 <= frest && 0 <= srest,
        pm.len() == pm_mid.len() + frest + srest,
        ef_full.len() == ef.len() + frest,
        es_full.len() == es.len() + srest,
        forall|a: int| 0 <= a < ef.len() ==> #[trigger] ef_full[a] == ef[a],
        forall|a: int|
            ef.len() <= a < ef_full.len() ==> #[trigger] ef_full[a] == pm_mid.len() + (a
                - ef.len()),
        forall|a: int| 0 <= a < es.len() ==> #[trigger] es_full[a] == es[a],
        forall|a: int|
            es.len() <= a < es_full.len() ==> #[trigger] es_full[a] == pm_mid.len() + frest + (
            a - es.len()),
        via_first_full == via_first + Seq::new(frest as nat, |i: int| true) + Seq::new(
            srest as nat,
            |i: int| false,
        ),
        via_idx_full == via_idx + Seq::new(frest as nat, |i: int| ef.len() + i) + Seq::new(
            srest as nat,
            |i: int| es.len() + i,
        ),
    ensures
        covers(pm, ef_full, es_full, via_first_full, via_idx_full),
{
    let lmid: int = pm_mid.len() as int;
    assert forall|t: int|
        0 <= t < pm.len() && via_first_full[t] implies 0 <= #[trigger] via_idx_full[t]
        < ef_full.len() && ef_full[via_idx_full[t]] == t by {
        if t < lmid {
            assert(via_first_full[t] == via_first[t] && via_idx_full[t] == via_idx[t]);
            assert(ef_full[via_idx[t]] == ef[via_idx[t]]);
        } else if t < lmid + frest {
            assert(via_first_full[t] == true);
            assert(via_idx_full[t] == ef.len() + (t - lmid));
            assert(ef_full[ef.len() + (t - lmid)] == t);
        } else {
            assert(via_first_full[t] == false);
        }
    }
    assert forall|t: int|
        0 <= t < pm.len() && !via_first_full[t] implies 0 <= #[trigger] via_idx_full[t]
        < es_full.len() && es_full[via_idx_full[t]] == t by {
        if t < lmid {
            assert(via_first_full[t] == via_first[t] && via_idx_full[t] == via_idx[t]);
            assert(es_full[via_idx[t]] == es[via_idx[t]]);
        } else if t < lmid + frest {
            assert(via_first_full[t] == true);
        } else {
            assert(via_first_full[t] == false);
            assert(via_idx_full[t] == es.len() + (t - lmid - frest));
            assert(es_full[es.len() + (t - lmid - frest)] == t);
        }
    }
}

/// Extending the embeddings preserves the recorded evidence: the first
/// element of an appended `first` remainder inherits the pending witness
/// of every trailing `second` element, and later appended elements are
/// never the first one to stand after such an element.
proof fn lemma_extend_evidence<T, F: Fn(&T, &T) -> bool>(
    cmp: F,
    first0: Seq<T>,
    pf: Seq<int>,
    ps: Seq<int>,
    m_mid: Seq<T>,
    m: Seq<T>,
    ef: Seq<int>,
    es: Seq<int>,
    ef_full: Seq<int>,
    es_full: Seq<int>,
)
    requires
        ef.len() <= pf.len() && pf.len() == first0.len(),
        es.len() <= ps.len(),
        ef.len() == pf.len() || es.len() == ps.len(),
        m.len() == m_mid.len() + (pf.len() - ef.len()) + (ps.len() - es.len()),
        forall|t: int| 0 <= t < m_mid.len() ==> #[trigger] m[t] == m_mid[t],
        ef_full.len() == pf.len(),
        es_full.len() == ps.len(),
        forall|a: int| 0 <= a < ef.len() ==> #[trigger] ef_full[a] == ef[a],
        forall|a: int|
            ef.len() <= a < ef_full.len() ==> #[trigger] ef_full[a] == m_mid.len() + (a
                - ef.len()),
        forall|a: int| 0 <= a < es.len() ==> #[trigger] es_full[a] == es[a],
        forall|a: int|
            es.len() <= a < es_full.len() ==> #[trigger] es_full[a] == m_mid.len() + (pf.len()
                - ef.len()) + (a - es.len()),
        forall|a: int| 0 <= a < ef.len() ==> 0 <= #[trigger] ef[a] < m_mid.len(),
        forall|a: int| 0 <= a < es.len() ==> 0 <= #[trigger] es[a] < m_mid.len(),
        forall|k: int, k2: int|
            0 <= k < es.len() && 0 <= k2 < ef.len() && #[trigger] ef[k2] > #[trigger] es[k] && (
            k2 == 0 || ef[k2 - 1] < es[k]) ==> call_ensures(
                cmp,
                (&first0[k2], &m_mid[es[k]]),
                false,
            ),
        forall|k: int|
            0 <= k < es.len() && (ef.len() == 0 || ef[ef.len() - 1] < #[trigger] es[k])
                && ef.len() < pf.len() ==> call_ensures(
                cmp,
                (&first0[ef.len() as int], &m_mid[es[k]]),
                false,
            ),
    ensures
        forall|k: int, k2: int|
            0 <= k < es_full.len() && 0 <= k2 < ef_full.len() && #[trigger] ef_full[k2]
                > #[trigger] es_full[k] && (k2 == 0 || ef_full[k2 - 1] < es_full[k])
                ==> call_ensures(cmp, (&first0[k2], &m[es_full[k]]), false),
{
    let fdone: int = ef.len() as int;
    let sdone: int = es.len() as int;
    let lmid: int = m_mid.len() as int;
    assert forall|k: int, k2: int|
        0 <= k < es_full.len() && 0 <= k2 < ef_full.len() && #[trigger] ef_full[k2]
            > #[trigger] es_full[k] && (k2 == 0 || ef_full[k2 - 1] < es_full[k]) implies
    call_ensures(cmp, (&first0[k2], &m[es_full[k]]), false) by {
        if k < sdone && k2 < fdone {
            assert(ef_full[k2] == ef[k2] && es_full[k] == es[k]);
            assert(m[es[k]] == m_mid[es[k]]);
            if k2 > 0 {
                assert(ef_full[k2 - 1] == ef[k2 - 1]);
            }
        } else if k < sdone && k2 == fdone {
            assert(es_full[k] == es[k]);
            assert(ef.len() == 0 || ef[ef.len() - 1] < es[k]) by {
                if ef.len() > 0 {
                    assert(ef_full[k2 - 1] == ef[k2 - 1]);
                }
            }
            assert(fdone < pf.len());
            assert(m[es[k]] == m_mid[es[k]]);
        } else if k < sdone {
            assert(ef_full[k2 - 1] == lmid + (k2 - 1 - fdone));
            assert(es_full[k] == es[k] && es[k] < lmid);
            assert(false);
        } else {
            assert(sdone < ps.len());
            assert(fdone == pf.len());
            assert(k2 < fdone);
            assert(ef_full[k2] == ef[k2] && ef[k2] < lmid);
            assert(es_full[k] >= lmid);
            assert(false);
        }
    }
}

/// The merged arrangement inherits every entry-wise bound of its two
/// parts: everything below both stays below it, it stays below
/// everything both are below, and it stays disjoint from everything both
/// are disjoint from.
proof fn lemma_transfer_bounds(
    pm: Seq<int>,
    pf: Seq<int>,
    ps: Seq<int>,
    ef_full: Seq<int>,
    es_full: Seq<int>,
    via_first_full: Seq<bool>,
    via_idx_full: Seq<int>,
)
    requires
        covers(pm, ef_full, es_full, via_first_full, via_idx_full),
        ef_full.len() == pf.len(),
        es_full.len() == ps.len(),
        forall|a: int| 0 <= a < ef_full.len() ==> pm[#[trigger] ef_full[a]] == pf[a],
        forall|a: int| 0 <= a < es_full.len() ==> pm[#[trigger] es_full[a]] == ps[a],
    ensures
        forall|q: Seq<int>|
            all_below(pf, q) && all_below(ps, q) ==> #[trigger] all_below(pm, q),
        forall|q: Seq<int>|
            all_below(q, pf) && all_below(q, ps) ==> #[trigger] all_below(q, pm),
        forall|q: Seq<int>|
            disjoint_entries(pf, q) && disjoint_entries(ps, q) ==> #[trigger] disjoint_entries(
                pm,
                q,
            ),
{
    assert forall|q: Seq<int>|
        all_below(pf, q) && all_below(ps, q) implies #[trigger] all_below(pm, q) by {
        assert forall|a: int, b: int|
            0 <= a < pm.len() && 0 <= b < q.len() implies #[trigger] pm[a] < #[trigger] q[b] by {
            let c = via_idx_full[a];
            if via_first_full[a] {
                assert(ef_full[c] == a && pm[a] == pf[c]);
            } else {
                assert(es_full[c] == a && pm[a] == ps[c]);
            }
        }
    }
    assert forall|q: Seq<int>|
        all_below(q, pf) && all_below(q, ps) implies #[trigger] all_below(q, pm) by {
        assert forall|a: int, b: int|
            0 <= a < q.len() && 0 <= b < pm.len() implies #[trigger] q[a] < #[trigger] pm[b] by {
            let c = via_idx_full[b];
            if via_first_full[b] {
                assert(ef_full[c] == b && pm[b] == pf[c]);
            } else {
                assert(es_full[c] == b && pm[b] == ps[c]);
            }
        }
    }
    assert forall|q: Seq<int>|
        disjoint_entries(pf, q) && disjoint_entries(ps, q) implies #[trigger] disjoint_entries(
        pm,
        q,
    ) by {
        assert forall|a: int, b: int|
            0 <= a < pm.len() && 0 <= b < q.len() implies #[trigger] pm[a] != #[trigger] q[b] by {
            let c = via_idx_full[a];
            if via_first_full[a] {
                assert(ef_full[c] == a && pm[a] == pf[c]);
            } else {
                assert(es_full[c] == a && pm[a] == ps[c]);
            }
        }
    }
}

/// Finishes a merge: extends the two embeddings and their inverse over
/// the appended remainder of whichever run was left, and assembles the
/// permutation, evidence and bound facts for the full merged run.
#[verifier::rlimit(100)]
proof fn lemma_finish_merge<T, F: Fn(&T, &T) -> bool>(
    cmp: F,
    src: Seq<T>,
    first0: Seq<T>,
    second0: Seq<T>,
    pf: Seq<int>,
    ps: Seq<int>,
    m_mid: Seq<T>,
    m: Seq<T>,
    pm_mid: Seq<int>,
    pm: Seq<int>,
    ef: Seq<int>,
    es: Seq<int>,
    via_first: Seq<bool>,
    via_idx: Seq<int>,
)
    requires
        source_matches(src, first0, pf),
        source_matches(src, second0, ps),
        distinct_seq(pf),
        distinct_seq(ps),
        disjoint_entries(pf, ps),
        ef.len() <= pf.len() && pf.len() == first0.len(),
        es.len() <= ps.len() && ps.len() == second0.len(),
        ef.len() == pf.len() || es.len() == ps.len(),
        m == m_mid + first0.skip(ef.len() as int) + second0.skip(es.len() as int),
        pm == pm_mid + pf.skip(ef.len() as int) + ps.skip(es.len() as int),
        pm_mid.len() == m_mid.len(),
        ef.len() + es.len() == pm_mid.len(),
        embeds(pm_mid, m_mid, ef, pf, first0),
        embeds(pm_mid, m_mid, es, ps, second0),
        covers(pm_mid, ef, es, via_first, via_idx),
        forall|k: int, k2: int|
            0 <= k < es.len() && 0 <= k2 < ef.len() && #[trigger] ef[k2] > #[trigger] es[k] && (
            k2 == 0 || ef[k2 - 1] < es[k]) ==> call_ensures(
                cmp,
                (&first0[k2], &m_mid[es[k]]),
                false,
            ),
        forall|k: int|
            0 <= k < es.len() && (ef.len() == 0 || ef[ef.len() - 1] < #[trigger] es[k])
                && ef.len() < pf.len() ==> call_ensures(
                cmp,
                (&first0[ef.len() as int], &m_mid[es[k]]),
                false,
            ),
    ensures
        pm.len() == m.len(),
        source_matches(src, m, pm),
        distinct_seq(pm),
        all_below(pf, ps) && inversions_evidenced(cmp, first0, pf) && inversions_evidenced(
            cmp,
            second0,
            ps,
        ) ==> inversions_evidenced(cmp, m, pm),
        forall|q: Seq<int>|
            all_below(pf, q) && all_below(ps, q) ==> #[trigger] all_below(pm, q),
        forall|q: Seq<int>|
            all_below(q, pf) && all_below(q, ps) ==> #[trigger] all_below(q, pm),
        forall|q: Seq<int>|
            disjoint_entries(pf, q) && disjoint_entries(ps, q) ==> #[trigger] disjoint_entries(
                pm,
                q,
            ),
{
    let fdone: int = ef.len() as int;
    let sdone: int = es.len() as int;
    let lmid: int = pm_mid.len() as int;
    let frest: int = pf.len() - fdone;
    let srest: int = ps.len() - sdone;
    let ef_full = ef + Seq::new(frest as nat, |i: int| lmid + i);
    let es_full = es + Seq::new(srest as nat, |i: int| lmid + frest + i);
    let via_first_full = via_first + Seq::new(frest as nat, |i: int| true) + Seq::new(
        srest as nat,
        |i: int| false,
    );
    let via_idx_full = via_idx + Seq::new(frest as nat, |i: int| fdone + i) + Seq::new(
        srest as nat,
        |i: int| sdone + i,
    );
    assert(pm.len() == lmid + frest + srest);
    assert(m.len() == lmid + frest + srest);
    assert(first0.skip(fdone).len() == frest && second0.skip(sdone).len() == srest);
    lemma_extend_embeds(pm_mid, m_mid, pm, m, ef, pf, first0, ef_full, lmid);
    lemma_extend_embeds(pm_mid, m_mid, pm, m, es, ps, second0, es_full, lmid + frest);
    lemma_extend_covers(
        pm_mid,
        pm,
        ef,
        es,
        ef_full,
        es_full,
        via_first,
        via_idx,
        via_first_full,
        via_idx_full,
        frest,
        srest,
    );
    lemma_extend_evidence(cmp, first0, pf, ps, m_mid, m, ef, es, ef_full, es_full);
    lemma_arrangement_from_embeddings(
        cmp,
        src,
        first0,
        second0,
        pf,
        ps,
        m,
        pm,
        ef_full,
        es_full,
        via_first_full,
        via_idx_full,
    );
    lemma_transfer_bounds(pm, pf, ps, ef_full, es_full, via_first_full, via_idx_full);
}

/// Among the positions of a strictly increasing sequence that exceed `t`,
/// there is a first one.
proof fn lemma_first_above(ef: Seq<int>, t: int, hit: int)
    requires
        0 <= hit < ef.len(),
        ef[hit] > t,
        forall|a: int, b: int| 0 <= a < b < ef.len() ==> #[trigger] ef[a] < #[trigger] ef[b],
        forall|a: int| 0 <= a < ef.len() ==> #[trigger] ef[a] != t,
    ensures
        exists|k2: int|
            0 <= k2 < ef.len() && #[trigger] ef[k2] > t && (k2 == 0 || ef[k2 - 1] < t)
                && ef[k2] <= ef[hit],
    decreases hit,
{
    if hit == 0 || ef[hit - 1] < t {
        assert(0 <= hit < ef.len() && ef[hit] > t && (hit == 0 || ef[hit - 1] < t) && ef[hit]
            <= ef[hit]);
    } else {
        assert(ef[hit - 1] > t);
        lemma_first_above(ef, t, hit - 1);
        let k2 = choose|k2: int|
            0 <= k2 < ef.len() && #[trigger] ef[k2] > t && (k2 == 0 || ef[k2 - 1] < t) && ef[k2]
                <= ef[hit - 1];
        assert(ef[k2] <= ef[hit]);
    }
}

/// Assembles the arrangement facts of a finished merge from its two
/// complete embeddings and their inverse: the merged arrangement is a
/// permutation of the sources, and — when the `first` run's sources all
/// stand before the `second` run's and both runs carry their own
/// evidence — every inversion of the merged run carries a recorded
/// `false` answer: its run's own evidence mapped through the embedding,
/// or, for a `second` element that overtook `first` elements, the first
/// `first` element standing after it.
#[verifier::rlimit(100)]
proof fn lemma_arrangement_from_embeddings<T, F: Fn(&T, &T) -> bool>(
    cmp: F,
    src: Seq<T>,
    first0: Seq<T>,
    second0: Seq<T>,
    pf: Seq<int>,
    ps: Seq<int>,
    m: Seq<T>,
    pm: Seq<int>,
    ef: Seq<int>,
    es: Seq<int>,
    via_first: Seq<bool>,
    via_idx: Seq<int>,
)
    requires
        source_matches(src, first0, pf),
        source_matches(src, second0, ps),
        distinct_seq(pf),
        distinct_seq(ps),
        disjoint_entries(pf, ps),
        ef.len() == pf.len() && pf.len() == first0.len(),
        es.len() == ps.len() && ps.len() == second0.len(),
        pm.len() == m.len(),
        ef.len() + es.len() == pm.len(),
        embeds(pm, m, ef, pf, first0),
        embeds(pm, m, es, ps, second0),
        covers(pm, ef, es, via_first, via_idx),
        forall|k: int, k2: int|
            0 <= k < es.len() && 0 <= k2 < ef.len() && #[trigger] ef[k2] > #[trigger] es[k] && (
            k2 == 0 || ef[k2 - 1] < es[k]) ==> call_ensures(
                cmp,
                (&first0[k2], &m[es[k]]),
                false,
            ),
    ensures
        source_matches(src, m, pm),
        distinct_seq(pm),
        all_below(pf, ps) && inversions_evidenced(cmp, first0, pf) && inversions_evidenced(
            cmp,
            second0,
            ps,
        ) ==> inversions_evidenced(cmp, m, pm),
{
    assert forall|i: int| 0 <= i < pm.len() implies 0 <= #[trigger] pm[i] < src.len() && m[i]
        == src[pm[i]] by {
        let a = via_idx[i];
        if via_first[i] {
            assert(ef[a] == i && pm[i] == pf[a] && m[i] == first0[a]);
        } else {
            assert(es[a] == i && pm[i] == ps[a] && m[i] == second0[a]);
        }
    }
    assert forall|i: int, j: int| 0 <= i < j < pm.len() implies #[trigger] pm[i]
        != #[trigger] pm[j] by {
        let a1 = via_idx[i];
        let a2 = via_idx[j];
        if via_first[i] && via_first[j] {
            assert(ef[a1] == i && ef[a2] == j);
            assert(pm[i] == pf[a1] && pm[j] == pf[a2]);
            if a1 < a2 {
                assert(pf[a1] != pf[a2]);
            } else if a2 < a1 {
                assert(pf[a2] != pf[a1]);
            }
        } else if via_first[i] && !via_first[j] {
            assert(pm[i] == pf[a1] && pm[j] == ps[a2]);
            assert(pf[a1] != ps[a2]);
        } else if !via_first[i] && via_first[j] {
            assert(pm[i] == ps[a1] && pm[j] == pf[a2]);
            assert(pf[a2] != ps[a1]);
        } else {
            assert(pm[i] == ps[a1] && pm[j] == ps[a2]);
            if a1 < a2 {
                assert(ps[a1] != ps[a2]);
            } else if a2 < a1 {
                assert(ps[a2] != ps[a1]);
            }
        }
    }
    if all_below(pf, ps) && inversions_evidenced(cmp, first0, pf) && inversions_evidenced(
        cmp,
        second0,
        ps,
    ) {
        assert forall|i: int, j: int|
            0 <= i < j < pm.len() && #[trigger] pm[i] > #[trigger] pm[j] implies exists|w: int|
            i < w <= j && call_ensures(cmp, (&m[w], &m[i]), false) by {
            let a1 = via_idx[i];
            let a2 = via_idx[j];
            if via_first[i] && via_first[j] {
                // both from `first`: map its own evidence through the
                // embedding
                assert(ef[a1] == i && ef[a2] == j);
                assert(a1 < a2) by {
                    if a2 < a1 {
                        assert(ef[a2] < ef[a1]);
                    }
                }
                assert(pf[a1] > pf[a2]);
                let mm = choose|mm: int|
                    a1 < mm <= a2 && call_ensures(cmp, (&first0[mm], &first0[a1]), false);
                assert(ef[a1] < ef[mm]);
                assert(mm == a2 || ef[mm] < ef[a2]);
                assert(m[ef[mm]] == first0[mm] && m[i] == first0[a1]);
                assert(i < ef[mm] <= j && call_ensures(cmp, (&m[ef[mm]], &m[i]), false));
            } else if via_first[i] && !via_first[j] {
                // `first` before `second` is never an inversion
                assert(pm[i] == pf[a1] && pm[j] == ps[a2]);
                assert(pm[i] < pm[j]);
                assert(false);
            } else if !via_first[i] && via_first[j] {
                // a `second` element overtook `first` elements: the first
                // `first` element standing after it is the witness
                assert(es[a1] == i && ef[a2] == j);
                assert forall|a: int| 0 <= a < ef.len() implies #[trigger] ef[a] != i by {
                    if ef[a] == i {
                        assert(pm[i] == pf[a] && pm[i] == ps[a1]);
                        assert(pf[a] != ps[a1]);
                    }
                }
                lemma_first_above(ef, i, a2);
                let k2 = choose|k2: int|
                    0 <= k2 < ef.len() && #[trigger] ef[k2] > i && (k2 == 0 || ef[k2 - 1] < i)
                        && ef[k2] <= ef[a2];
                assert(es[a1] == i);
                assert(call_ensures(cmp, (&first0[k2], &m[es[a1]]), false));
                assert(m[ef[k2]] == first0[k2]);
                assert(i < ef[k2] <= j && call_ensures(cmp, (&m[ef[k2]], &m[i]), false));
            } else {
                // both from `second`: map its own evidence through the
                // embedding
                assert(es[a1] == i && es[a2] == j);
                assert(a1 < a2) by {
                    if a2 < a1 {
                        assert(es[a2] < es[a1]);
                    }
                }
                assert(ps[a1] > ps[a2]);
                let mm = choose|mm: int|
                    a1 < mm <= a2 && call_ensures(cmp, (&second0[mm], &second0[a1]), false);
                assert(es[a1] < es[mm]);
                assert(mm == a2 || es[mm] < es[a2]);
                assert(m[es[mm]] == second0[mm] && m[i] == second0[a1]);
                assert(i < es[mm] <= j && call_ensures(cmp, (&m[es[mm]], &m[i]), false));
            }
        }
    }
}

/// One single-element run per element of `v`, in order; the ghost result
/// lists, for each run, the input position its one element came from.
fn split_into_runs<T: Copy>(v: &VecDeque<T>) -> (res: (VecDeque<VecDeque<T>>, Ghost<
    Seq<Seq<int>>,
>))
    ensures
        ({
            let q = res.0;
            let perms = res.1@;
            &&& q@.len() == v@.len()
            &&& perms.len() == v@.len()
            &&& (forall|k: int| 0 <= k < q@.len() ==> (#[trigger] q@[k])@.len() == 1)
            &&& (forall|k: int| 0 <= k < q@.len() ==> (#[trigger] q@[k])@[0] == v@[k])
            &&& runs_multiset(q@) == v@.to_multiset()
            &&& (forall|k: int| 0 <= k < perms.len() ==> #[trigger] perms[k] == seq![k])
        }),
{
    broadcast use vstd::multiset::group_multiset_axioms;

    let mut q: VecDeque<VecDeque<T>> = VecDeque::new();
    proof {
        vstd::seq_lib::to_multiset_len(v@.subrange(0, 0));
        vstd::multiset::lemma_multiset_empty_len(v@.subrange(0, 0).to_multiset());
    }
    let mut i: usize = 0;
    while i < v.len()
        invariant
            i <= v@.len(),
            q@.len() == i,
            forall|k: int| 0 <= k < i ==> (#[trigger] q@[k])@.len() == 1,
            forall|k: int| 0 <= k < i ==> (#[trigger] q@[k])@[0] == v@[k],
            runs_multiset(q@) == v@.subrange(0, i as int).to_multiset(),
        decreases v@.len() - i,
    {
        let ghost qprev = q@;
        let mut run: VecDeque<T> = VecDeque::new();
        run.push_back(v[i]);
        q.push_back(run);
        proof {
            assert(q@.drop_last() =~= qprev);
            assert(run@ =~= Seq::empty().push(v@[i as int]));
            vstd::seq_lib::to_multiset_build(Seq::<T>::empty(), v@[i as int]);
            vstd::seq_lib::to_multiset_len(Seq::<T>::empty());
            vstd::multiset::lemma_multiset_empty_len(Seq::<T>::empty().to_multiset());
            assert(Seq::<T>::empty().to_multiset() =~= Multiset::empty());
            assert(v@.subrange(0, i as int + 1) =~= v@.subrange(0, i as int).push(
                v@[i as int],
            ));
            vstd::seq_lib::to_multiset_build(v@.subrange(0, i as int), v@[i as int]);
            assert(runs_multiset(q@) =~= v@.subrange(0, i as int + 1).to_multiset());
        }
        i += 1;
    }
    proof {
        assert(v@.subrange(0, v@.len() as int) =~= v@);
    }
    (q, Ghost(Seq::new(v@.len(), |k: int| seq![k])))
}

/// Iterative, stable merge sort: returns the elements of `v` rearranged
/// so that each element may stand before its successor according to
/// `cmp` (`cmp(a, b)` answers whether `a` may be placed before `b`), or
/// `None` for an empty input. Runs are merged level by level, the
/// unpaired last run of a level carried into the next level, so elements
/// the comparison treats as equal keep their original order: the
/// returned arrangement moves an element ahead of an earlier one only on
/// the comparison's own recorded verdict (`stable_arrangement`).
pub fn merge_sort<T: Copy, F: Fn(&T, &T) -> bool>(v: &VecDeque<T>, cmp: F) -> (r: Option<
    VecDeque<T>,
>)
    requires
        forall|x: T, y: T| call_requires(cmp, (&x, &y)),
    ensures
        v@.len() == 0 <==> r is None,
        r matches Some(s) ==> {
            &&& s@.to_multiset() == v@.to_multiset()
            &&& s@.len() == v@.len()
            &&& ordered_by(cmp, s@)
            &&& exists|p: Seq<int>| stable_arrangement(cmp, v@, s@, p)
        },
{
    broadcast use vstd::multiset::group_multiset_axioms;

    let (q_init, perms_init) = split_into_runs(v);
    let mut q: VecDeque<VecDeque<T>> = q_init;
    let ghost mut perms = perms_init@;
    proof {
        assert forall|k: int| 0 <= k < q@.len() implies source_matches(
            v@,
            (#[trigger] q@[k])@,
            perms[k],
        ) && distinct_seq(perms[k]) && inversions_evidenced(cmp, q@[k]@, perms[k]) by {
            assert(perms[k] == seq![k]);
            assert(perms[k].len() == 1 && perms[k][0] == k);
            assert(q@[k]@.len() == 1 && q@[k]@[0] == v@[k]);
        }
        assert forall|k1: int, k2: int| 0 <= k1 < k2 < perms.len() implies all_below(
            #[trigger] perms[k1],
            #[trigger] perms[k2],
        ) by {
            assert(perms[k1] == seq![k1] && perms[k2] == seq![k2]);
        }
    }
    if q.len() == 0 {
        return None;
    }
    while q.len() > 1
        invariant
            forall|x: T, y: T| call_requires(cmp, (&x, &y)),
            q@.len() >= 1,
            runs_multiset(q@) == v@.to_multiset(),
            forall|k: int| 0 <= k < q@.len() ==> ordered_by(cmp, (#[trigger] q@[k])@),
            perms.len() == q@.len(),
            forall|k: int|
                0 <= k < q@.len() ==> source_matches(v@, (#[trigger] q@[k])@, perms[k]),
            forall|k: int| 0 <= k < perms.len() ==> distinct_seq(#[trigger] perms[k]),
            forall|k: int|
                0 <= k < q@.len() ==> inversions_evidenced(cmp, (#[trigger] q@[k])@, perms[k]),
            forall|k1: int, k2: int|
                0 <= k1 < k2 < perms.len() ==> all_below(
                    #[trigger] perms[k1],
                    #[trigger] perms[k2],
                ),
        decreases q@.len(),
    {
        let ghost entry_len = q@.len();
        let mut next_q: VecDeque<VecDeque<T>> = VecDeque::new();
        let ghost mut next_perms = Seq::<Seq<int>>::empty();
        while q.len() >= 2
            invariant
                forall|x: T, y: T| call_requires(cmp, (&x, &y)),
                q@.len() + 2 * next_q@.len() == entry_len,
                runs_multiset(next_q@).add(runs_multiset(q@)) == v@.to_multiset(),
                forall|k: int| 0 <= k < q@.len() ==> ordered_by(cmp, (#[trigger] q@[k])@),
                forall|k: int|
                    0 <= k < next_q@.len() ==> ordered_by(cmp, (#[trigger] next_q@[k])@),
                perms.len() == q@.len(),
                next_perms.len() == next_q@.len(),
                forall|k: int|
                    0 <= k < q@.len() ==> source_matches(v@, (#[trigger] q@[k])@, perms[k]),
                forall|k: int| 0 <= k < perms.len() ==> distinct_seq(#[trigger] perms[k]),
                forall|k: int|
                    0 <= k < q@.len() ==> inversions_evidenced(
                        cmp,
                        (#[trigger] q@[k])@,
                        perms[k],
                    ),
                forall|k1: int, k2: int|
                    0 <= k1 < k2 < perms.len() ==> all_below(
                        #[trigger] perms[k1],
                        #[trigger] perms[k2],
                    ),
                forall|k: int|
                    0 <= k < next_q@.len() ==> source_matches(
                        v@,
                        (#[trigger] next_q@[k])@,
                        next_perms[k],
                    ),
                forall|k: int|
                    0 <= k < next_perms.len() ==> distinct_seq(#[trigger] next_perms[k]),
                forall|k: int|
                    0 <= k < next_q@.len() ==> inversions_evidenced(
                        cmp,
                        (#[trigger] next_q@[k])@,
                        next_perms[k],
                    ),
                forall|k1: int, k2: int|
                    0 <= k1 < k2 < next_perms.len() ==> all_below(
                        #[trigger] next_perms[k1],
                        #[trigger] next_perms[k2],
                    ),
                forall|k1: int, k2: int|
                    0 <= k1 < next_perms.len() && 0 <= k2 < perms.len() ==> all_below(
                        #[trigger] next_perms[k1],
                        #[trigger] perms[k2],
                    ),
            decreases q@.len(),
        {
            let ghost q0 = q@;
            let ghost perms0 = perms;
            let first = q.pop_front().unwrap();
            let second = q.pop_front().unwrap();
            proof {
                perms = perms0.skip(2);
                assert(first@ == q0[0]@ && second@ == q0[1]@);
                assert forall|a: int, b: int|
                    0 <= a < perms0[0].len() && 0 <= b < perms0[1].len() implies #[trigger]
                perms0[0][a] != #[trigger] perms0[1][b] by {
                    assert(all_below(perms0[0], perms0[1]));
                }
            }
            let (merged, pm_g) = merge_runs(
                &cmp,
                first,
                second,
                Ghost(v@),
                Ghost(perms0[0]),
                Ghost(perms0[1]),
            );
            let ghost pm = pm_g@;
            let ghost nq0 = next_q@;
            let ghost nperms0 = next_perms;
            next_q.push_back(merged);
            proof {
                next_perms = nperms0.push(pm);
                lemma_runs_multiset_drop_first(q0);
                lemma_runs_multiset_drop_first(q0.drop_first());
                assert(q0.drop_first().drop_first() =~= q@);
                assert(next_q@.drop_last() =~= nq0);
                assert(runs_multiset(next_q@).add(runs_multiset(q@)) =~= v@.to_multiset());
                assert(all_below(perms0[0], perms0[1]));
                assert(inversions_evidenced(cmp, merged@, pm));
                // entries of the merged arrangement come from the two
                // merged runs, so every ordering against other runs is kept
                assert forall|k1: int, k2: int|
                    0 <= k1 < next_perms.len() && 0 <= k2 < perms.len() implies all_below(
                    #[trigger] next_perms[k1],
                    #[trigger] perms[k2],
                ) by {
                    if k1 == next_perms.len() - 1 {
                        assert(next_perms[k1] == pm);
                        assert(perms[k2] == perms0[k2 + 2]);
                        assert(all_below(perms0[0], perms0[k2 + 2]));
                        assert(all_below(perms0[1], perms0[k2 + 2]));
                        assert(all_below(pm, perms0[k2 + 2]));
                    } else {
                        assert(next_perms[k1] == nperms0[k1]);
                        assert(perms[k2] == perms0[k2 + 2]);
                        assert(all_below(nperms0[k1], perms0[k2 + 2]));
                    }
                }
                assert forall|k1: int, k2: int|
                    0 <= k1 < k2 < next_perms.len() implies all_below(
                    #[trigger] next_perms[k1],
                    #[trigger] next_perms[k2],
                ) by {
                    if k2 == next_perms.len() - 1 {
                        assert(next_perms[k1] == nperms0[k1]);
                        assert(all_below(nperms0[k1], perms0[0]));
                        assert(all_below(nperms0[k1], perms0[1]));
                        assert(all_below(nperms0[k1], pm));
                    } else {
                        assert(next_perms[k1] == nperms0[k1]);
                        assert(next_perms[k2] == nperms0[k2]);
                    }
                }
            }
        }
        if q.len() == 1 {
            let ghost q0 = q@;
            let ghost perms0 = perms;
            let last_run = q.pop_front().unwrap();
            let ghost nq0 = next_q@;
            let ghost nperms0 = next_perms;
            next_q.push_back(last_run);
            proof {
                perms = perms0.skip(1);
                next_perms = nperms0.push(perms0[0]);
                lemma_runs_multiset_drop_first(q0);
                assert(q0.drop_first() =~= q@);
                assert(next_q@.drop_last() =~= nq0);
                assert(runs_multiset(next_q@).add(runs_multiset(q@)) =~= v@.to_multiset());
            }
        }
        proof {
            assert(q@.len() == 0);
            assert(runs_multiset(next_q@) =~= v@.to_multiset());
        }
        q = next_q;
        proof {
            perms = next_perms;
        }
    }
    let ghost qf = q@;
    let ghost pfinal = perms[0];
    let result = q.pop_front().unwrap();
    proof {
        lemma_runs_multiset_drop_first(qf);
        assert(qf.drop_first() =~= Seq::empty());
        assert(result@.to_multiset() =~= v@.to_multiset());
        vstd::seq_lib::to_multiset_len(result@);
        vstd::seq_lib::to_multiset_len(v@);
        assert(source_matches(v@, result@, pfinal));
        assert(stable_arrangement(cmp, v@, result@, pfinal));
    }
    Some(result)
}

/// Iterative merge sort without the stability promise: merged runs are
/// pushed to the back of the single working queue, so elements the
/// comparison treats as equal may lose their original order. The result
/// still holds exactly the input elements, rearranged by some
/// permutation of positions, in an order the comparison approves.
pub fn merge_sort_unstable<T: Copy, F: Fn(&T, &T) -> bool>(v: &VecDeque<T>, cmp: F) -> (r:
    Option<VecDeque<T>>)
    requires
        forall|x: T, y: T| call_requires(cmp, (&x, &y)),
    ensures
        v@.len() == 0 <==> r is None,
        r matches Some(s) ==> {
            &&& s@.to_multiset() == v@.to_multiset()
            &&& s@.len() == v@.len()
            &&& ordered_by(cmp, s@)
            &&& exists|p: Seq<int>|
                source_matches(v@, s@, p) && distinct_seq(p)
        },
{
    broadcast use vstd::multiset::group_multiset_axioms;

    let (q_init, perms_init) = split_into_runs(v);
    let mut q: VecDeque<VecDeque<T>> = q_init;
    let ghost mut perms = perms_init@;
    proof {
        assert forall|k: int| 0 <= k < q@.len() implies source_matches(
            v@,
            (#[trigger] q@[k])@,
            perms[k],
        ) && distinct_seq(perms[k]) by {
            assert(perms[k] == seq![k]);
            assert(perms[k].len() == 1 && perms[k][0] == k);
            assert(q@[k]@.len() == 1 && q@[k]@[0] == v@[k]);
        }
        assert forall|k1: int, k2: int|
            0 <= k1 < perms.len() && 0 <= k2 < perms.len() && k1 != k2 implies disjoint_entries(
            #[trigger] perms[k1],
            #[trigger] perms[k2],
        ) by {
            assert(perms[k1] == seq![k1] && perms[k2] == seq![k2]);
        }
    }
    if q.len() == 0 {
        return None;
    }
    while q.len() > 1
        invariant
            forall|x: T, y: T| call_requires(cmp, (&x, &y)),
            q@.len() >= 1,
            runs_multiset(q@) == v@.to_multiset(),
            forall|k: int| 0 <= k < q@.len() ==> ordered_by(cmp, (#[trigger] q@[k])@),
            perms.len() == q@.len(),
            forall|k: int|
                0 <= k < q@.len() ==> source_matches(v@, (#[trigger] q@[k])@, perms[k]),
            forall|k: int| 0 <= k < perms.len() ==> distinct_seq(#[trigger] perms[k]),
            forall|k1: int, k2: int|
                0 <= k1 < perms.len() && 0 <= k2 < perms.len() && k1 != k2 ==> disjoint_entries(
                    #[trigger] perms[k1],
                    #[trigger] perms[k2],
                ),
        decreases q@.len(),
    {
        let ghost q0 = q@;
        let ghost perms0 = perms;
        let first = q.pop_front().unwrap();
        let second = q.pop_front().unwrap();
        proof {
            perms = perms0.skip(2);
            assert(first@ == q0[0]@ && second@ == q0[1]@);
        }
        let (merged, pm_g) = merge_runs(
            &cmp,
            first,
            second,
            Ghost(v@),
            Ghost(perms0[0]),
            Ghost(perms0[1]),
        );
        let ghost pm = pm_g@;
        let ghost qmid = q@;
        let ghost pmid = perms;
        q.push_back(merged);
        proof {
            perms = pmid.push(pm);
            lemma_runs_multiset_drop_first(q0);
            lemma_runs_multiset_drop_first(q0.drop_first());
            assert(q0.drop_first().drop_first() =~= qmid);
            assert(q@.drop_last() =~= qmid);
            assert(runs_multiset(q@) =~= v@.to_multiset());
            // the merged arrangement holds exactly the two merged runs'
            // positions, so it stays disjoint from every other run
            assert forall|k1: int, k2: int|
                0 <= k1 < perms.len() && 0 <= k2 < perms.len() && k1 != k2 implies
            disjoint_entries(#[trigger] perms[k1], #[trigger] perms[k2]) by {
                let last: int = perms.len() - 1;
                if k1 < last && k2 < last {
                    assert(perms[k1] == perms0[k1 + 2] && perms[k2] == perms0[k2 + 2]);
                    assert(disjoint_entries(perms0[k1 + 2], perms0[k2 + 2]));
                } else {
                    let other: int = if k1 == last {
                        k2
                    } else {
                        k1
                    };
                    assert(perms[other] == perms0[other + 2]);
                    assert(perms[last] == pm);
                    assert(disjoint_entries(perms0[0], perms0[other + 2]));
                    assert(disjoint_entries(perms0[1], perms0[other + 2]));
                    assert(disjoint_entries(pm, perms0[other + 2]));
                    assert forall|a: int, b: int|
                        0 <= a < perms[other].len() && 0 <= b < pm.len() implies #[trigger]
                    perms[other][a] != #[trigger] pm[b] by {
                        assert(pm[b] != perms[other][a]);
                    }
                }
            }
        }
    }
    let ghost qf = q@;
    let ghost pfinal = perms[0];
    let result = q.pop_front().unwrap();
    proof {
        lemma_runs_multiset_drop_first(qf);
        assert(qf.drop_first() =~= Seq::empty());
        assert(result@.to_multiset() =~= v@.to_multiset());
        vstd::seq_lib::to_multiset_len(result@);
        vstd::seq_lib::to_multiset_len(v@);
        assert(source_matches(v@, result@, pfinal) && distinct_seq(pfinal));
    }
    Some(result)
}

} // verus!
