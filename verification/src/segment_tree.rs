//! An iterative range-aggregation structure: a pyramid of levels, level 0
//! being the raw input sequence and each higher level holding the pairwise
//! combination of the level below, under a user-supplied associative
//! combining operation. Supports point update and arbitrary-range fold
//! queries.

use vstd::prelude::*;
use vstd::arithmetic::power2::pow2;

verus! {

/// A binary, associative combining operation on values of type `T`.
///
/// The structure is polymorphic over any capability providing a pure,
/// associative binary operation; this trait is that capability. An
/// implementation supplies the mathematical meaning of the operation
/// (`combine_spec`), a proof that it is associative, an executable
/// `combine` that computes exactly `combine_spec`, and an executable
/// equality test on values (used by the update propagation's early exit).
pub trait Combiner<T>: Sized {
    /// The mathematical meaning of the combining operation.
    spec fn combine_spec(a: T, b: T) -> T;

    /// The operation is associative.
    proof fn lemma_associative(a: T, b: T, c: T)
        ensures
            Self::combine_spec(Self::combine_spec(a, b), c) == Self::combine_spec(
                a,
                Self::combine_spec(b, c),
            ),
    ;

    /// Combines two values, returning exactly what `combine_spec` describes.
    fn combine(&self, a: T, b: T) -> (r: T)
        ensures
            r == Self::combine_spec(a, b),
    ;

    /// Decides equality of two values.
    fn values_equal(&self, a: T, b: T) -> (r: bool)
        ensures
            r == (a == b),
    ;
}

/// The maximum of two `i64` values, as a `Combiner`.
pub struct MaxCombiner;

impl Combiner<i64> for MaxCombiner {
    open spec fn combine_spec(a: i64, b: i64) -> i64 {
        if a >= b {
            a
        } else {
            b
        }
    }

    proof fn lemma_associative(a: i64, b: i64, c: i64) {
    }

    fn combine(&self, a: i64, b: i64) -> (r: i64) {
        if a >= b {
            a
        } else {
            b
        }
    }

    fn values_equal(&self, a: i64, b: i64) -> (r: bool) {
        a == b
    }
}

/// The minimum of two `i64` values, as a `Combiner`.
pub struct MinCombiner;

impl Combiner<i64> for MinCombiner {
    open spec fn combine_spec(a: i64, b: i64) -> i64 {
        if a <= b {
            a
        } else {
            b
        }
    }

    proof fn lemma_associative(a: i64, b: i64, c: i64) {
    }

    fn combine(&self, a: i64, b: i64) -> (r: i64) {
        if a <= b {
            a
        } else {
            b
        }
    }

    fn values_equal(&self, a: i64, b: i64) -> (r: bool) {
        a == b
    }
}

/// The range-aggregation structure. `cells[0]` is the input sequence;
/// `cells[i]` for `i > 0` pairs up the cells of `cells[i - 1]` under the
/// combining operation, an unpaired last cell being carried forward
/// unchanged; the top level has exactly one cell. An input of length 0
/// produces no levels at all, and no operation is permitted on such a
/// structure.
pub struct SegmentTree<T, F> {
    cells: Vec<Vec<T>>,
    cal: F,
}

impl<T: Copy, F: Combiner<T>> View for SegmentTree<T, F> {
    type V = Seq<T>;

    /// The observable contents: the raw input sequence (level 0).
    closed spec fn view(&self) -> Seq<T> {
        if self.cells@.len() == 0 {
            Seq::empty()
        } else {
            self.cells@[0]@
        }
    }
}

impl<T: Copy, F: Combiner<T>> SegmentTree<T, F> {
    /// The left-to-right fold of a non-empty sequence under the combining
    /// operation: `((s[0] op s[1]) op s[2]) op ...`.
    pub open spec fn combine_seq(s: Seq<T>) -> T
        recommends
            s.len() >= 1,
        decreases s.len(),
    {
        if s.len() <= 1 {
            s[0]
        } else {
            F::combine_spec(Self::combine_seq(s.drop_last()), s.last())
        }
    }

    /// The level that stands above `s` in the pyramid: consecutive pairs
    /// combined, an unpaired last cell carried forward unchanged.
    pub open spec fn level_above(s: Seq<T>) -> Seq<T> {
        Seq::new(
            (s.len() + 1) / 2,
            |j: int|
                if 2 * j + 1 < s.len() {
                    F::combine_spec(s[2 * j], s[2 * j + 1])
                } else {
                    s[2 * j]
                },
        )
    }

    /// All levels of the pyramid, as sequences.
    pub closed spec fn spec_levels(self) -> Seq<Seq<T>> {
        self.cells@.map_values(|v: Vec<T>| v@)
    }

    /// Structural well-formedness: every level above the first is the
    /// pairwise combination of the one below, every level but the top has
    /// at least two cells, and the top level (if the structure is
    /// non-empty) has exactly one.
    pub closed spec fn wf(self) -> bool {
        let ls = self.cells@;
        &&& (forall|i: int| 0 <= i < ls.len() - 1 ==> (#[trigger] ls[i]@).len() > 1)
        &&& (ls.len() > 0 ==> ls[ls.len() - 1]@.len() == 1)
        &&& (forall|i: int|
            1 <= i < ls.len() ==> #[trigger] ls[i]@ == Self::level_above(#[trigger] ls[i - 1]@))
    }

    /// Builds the level that stands above `prev`.
    fn build_level(cal: &F, prev: &Vec<T>) -> (next: Vec<T>)
        ensures
            next@ == Self::level_above(prev@),
    {
        let mut next: Vec<T> = Vec::new();
        let pairs: usize = prev.len() / 2;
        let mut j: usize = 0;
        while j < pairs
            invariant
                pairs == prev@.len() / 2,
                2 * pairs <= prev@.len() <= usize::MAX,
                j <= pairs,
                next@.len() == j,
                forall|k: int| 0 <= k < j ==> (#[trigger] next@[k]) == Self::level_above(prev@)[k],
            decreases pairs - j,
        {
            let a = prev[2 * j];
            let b = prev[2 * j + 1];
            next.push(cal.combine(a, b));
            j += 1;
        }
        if prev.len() % 2 == 1 {
            let a = prev[prev.len() - 1];
            next.push(a);
        }
        proof {
            assert(next@ =~= Self::level_above(prev@));
        }
        next
    }

    /// Builds the full pyramid bottom-up from the given input sequence and
    /// combining operation. For an input of length 0 the structure holds no
    /// levels; for length 1 it holds exactly one level equal to the input.
    pub fn new(init: Vec<T>, cal: F) -> (st: SegmentTree<T, F>)
        ensures
            st.wf(),
            st@ == init@,
    {
        let mut cells: Vec<Vec<T>> = Vec::new();
        if init.len() == 0 {
            return SegmentTree { cells, cal };
        }
        let ghost init_view = init@;
        cells.push(init);
        while cells[cells.len() - 1].len() > 1
            invariant
                cells@.len() >= 1,
                cells@[0]@ == init_view,
                cells@[cells@.len() - 1]@.len() >= 1,
                forall|i: int|
                    0 <= i < cells@.len() - 1 ==> (#[trigger] cells@[i]@).len() > 1,
                forall|i: int|
                    1 <= i < cells@.len() ==> #[trigger] cells@[i]@ == Self::level_above(
                        #[trigger] cells@[i - 1]@,
                    ),
            decreases cells@[cells@.len() - 1]@.len(),
        {
            let last_idx: usize = cells.len() - 1;
            let next = Self::build_level(&cal, &cells[last_idx]);
            cells.push(next);
        }
        SegmentTree { cells, cal }
    }

    /// A point change at index `p` of a level changes at most the cell
    /// `p / 2` of the level above it.
    proof fn lemma_level_above_agrees(s: Seq<T>, t: Seq<T>, p: int)
        requires
            s.len() == t.len(),
            0 <= p < s.len(),
            forall|j: int| 0 <= j < s.len() && j != p ==> s[j] == t[j],
        ensures
            Self::level_above(s).len() == Self::level_above(t).len(),
            forall|q: int|
                0 <= q < Self::level_above(s).len() && q != p / 2 ==> Self::level_above(s)[q]
                    == Self::level_above(t)[q],
    {
        assert forall|q: int|
            0 <= q < Self::level_above(s).len() && q != p / 2 implies Self::level_above(s)[q]
            == Self::level_above(t)[q] by {
            assert(2 * q != p && 2 * q + 1 != p);
        }
    }

    /// Sets `levels[0][pos]` to `v`, then walks upward recomputing the one
    /// ancestor cell affected at each level, with the same carry-forward
    /// rule as construction. Propagation stops early as soon as a
    /// recomputed cell is unchanged from its previous value; the levels
    /// above are then provably unaffected.
    #[verifier::rlimit(100)]
    pub fn update(&mut self, pos: usize, v: T)
        requires
            old(self).wf(),
            pos < old(self)@.len(),
        ensures
            final(self).wf(),
            final(self)@ == old(self)@.update(pos as int, v),
    {
        let ghost oc = old(self).cells@;
        let ghost leaves = old(self)@.update(pos as int, v);
        self.cells[0][pos] = v;
        let mut i: usize = 1;
        let mut bp: usize = pos;
        while i < self.cells.len()
            invariant_except_break
                old(self).wf(),
                oc == old(self).cells@,
                leaves == old(self)@.update(pos as int, v),
                0 <= pos < oc[0]@.len(),
                1 <= i <= oc.len(),
                self.cells@.len() == oc.len(),
                self.cells@[0]@ == leaves,
                forall|k: int|
                    0 <= k < oc.len() ==> (#[trigger] self.cells@[k]@).len() == oc[k]@.len(),
                forall|k: int|
                    1 <= k < i ==> #[trigger] self.cells@[k]@ == Self::level_above(
                        #[trigger] self.cells@[k - 1]@,
                    ),
                forall|k: int| i <= k < oc.len() ==> (#[trigger] self.cells@[k]@) == oc[k]@,
                bp < oc[i - 1]@.len(),
                forall|j: int|
                    0 <= j < oc[i - 1]@.len() && j != bp ==> (#[trigger] self.cells@[i - 1]@[j])
                        == oc[i - 1]@[j],
            ensures
                self.cells@.len() == oc.len(),
                self.cells@[0]@ == leaves,
                forall|k: int|
                    0 <= k < oc.len() ==> (#[trigger] self.cells@[k]@).len() == oc[k]@.len(),
                forall|k: int|
                    1 <= k < oc.len() ==> #[trigger] self.cells@[k]@ == Self::level_above(
                        #[trigger] self.cells@[k - 1]@,
                    ),
            decreases oc.len() - i,
        {
            let npos: usize = bp / 2;
            proof {
                assert(oc[i as int]@ == Self::level_above(oc[i - 1]@));
                assert(oc[i as int]@.len() == (oc[i - 1]@.len() + 1) / 2);
                assert(npos < oc[i as int]@.len());
                assert(2 * npos <= bp);
                assert(bp < oc[i - 1]@.len());
                Self::lemma_level_above_agrees(self.cells@[i - 1]@, oc[i - 1]@, bp as int);
            }
            let prev_len: usize = self.cells[i - 1].len();
            let left = self.cells[i - 1][2 * npos];
            let newval = if 2 * npos + 1 >= prev_len {
                left
            } else {
                let right = self.cells[i - 1][2 * npos + 1];
                self.cal.combine(left, right)
            };
            proof {
                assert(newval == Self::level_above(self.cells@[i - 1]@)[npos as int]);
            }
            let before = self.cells[i][npos];
            self.cells[i][npos] = newval;
            if self.cal.values_equal(newval, before) {
                proof {
                    assert(self.cells@[i as int]@ =~= oc[i as int]@);
                    assert forall|k: int|
                        1 <= k < oc.len() implies (#[trigger] self.cells@[k]@)
                        == Self::level_above(self.cells@[k - 1]@) by {
                        if k > i {
                            assert(self.cells@[k]@ == oc[k]@);
                            assert(self.cells@[k - 1]@ == oc[k - 1]@);
                            assert(oc[k]@ == Self::level_above(oc[k - 1]@));
                        }
                    }
                }
                break;
            }
            bp = npos;
            i += 1;
        }
        proof {
            assert(self.wf());
        }
    }

    /// The first original index covered by cell `(row, col)`.
    pub open spec fn cell_lo(self, row: int, col: int) -> int {
        pow2(row as nat) * col
    }

    /// The last original index covered by cell `(row, col)`.
    pub open spec fn cell_hi(self, row: int, col: int) -> int {
        let bound = pow2(row as nat) * (col + 1);
        (if self@.len() <= bound {
            self@.len() as int
        } else {
            bound
        }) - 1
    }

    /// The length of level `row` is the ceiling of `N / 2^row`.
    proof fn lemma_level_len(self, row: int)
        requires
            self.wf(),
            0 <= row < self.cells@.len(),
        ensures
            pow2(row as nat) >= 1,
            pow2(row as nat) * (self.cells@[row]@.len() - 1) < self@.len(),
            self@.len() <= pow2(row as nat) * self.cells@[row]@.len(),
        decreases row,
    {
        vstd::arithmetic::power2::lemma_pow2_pos(row as nat);
        if row == 0 {
            assert(pow2(0) == 1) by {
                vstd::arithmetic::power2::lemma2_to64();
            }
        } else {
            self.lemma_level_len(row - 1);
            vstd::arithmetic::power2::lemma_pow2_unfold(row as nat);
            let p = pow2((row - 1) as nat) as int;
            let lp = self.cells@[row - 1]@.len() as int;
            let l = self.cells@[row]@.len() as int;
            let n = self@.len() as int;
            assert(self.cells@[row]@ == Self::level_above(self.cells@[row - 1]@));
            assert(l == (lp + 1) / 2);
            assert((2 * p) * (l - 1) <= p * (lp - 1)) by (nonlinear_arith)
                requires
                    2 * (l - 1) <= lp - 1,
                    p >= 1,
            ;
            assert(n <= (2 * p) * l) by (nonlinear_arith)
                requires
                    n <= p * lp,
                    lp <= 2 * l,
                    p >= 1,
            ;
        }
    }

    /// No level sits higher than `2^row <= 2 * N` allows.
    proof fn lemma_row_pow_bound(self, row: int)
        requires
            self.wf(),
            0 <= row < self.cells@.len(),
        ensures
            pow2(row as nat) <= 2 * self@.len(),
    {
        let n = self@.len() as int;
        if row == 0 {
            assert(pow2(0) == 1) by {
                vstd::arithmetic::power2::lemma2_to64();
            }
            assert(self.cells@[0]@.len() >= 1);
        } else if self.cells@[row]@.len() >= 2 {
            self.lemma_level_len(row);
            let p = pow2(row as nat) as int;
            let l = self.cells@[row]@.len() as int;
            assert(p <= p * (l - 1)) by (nonlinear_arith)
                requires
                    p >= 1,
                    l >= 2,
            ;
        } else {
            self.lemma_level_len(row - 1);
            vstd::arithmetic::power2::lemma_pow2_unfold(row as nat);
            let p = pow2((row - 1) as nat) as int;
            let lp = self.cells@[row - 1]@.len() as int;
            assert(lp >= 2);
            assert(p <= p * (lp - 1)) by (nonlinear_arith)
                requires
                    p >= 1,
                    lp >= 2,
            ;
        }
    }

    /// The fold of a concatenation is the combination of the folds: the
    /// shape of associativity that the range decomposition relies on.
    proof fn lemma_combine_seq_concat(s: Seq<T>, t: Seq<T>)
        requires
            s.len() >= 1,
            t.len() >= 1,
        ensures
            Self::combine_seq(s + t) == F::combine_spec(
                Self::combine_seq(s),
                Self::combine_seq(t),
            ),
        decreases t.len(),
    {
        if t.len() == 1 {
            assert((s + t).drop_last() =~= s);
            assert((s + t).last() == t[0]);
        } else {
            Self::lemma_combine_seq_concat(s, t.drop_last());
            F::lemma_associative(
                Self::combine_seq(s),
                Self::combine_seq(t.drop_last()),
                t.last(),
            );
            assert((s + t).drop_last() =~= s + t.drop_last());
            assert((s + t).last() == t.last());
        }
    }

    /// Each cell stores exactly the fold of the original indices it covers.
    proof fn lemma_cell_value(self, row: int, col: int)
        requires
            self.wf(),
            0 <= row < self.cells@.len(),
            0 <= col < self.cells@[row]@.len(),
        ensures
            0 <= self.cell_lo(row, col) <= self.cell_hi(row, col) < self@.len(),
            self.cells@[row]@[col] == Self::combine_seq(
                self@.subrange(self.cell_lo(row, col), self.cell_hi(row, col) + 1),
            ),
        decreases row,
    {
        let n = self@.len() as int;
        self.lemma_level_len(row);
        if row == 0 {
            assert(pow2(0) == 1) by {
                vstd::arithmetic::power2::lemma2_to64();
            }
            assert(self.cell_lo(0, col) == col);
            assert(self.cell_hi(0, col) == col);
            let sub = self@.subrange(col, col + 1);
            assert(sub.len() == 1 && sub[0] == self@[col]);
        } else {
            let p = pow2((row - 1) as nat) as int;
            let p2 = pow2(row as nat) as int;
            vstd::arithmetic::power2::lemma_pow2_unfold(row as nat);
            vstd::arithmetic::power2::lemma_pow2_pos((row - 1) as nat);
            assert(p2 == 2 * p);
            let lp = self.cells@[row - 1]@.len() as int;
            let l = self.cells@[row]@.len() as int;
            assert(self.cells@[row]@ == Self::level_above(self.cells@[row - 1]@));
            assert(l == (lp + 1) / 2);
            let lc = 2 * col;
            assert(lc < lp);
            self.lemma_cell_value(row - 1, lc);
            self.lemma_level_len(row - 1);
            assert(self.cell_lo(row - 1, lc) == self.cell_lo(row, col)) by (nonlinear_arith)
                requires
                    p2 == 2 * p,
                    self.cell_lo(row - 1, lc) == p * lc,
                    self.cell_lo(row, col) == p2 * col,
                    lc == 2 * col,
            ;
            let lo = self.cell_lo(row, col);
            let hi = self.cell_hi(row, col);
            if lc + 1 < lp {
                // both children exist; their covered ranges are adjacent
                self.lemma_cell_value(row - 1, lc + 1);
                assert(p * (lc + 1) <= p * (lp - 1)) by (nonlinear_arith)
                    requires
                        p >= 1,
                        lc + 1 <= lp - 1,
                ;
                assert(p * (lc + 1) < n);
                assert(self.cell_hi(row - 1, lc) == p * (lc + 1) - 1);
                assert(self.cell_lo(row - 1, lc + 1) == p * (lc + 1));
                assert(p * (lc + 2) == p2 * (col + 1)) by (nonlinear_arith)
                    requires
                        p2 == 2 * p,
                        lc == 2 * col,
                ;
                assert(self.cell_hi(row - 1, lc + 1) == hi);
                let m = p * (lc + 1);
                let a = self@.subrange(lo, m);
                let b = self@.subrange(m, hi + 1);
                assert(self@.subrange(lo, hi + 1) =~= a + b);
                Self::lemma_combine_seq_concat(a, b);
                assert(self.cells@[row]@[col] == F::combine_spec(
                    self.cells@[row - 1]@[lc],
                    self.cells@[row - 1]@[lc + 1],
                ));
            } else {
                // the last cell of an odd level is carried forward: the
                // parent covers exactly what its only child covers
                assert(lc + 1 >= lp);
                assert(p * lp <= p * (lc + 1)) by (nonlinear_arith)
                    requires
                        p >= 1,
                        lp <= lc + 1,
                ;
                assert(n <= p * (lc + 1));
                assert(p * (lc + 1) <= p * (lc + 2)) by (nonlinear_arith)
                    requires
                        p >= 1,
                ;
                assert(p * (lc + 2) == p2 * (col + 1)) by (nonlinear_arith)
                    requires
                        p2 == 2 * p,
                        lc == 2 * col,
                ;
                assert(self.cell_hi(row - 1, lc) == n - 1);
                assert(self.cell_hi(row, col) == n - 1);
                assert(self.cells@[row]@[col] == self.cells@[row - 1]@[lc]);
            }
        }
    }

    /// The inclusive range `[r.0, r.1]` of original indices that cell
    /// `(row, column)` covers.
    pub fn cell_range(&self, row: usize, column: usize) -> (r: (usize, usize))
        requires
            self.wf(),
            row < self.spec_levels().len(),
            column < self.spec_levels()[row as int].len(),
        ensures
            r.0 == self.cell_lo(row as int, column as int),
            r.1 == self.cell_hi(row as int, column as int),
            r.0 <= r.1 < self@.len(),
    {
        proof {
            self.lemma_cell_value(row as int, column as int);
            self.lemma_level_len(row as int);
            self.lemma_row_pow_bound(row as int);
        }
        let n: usize = self.cells[0].len();
        let mut base: u128 = 1;
        let mut k: usize = 0;
        proof {
            assert(pow2(0) == 1) by {
                vstd::arithmetic::power2::lemma2_to64();
            }
        }
        while k < row
            invariant
                k <= row,
                base == pow2(k as nat),
                pow2(row as nat) <= 2 * self@.len(),
                self@.len() <= usize::MAX,
            decreases row - k,
        {
            proof {
                vstd::arithmetic::power2::lemma_pow2_unfold((k + 1) as nat);
                if k + 1 < row {
                    vstd::arithmetic::power2::lemma_pow2_strictly_increases(
                        (k + 1) as nat,
                        row as nat,
                    );
                }
            }
            base = 2 * base;
            k += 1;
        }
        let lo128: u128 = base * (column as u128);
        proof {
            let p = pow2(row as nat) as int;
            let cl = self.cells@[row as int]@.len() as int;
            assert(p * column <= p * (cl - 1)) by (nonlinear_arith)
                requires
                    p >= 1,
                    column <= cl - 1,
            ;
            assert(p * (column + 1) <= p * cl) by (nonlinear_arith)
                requires
                    p >= 1,
                    column + 1 <= cl,
            ;
            assert(p * cl < self@.len() + p) by (nonlinear_arith)
                requires
                    p * (cl - 1) < self@.len(),
            ;
        }
        let hi_excl128: u128 = base * (column as u128) + base;
        proof {
            let p = pow2(row as nat) as int;
            assert(p * (column + 1) == p * column + p) by (nonlinear_arith);
        }
        let n128: u128 = n as u128;
        let hi_excl: u128 = if n128 <= hi_excl128 {
            n128
        } else {
            hi_excl128
        };
        ((lo128 as usize), ((hi_excl - 1) as usize))
    }

    /// Aggregates, in left-to-right index order, the part of `[left, right]`
    /// that cell `(row, col)` covers; the cell must overlap the range.
    fn query_cell(&self, row: usize, col: usize, left: usize, right: usize) -> (r: T)
        requires
            self.wf(),
            row < self.spec_levels().len(),
            col < self.spec_levels()[row as int].len(),
            left <= right < self@.len(),
            self.cell_lo(row as int, col as int) <= right,
            left <= self.cell_hi(row as int, col as int),
        ensures
            r == Self::combine_seq(
                self@.subrange(
                    vstd::math::max(left as int, self.cell_lo(row as int, col as int)),
                    vstd::math::min(right as int, self.cell_hi(row as int, col as int)) + 1,
                ),
            ),
        decreases row,
    {
        proof {
            self.lemma_cell_value(row as int, col as int);
        }
        let (c_l, c_r) = self.cell_range(row, col);
        if left <= c_l && c_r <= right {
            // the cell is fully inside the queried range
            self.cells[row][col]
        } else {
            // partial overlap: a leaf cell covers a single index and can
            // never overlap partially, so this cell has children
            proof {
                if row == 0 {
                    assert(pow2(0) == 1) by {
                        vstd::arithmetic::power2::lemma2_to64();
                    }
                    assert(c_l == 1 * col && col + 1 <= self@.len()) by (nonlinear_arith)
                        requires
                            c_l == pow2(0) * col,
                            pow2(0) == 1,
                            col < self@.len(),
                    ;
                    assert(pow2(0) * (col + 1) == col + 1) by (nonlinear_arith)
                        requires
                            pow2(0) == 1,
                    ;
                    assert(c_r == col);
                    assert(false);
                }
                let lp = self.cells@[row - 1]@.len() as int;
                assert(self.cells@[row as int]@ == Self::level_above(self.cells@[row - 1]@));
                assert(2 * col < lp);
            }
            let prev_len: usize = self.cells[row - 1].len();
            let lc: usize = 2 * col;
            proof {
                let lp = self.cells@[row - 1]@.len() as int;
                let p = pow2((row - 1) as nat) as int;
                let p2 = pow2(row as nat) as int;
                vstd::arithmetic::power2::lemma_pow2_unfold(row as nat);
                vstd::arithmetic::power2::lemma_pow2_pos((row - 1) as nat);
                self.lemma_level_len(row - 1);
                self.lemma_cell_value(row - 1, lc as int);
                assert(self.cell_lo(row - 1, lc as int) == self.cell_lo(
                    row as int,
                    col as int,
                )) by (nonlinear_arith)
                    requires
                        p2 == 2 * p,
                        self.cell_lo(row - 1, lc as int) == p * lc,
                        self.cell_lo(row as int, col as int) == p2 * col,
                        lc == 2 * col,
                ;
            }
            if lc + 1 < prev_len {
                proof {
                    let p = pow2((row - 1) as nat) as int;
                    let p2 = pow2(row as nat) as int;
                    let lp = self.cells@[row - 1]@.len() as int;
                    let n = self@.len() as int;
                    self.lemma_cell_value(row - 1, lc as int + 1);
                    assert(p * (lc + 1) <= p * (lp - 1)) by (nonlinear_arith)
                        requires
                            p >= 1,
                            lc + 1 <= lp - 1,
                    ;
                    assert(p * (lc + 1) < n);
                    assert(self.cell_hi(row - 1, lc as int) == p * (lc + 1) - 1);
                    assert(self.cell_lo(row - 1, lc as int + 1) == p * (lc + 1));
                    assert(p * (lc + 2) == p2 * (col + 1)) by (nonlinear_arith)
                        requires
                            p2 == 2 * p,
                            lc == 2 * col,
                    ;
                    assert(self.cell_hi(row - 1, lc as int + 1) == self.cell_hi(
                        row as int,
                        col as int,
                    ));
                }
                let (l_l, l_r) = self.cell_range(row - 1, lc);
                if right <= l_r {
                    // only the left child overlaps
                    self.query_cell(row - 1, lc, left, right)
                } else if left > l_r {
                    // only the right child overlaps
                    self.query_cell(row - 1, lc + 1, left, right)
                } else {
                    // both children overlap; fold left first, then right
                    let a = self.query_cell(row - 1, lc, left, right);
                    let b = self.query_cell(row - 1, lc + 1, left, right);
                    proof {
                        let lo = vstd::math::max(
                            left as int,
                            self.cell_lo(row as int, col as int),
                        );
                        let hi = vstd::math::min(
                            right as int,
                            self.cell_hi(row as int, col as int),
                        );
                        let m = self.cell_hi(row - 1, lc as int) + 1;
                        let sa = self@.subrange(lo, m);
                        let sb = self@.subrange(m, hi + 1);
                        assert(self@.subrange(lo, hi + 1) =~= sa + sb);
                        Self::lemma_combine_seq_concat(sa, sb);
                    }
                    self.cal.combine(a, b)
                }
            } else {
                // no right child: the parent covers exactly what its only
                // child covers
                proof {
                    let p = pow2((row - 1) as nat) as int;
                    let p2 = pow2(row as nat) as int;
                    let lp = self.cells@[row - 1]@.len() as int;
                    let n = self@.len() as int;
                    assert(p * lp <= p * (lc + 1)) by (nonlinear_arith)
                        requires
                            p >= 1,
                            lp <= lc + 1,
                    ;
                    assert(n <= p * (lc + 1));
                    assert(p * (lc + 1) <= p * (lc + 2)) by (nonlinear_arith)
                        requires
                            p >= 1,
                    ;
                    assert(p * (lc + 2) == p2 * (col + 1)) by (nonlinear_arith)
                        requires
                            p2 == 2 * p,
                            lc == 2 * col,
                    ;
                    assert(self.cell_hi(row - 1, lc as int) == n - 1);
                    assert(self.cell_hi(row as int, col as int) == n - 1);
                }
                self.query_cell(row - 1, lc, left, right)
            }
        }
    }

    /// Aggregates the inclusive range `[left, right]` of the original
    /// sequence: returns the left-to-right fold, under the combining
    /// operation, of `levels[0][left..=right]`.
    pub fn query(&self, left: usize, right: usize) -> (r: T)
        requires
            self.wf(),
            left <= right < self@.len(),
        ensures
            r == Self::combine_seq(self@.subrange(left as int, right as int + 1)),
    {
        let top: usize = self.cells.len() - 1;
        proof {
            self.lemma_level_len(top as int);
            let p = pow2(top as nat) as int;
            let n = self@.len() as int;
            assert(self.cells@[top as int]@.len() == 1);
            assert(p * (1 - 1) < n && n <= p * 1);
            assert(self.cell_lo(top as int, 0) == 0) by (nonlinear_arith)
                requires
                    self.cell_lo(top as int, 0) == p * 0,
            ;
            assert(self.cell_hi(top as int, 0) == n - 1);
        }
        self.query_cell(top, 0, left, right)
    }

    /// The levels of the pyramid, level 0 (the raw input) first.
    pub fn levels(&self) -> (r: &Vec<Vec<T>>)
        ensures
            r@.map_values(|v: Vec<T>| v@) == self.spec_levels(),
    {
        &self.cells
    }

    /// Like `update`, but rejects an empty structure or an out-of-range
    /// position instead of requiring the caller to rule them out.
    pub fn try_update(&mut self, pos: usize, v: T) -> (r: Result<(), RangeError>)
        requires
            old(self).wf(),
        ensures
            final(self).wf(),
            old(self)@.len() == 0 ==> r == Err::<(), RangeError>(RangeError::EmptyStructure)
                && final(self)@ == old(self)@,
            old(self)@.len() > 0 && pos >= old(self)@.len() ==> r == Err::<(), RangeError>(
                RangeError::IndexOutOfRange,
            ) && final(self)@ == old(self)@,
            pos < old(self)@.len() ==> r == Ok::<(), RangeError>(()) && final(self)@ == old(
                self,
            )@.update(pos as int, v),
    {
        if self.cells.len() == 0 {
            return Err(RangeError::EmptyStructure);
        }
        if pos >= self.cells[0].len() {
            return Err(RangeError::IndexOutOfRange);
        }
        self.update(pos, v);
        Ok(())
    }

    /// Like `query`, but rejects an empty structure or invalid bounds
    /// instead of requiring the caller to rule them out.
    pub fn try_query(&self, left: usize, right: usize) -> (r: Result<T, RangeError>)
        requires
            self.wf(),
        ensures
            self@.len() == 0 ==> r == Err::<T, RangeError>(RangeError::EmptyStructure),
            self@.len() > 0 && !(left <= right < self@.len()) ==> r == Err::<T, RangeError>(
                RangeError::IndexOutOfRange,
            ),
            left <= right < self@.len() ==> r == Ok::<T, RangeError>(
                Self::combine_seq(self@.subrange(left as int, right as int + 1)),
            ),
    {
        if self.cells.len() == 0 {
            return Err(RangeError::EmptyStructure);
        }
        if left > right || right >= self.cells[0].len() {
            return Err(RangeError::IndexOutOfRange);
        }
        Ok(self.query(left, right))
    }

    /// Law: the pyramid of a well-formed structure is completely
    /// determined by its observable leaf sequence. Level 0 is that
    /// sequence; every higher level is `level_above` of the one below it;
    /// every level but the top holds at least two cells; and the top
    /// holds exactly one. Since `level_above` is public, this fixes the
    /// length and the contents of every level — including the invariant
    /// that a cell combines its two children where both exist and carries
    /// an unpaired child upward unchanged, and that the number of levels
    /// is the least that reaches a one-cell level.
    pub proof fn lemma_levels_structure(self)
        requires
            self.wf(),
        ensures
            self.spec_levels().len() == 0 <==> self@.len() == 0,
            self@.len() > 0 ==> {
                &&& self.spec_levels()[0] == self@
                &&& self.spec_levels()[self.spec_levels().len() - 1].len() == 1
                &&& forall|i: int|
                    0 <= i < self.spec_levels().len() - 1 ==> (#[trigger] self.spec_levels()[
                        i
                    ]).len() > 1
                &&& forall|i: int, j: int|
                    0 <= j && j + 1 == i && i < self.spec_levels().len()
                        ==> #[trigger] self.spec_levels()[i] == Self::level_above(
                        #[trigger] self.spec_levels()[j],
                    )
            },
    {
        if self.cells@.len() > 0 {
            assert(self.cells@[0]@.len() >= 1);
        }
        assert forall|i: int| 0 <= i < self.cells@.len() implies #[trigger] self.spec_levels()[i]
            == self.cells@[i]@ by {
        }
        assert forall|i: int, j: int|
            0 <= j && j + 1 == i && i < self.spec_levels().len() implies #[trigger] self.spec_levels()[
            i
        ] == Self::level_above(#[trigger] self.spec_levels()[j]) by {
            assert(self.cells@[i]@ == Self::level_above(self.cells@[i - 1]@));
        }
    }

    /// Law: immediately after construction from a non-empty sequence `s`,
    /// `query(0, N - 1)` returns the left-to-right fold of the whole input:
    /// by `new`'s contract the leaves equal `s`, and by `query`'s contract
    /// the result is the fold of `s[0 ..= N - 1]`, which is all of `s`.
    pub proof fn lemma_query_all_is_full_fold(s: Seq<T>)
        requires
            s.len() >= 1,
        ensures
            Self::combine_seq(s.subrange(0, s.len() as int)) == Self::combine_seq(s),
    {
        assert(s.subrange(0, s.len() as int) =~= s);
    }

    /// Law: performing `update(pos, v)` and then `query(pos, pos)` returns
    /// `v` exactly: by `update`'s contract the leaves become
    /// `s.update(pos, v)`, and by `query`'s contract the result is the fold
    /// of the single-element range at `pos`.
    pub proof fn lemma_update_then_point_query(s: Seq<T>, pos: int, v: T)
        requires
            0 <= pos < s.len(),
        ensures
            Self::combine_seq(s.update(pos, v).subrange(pos, pos + 1)) == v,
    {
        let sub = s.update(pos, v).subrange(pos, pos + 1);
        assert(sub.len() == 1 && sub[0] == v);
    }

    /// Law: calling `update(pos, v)` twice with the same value leaves the
    /// observable state — and with it every query result, which by
    /// `query`'s contract depends only on the leaf sequence — exactly as
    /// after a single call.
    pub proof fn lemma_update_idempotent(s: Seq<T>, pos: int, v: T)
        requires
            0 <= pos < s.len(),
        ensures
            s.update(pos, v).update(pos, v) == s.update(pos, v),
    {
        assert(s.update(pos, v).update(pos, v) =~= s.update(pos, v));
    }

    /// Law: a structure is empty — holds no levels at all — exactly when
    /// it was built from an empty input, and a one-element input yields
    /// exactly one level, equal to the input.
    pub proof fn lemma_degenerate_shapes(self)
        requires
            self.wf(),
        ensures
            self@.len() == 0 <==> self.spec_levels().len() == 0,
            self@.len() == 1 ==> self.spec_levels() =~= seq![self@],
    {
        if self.cells@.len() > 0 {
            assert(self.cells@[0]@.len() >= 1);
        }
        if self@.len() == 1 {
            if self.cells@.len() > 1 {
                assert(self.cells@[0]@.len() > 1);
                assert(false);
            }
            assert(self.spec_levels()[0] == self@);
        }
    }

    /// Levels below `k` are a function of the leaves alone.
    proof fn lemma_wf_unique_level(a: SegmentTree<T, F>, b: SegmentTree<T, F>, k: int)
        requires
            a.wf(),
            b.wf(),
            a@ == b@,
            a.cells@.len() > 0,
            b.cells@.len() > 0,
            0 <= k < a.cells@.len(),
            k < b.cells@.len(),
        ensures
            a.cells@[k]@ == b.cells@[k]@,
        decreases k,
    {
        if k > 0 {
            Self::lemma_wf_unique_level(a, b, k - 1);
        }
    }

    /// Law: the whole pyramid is a function of its leaf sequence. Two
    /// well-formed structures with equal leaves have equal levels
    /// throughout, so updates that produce equal leaf sequences produce
    /// identical observable states.
    pub proof fn lemma_wf_unique(a: SegmentTree<T, F>, b: SegmentTree<T, F>)
        requires
            a.wf(),
            b.wf(),
            a@ == b@,
        ensures
            a.spec_levels() == b.spec_levels(),
    {
        if a.cells@.len() == 0 || b.cells@.len() == 0 {
            if a.cells@.len() > 0 {
                assert(a.cells@[0]@.len() >= 1);
                assert(a@.len() >= 1);
            }
            if b.cells@.len() > 0 {
                assert(b.cells@[0]@.len() >= 1);
                assert(b@.len() >= 1);
            }
            assert(a.cells@.len() == 0 && b.cells@.len() == 0);
            assert(a.spec_levels() =~= b.spec_levels());
        } else {
            let ha = a.cells@.len() as int;
            let hb = b.cells@.len() as int;
            if ha < hb {
                Self::lemma_wf_unique_level(a, b, ha - 1);
                assert(a.cells@[ha - 1]@.len() == 1);
                assert(b.cells@[ha - 1]@.len() > 1);
                assert(false);
            }
            if hb < ha {
                Self::lemma_wf_unique_level(a, b, hb - 1);
                assert(b.cells@[hb - 1]@.len() == 1);
                assert(a.cells@[hb - 1]@.len() > 1);
                assert(false);
            }
            assert forall|k: int| 0 <= k < ha implies a.spec_levels()[k] == b.spec_levels()[
                k
            ] by {
                Self::lemma_wf_unique_level(a, b, k);
            }
            assert(a.spec_levels() =~= b.spec_levels());
        }
    }
}

/// Why an operation on the structure was rejected: every operation of an
/// empty structure is rejected, and so is any out-of-range position or
/// bound pair.
#[derive(Debug, Clone, Copy, PartialEq, Eq, Structural)]
pub enum RangeError {
    EmptyStructure,
    IndexOutOfRange,
}

} // verus!
