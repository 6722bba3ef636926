use vstd::prelude::*;
use vstd::seq_lib::{to_multiset_contains, to_multiset_remove};
use vstd::arithmetic::div_mod::lemma_fundamental_div_mod;
use rand::seq::SliceRandom;

verus! {

pub open spec fn pow2(n: nat) -> nat
    decreases n,
{
    if n == 0 { 1 } else { 2 * pow2((n - 1) as nat) }
}

/// The rank that the recursive Bayer construction of order `n` gives to the
/// cell `(x, y)` of its `2^n`×`2^n` matrix: each step puts `4k`, `4k + 2`,
/// `4k + 3` and `4k + 1` in the north-west, north-east, south-west and
/// south-east quadrants.
pub open spec fn bayer_rank(n: nat, x: int, y: int) -> int
    decreases n,
{
    if n == 0 {
        0
    } else {
        let d = pow2((n - 1) as nat) as int;
        let r = bayer_rank((n - 1) as nat, if x < d { x } else { x - d }, if y < d { y } else { y - d });
        if x < d && y < d {
            4 * r
        } else if y < d {
            4 * r + 2
        } else if x < d {
            4 * r + 3
        } else {
            4 * r + 1
        }
    }
}

proof fn lemma_pow2_bounds(n: nat)
    ensures
        pow2(n) >= 1,
        n <= 15 ==> pow2(n) <= 0x8000,
{
    lemma_pow2_pos(n);
    if n <= 15 {
        lemma_pow2_monotone(n, 15);
    }
    reveal_with_fuel(pow2, 16);
}

proof fn lemma_pow2_pos(n: nat)
    ensures
        pow2(n) >= 1,
    decreases n,
{
    if n > 0 {
        lemma_pow2_pos((n - 1) as nat);
    }
}

proof fn lemma_pow2_monotone(n: nat, m: nat)
    requires
        n <= m,
    ensures
        pow2(n) <= pow2(m),
    decreases m,
{
    if n < m {
        lemma_pow2_monotone(n, (m - 1) as nat);
    }
}

proof fn lemma_bayer_range(n: nat, x: int, y: int)
    requires
        0 <= x < pow2(n),
        0 <= y < pow2(n),
    ensures
        0 <= bayer_rank(n, x, y) < pow2(n) * pow2(n),
    decreases n,
{
    if n > 0 {
        let m = (n - 1) as nat;
        let d = pow2(m) as int;
        let xs = if x < d { x } else { x - d };
        let ys = if y < d { y } else { y - d };
        lemma_bayer_range(m, xs, ys);
        let r = bayer_rank(m, xs, ys);
        assert(4 * r + 3 < pow2(n) * pow2(n)) by (nonlinear_arith)
            requires
                r < d * d,
                pow2(n) == 2 * d,
        ;
    }
}

proof fn lemma_bayer_injective(n: nat, x1: int, y1: int, x2: int, y2: int)
    requires
        0 <= x1 < pow2(n),
        0 <= y1 < pow2(n),
        0 <= x2 < pow2(n),
        0 <= y2 < pow2(n),
        bayer_rank(n, x1, y1) == bayer_rank(n, x2, y2),
    ensures
        x1 == x2,
        y1 == y2,
    decreases n,
{
    if n > 0 {
        let m = (n - 1) as nat;
        let d = pow2(m) as int;
        let xs1 = if x1 < d { x1 } else { x1 - d };
        let ys1 = if y1 < d { y1 } else { y1 - d };
        let xs2 = if x2 < d { x2 } else { x2 - d };
        let ys2 = if y2 < d { y2 } else { y2 - d };
        let r1 = bayer_rank(m, xs1, ys1);
        let r2 = bayer_rank(m, xs2, ys2);
        assert(x1 < d <==> x2 < d);
        assert(y1 < d <==> y2 < d);
        assert(r1 == r2);
        lemma_bayer_injective(m, xs1, ys1, xs2, ys2);
    }
}

/// Some cell of the order-`n` Bayer matrix has rank `r`.
pub open spec fn bayer_has_rank(n: nat, r: int) -> bool {
    exists|x: int, y: int| 0 <= x < pow2(n) && 0 <= y < pow2(n) && #[trigger] bayer_rank(n, x, y) == r
}

proof fn lemma_bayer_onto(n: nat, r: int)
    requires
        0 <= r < pow2(n) * pow2(n),
    ensures
        exists|x: int, y: int|
            0 <= x < pow2(n) && 0 <= y < pow2(n) && #[trigger] bayer_rank(n, x, y) == r,
    decreases n,
{
    if n == 0 {
        assert(pow2(n) == 1);
        assert(pow2(n) * pow2(n) == 1) by (nonlinear_arith)
            requires
                pow2(n) == 1,
        ;
        assert(r == 0);
        assert(bayer_rank(0, 0, 0) == 0);
    } else {
        let m = (n - 1) as nat;
        let d = pow2(m) as int;
        let q = r / 4;
        let s = r % 4;
        assert(0 <= q < d * d) by (nonlinear_arith)
            requires
                0 <= r < pow2(n) * pow2(n),
                pow2(n) == 2 * d,
                q == r / 4,
        ;
        lemma_bayer_onto(m, q);
        let (xs, ys) = choose|x: int, y: int|
            0 <= x < pow2(m) && 0 <= y < pow2(m) && #[trigger] bayer_rank(m, x, y) == q;
        let x = if s == 0 || s == 3 { xs } else { xs + d };
        let y = if s == 0 || s == 2 { ys } else { ys + d };
        assert(pow2(n) == 2 * d);
        assert(bayer_rank(n, x, y) == r);
        assert(0 <= x < pow2(n) && 0 <= y < pow2(n));
    }
}

/// Bayer matrices rank their cells without gaps or repeats: the ranks of
/// the order-`n` matrix are exactly `0 .. 4^n`, each once.
pub proof fn lemma_bayer_permutation(n: nat)
    ensures
        forall|x: int, y: int|
            0 <= x < pow2(n) && 0 <= y < pow2(n) ==> 0 <= #[trigger] bayer_rank(n, x, y) < pow2(
                n,
            ) * pow2(n),
        forall|x1: int, y1: int, x2: int, y2: int|
            0 <= x1 < pow2(n) && 0 <= y1 < pow2(n) && 0 <= x2 < pow2(n) && 0 <= y2 < pow2(n)
                && #[trigger] bayer_rank(n, x1, y1) == #[trigger] bayer_rank(n, x2, y2) ==> x1 == x2
                && y1 == y2,
        forall|r: int| 0 <= r < pow2(n) * pow2(n) ==> #[trigger] bayer_has_rank(n, r),
{
    assert forall|x: int, y: int| 0 <= x < pow2(n) && 0 <= y < pow2(n) implies 0 <= #[trigger] bayer_rank(
        n,
        x,
        y,
    ) < pow2(n) * pow2(n) by {
        lemma_bayer_range(n, x, y);
    }
    assert forall|x1: int, y1: int, x2: int, y2: int|
        0 <= x1 < pow2(n) && 0 <= y1 < pow2(n) && 0 <= x2 < pow2(n) && 0 <= y2 < pow2(n)
            && #[trigger] bayer_rank(n, x1, y1) == #[trigger] bayer_rank(n, x2, y2) implies x1 == x2
        && y1 == y2 by {
        lemma_bayer_injective(n, x1, y1, x2, y2);
    }
    assert forall|r: int| 0 <= r < pow2(n) * pow2(n) implies #[trigger] bayer_has_rank(n, r) by {
        lemma_bayer_onto(n, r);
    }
}

/// Relies on rand's `SliceRandom::shuffle` with the thread-local generator:
/// it only swaps elements, so the same values come back in some order.
#[verifier::external_body]
fn shuffle(v: &mut Vec<usize>)
    ensures
        final(v)@.len() == old(v)@.len(),
        final(v)@.to_multiset() == old(v)@.to_multiset(),
{
    v.shuffle(&mut rand::thread_rng());
}

proof fn lemma_second_occurrence(s: Seq<usize>, a: int, b: int)
    requires
        0 <= a < s.len(),
        0 <= b < s.len(),
        a != b,
        s[a] == s[b],
    ensures
        s.to_multiset().count(s[a]) >= 2,
{
    to_multiset_remove(s, a);
    let t = s.remove(a);
    let k = if b < a { b } else { b - 1 };
    assert(t[k] == s[a]);
    to_multiset_contains(t, s[a]);
}

proof fn lemma_single_occurrence(s: Seq<usize>, v: usize)
    requires
        forall|a: int, b: int| 0 <= a < b < s.len() ==> s[a] != s[b],
    ensures
        s.to_multiset().count(v) <= 1,
{
    if s.to_multiset().count(v) >= 2 {
        to_multiset_contains(s, v);
        let a = choose|a: int| 0 <= a < s.len() && s[a] == v;
        to_multiset_remove(s, a);
        let t = s.remove(a);
        to_multiset_contains(t, v);
        let k = choose|k: int| 0 <= k < t.len() && t[k] == v;
        let b = if k < a { k } else { k + 1 };
        assert(s[b] == v);
        if a < b {
            assert(s[a] != s[b]);
        } else {
            assert(s[b] != s[a]);
        }
    }
}

/// A reordering of `0 .. n` holds each of `0 .. n` exactly once.
proof fn lemma_reordered_range(s: Seq<usize>, t: Seq<usize>, n: int)
    requires
        t.len() == n,
        s.len() == n,
        forall|i: int| 0 <= i < n ==> t[i] == i,
        s.to_multiset() == t.to_multiset(),
    ensures
        forall|i: int| 0 <= i < n ==> s[i] < n,
        forall|a: int, b: int| 0 <= a < n && 0 <= b < n && s[a] == s[b] ==> a == b,
        forall|r: int| 0 <= r < n ==> #[trigger] s.contains(r as usize),
{
    assert forall|i: int| 0 <= i < n implies s[i] < n by {
        to_multiset_contains(s, s[i]);
        to_multiset_contains(t, s[i]);
        let k = choose|k: int| 0 <= k < t.len() && t[k] == s[i];
    }
    assert forall|a: int, b: int| 0 <= a < n && 0 <= b < n && s[a] == s[b] implies a == b by {
        if a != b {
            lemma_second_occurrence(s, a, b);
            assert forall|p: int, q: int| 0 <= p < q < t.len() implies t[p] != t[q] by {}
            lemma_single_occurrence(t, s[a]);
        }
    }
    assert forall|r: int| 0 <= r < n implies #[trigger] s.contains(r as usize) by {
        assert(t[r] == r);
        to_multiset_contains(t, r as usize);
        to_multiset_contains(s, r as usize);
    }
}

/// How many entries of `s` are `v`.
pub open spec fn count_of(s: Seq<bool>, v: bool) -> nat
    decreases s.len(),
{
    if s.len() == 0 {
        0
    } else {
        count_of(s.drop_last(), v) + if s.last() == v {
            1nat
        } else {
            0nat
        }
    }
}

proof fn lemma_count_flip(s: Seq<bool>, i: int, v: bool)
    requires
        0 <= i < s.len(),
        s[i] == v,
    ensures
        count_of(s.update(i, !v), v) + 1 == count_of(s, v),
        count_of(s.update(i, !v), !v) == count_of(s, !v) + 1,
    decreases s.len(),
{
    if i == s.len() - 1 {
        assert(s.update(i, !v).drop_last() =~= s.drop_last());
    } else {
        lemma_count_flip(s.drop_last(), i, v);
        assert(s.update(i, !v).drop_last() =~= s.drop_last().update(i, !v));
    }
}

proof fn lemma_count_positive(s: Seq<bool>, i: int, v: bool)
    requires
        0 <= i < s.len(),
        s[i] == v,
    ensures
        count_of(s, v) > 0,
    decreases s.len(),
{
    if i < s.len() - 1 {
        lemma_count_positive(s.drop_last(), i, v);
    }
}

proof fn lemma_count_exists(s: Seq<bool>, v: bool)
    requires
        count_of(s, v) > 0,
    ensures
        exists|i: int| 0 <= i < s.len() && s[i] == v,
    decreases s.len(),
{
    if s.last() != v {
        lemma_count_exists(s.drop_last(), v);
        let i = choose|i: int| 0 <= i < s.drop_last().len() && s.drop_last()[i] == v;
        assert(s[i] == v);
    } else {
        assert(s[s.len() - 1] == v);
    }
}

proof fn lemma_count_total(s: Seq<bool>)
    ensures
        count_of(s, true) + count_of(s, false) == s.len(),
    decreases s.len(),
{
    if s.len() > 0 {
        lemma_count_total(s.drop_last());
    }
}

/// Some cell flagged in `given` has rank `r`.
pub open spec fn rank_given(order: Seq<usize>, given: Seq<bool>, r: int) -> bool {
    exists|i: int| 0 <= i < order.len() && given[i] && order[i] == r
}

/// The pixels set while the ranks above `r` were removed from `pat`: those
/// set in `pat` and not yet ranked (`given`) or ranked at most `r`.
pub open spec fn shrink_at(pat: Seq<bool>, order: Seq<usize>, given: Seq<bool>, r: int) -> Seq<bool> {
    Seq::new(pat.len(), |i: int| pat[i] && (!given[i] || order[i] <= r))
}

/// The pixels set while the ranks below `r` were added to `pat`.
pub open spec fn grow_at(pat: Seq<bool>, order: Seq<usize>, given: Seq<bool>, r: int) -> Seq<bool> {
    Seq::new(pat.len(), |i: int| pat[i] || (given[i] && order[i] < r))
}

/// Cell `c` holds `v` in `s` and is the one `pick` names for `s` and `v`;
/// or, where `pick` names no cell holding `v`, the first cell that does.
pub open spec fn picked<F: Fn(&Vec<bool>, bool) -> usize>(pick: F, s: Seq<bool>, v: bool, c: int) -> bool {
    &&& 0 <= c < s.len()
    &&& s[c] == v
    &&& exists|sv: Vec<bool>, r: usize|
        sv@ == s && #[trigger] pick.ensures((&sv, v), r) && (r == c || ((r >= s.len() || s[r as int]
            != v) && forall|k: int| 0 <= k < c ==> s[k] != v))
}

/// A cell of `state` that holds `v`: the one `pick` names where it does,
/// else the first such.
fn pick_cell<F: Fn(&Vec<bool>, bool) -> usize>(pick: &F, state: &Vec<bool>, v: bool) -> (r: usize)
    requires
        forall|s: &Vec<bool>, b: bool| #[trigger] pick.requires((s, b)),
        count_of(state@, v) > 0,
    ensures
        r < state@.len(),
        state@[r as int] == v,
        picked(*pick, state@, v, r as int),
{
    let c = pick(state, v);
    if c < state.len() && state[c] == v {
        proof {
            let sv = *state;
            assert(pick.ensures((&sv, v), c));
        }
        return c;
    }
    proof {
        lemma_count_exists(state@, v);
    }
    let mut i: usize = 0;
    while i < state.len()
        invariant
            i <= state@.len(),
            pick.ensures((state, v), c),
            c >= state@.len() || state@[c as int] != v,
            forall|k: int| 0 <= k < i ==> state@[k] != v,
            exists|k: int| 0 <= k < state@.len() && state@[k] == v,
        decreases state@.len() - i,
    {
        if state[i] == v {
            proof {
                let sv = *state;
                assert(pick.ensures((&sv, v), c));
            }
            return i;
        }
        i += 1;
    }
    proof {
        let k = choose|k: int| 0 <= k < state@.len() && state@[k] == v;
        assert(state@[k] != v);
    }
    0
}

/// A threshold matrix: `order[y][x]` is the rank of the cell `(x, y)`.
pub struct ThresholdMatrix {
    pub w: usize,
    pub h: usize,
    pub order: Vec<Vec<usize>>,
}

impl ThresholdMatrix {
    /// `h` rows of `w` ranks each.
    pub open spec fn wf(&self) -> bool {
        &&& self.order@.len() == self.h
        &&& forall|j: int| 0 <= j < self.h ==> (#[trigger] self.order@[j])@.len() == self.w
    }

    /// The rank of the cell `(x, y)`.
    pub open spec fn rank(&self, x: int, y: int) -> int {
        self.order@[y]@[x] as int
    }

    /// The rank of the `k`-th cell, counted row by row.
    pub open spec fn flat_rank(&self, k: int) -> int {
        self.rank(k % self.w as int, k / self.w as int)
    }

    /// The pixels of `pattern` still set when the one of rank `r` was
    /// removed: those of rank at most `r`.
    pub open spec fn shrinking(&self, pattern: Seq<bool>, r: int) -> Seq<bool> {
        Seq::new(pattern.len(), |i: int| pattern[i] && self.flat_rank(i) <= r)
    }

    /// The pixels set when the one of rank `r` was added to `pattern`:
    /// those of `pattern` and those of rank below `r`.
    pub open spec fn growing(&self, pattern: Seq<bool>, r: int) -> Seq<bool> {
        Seq::new(pattern.len(), |i: int| pattern[i] || self.flat_rank(i) < r)
    }

    /// Some cell has rank `r`.
    pub open spec fn has_rank(&self, r: int) -> bool {
        exists|x: int, y: int| 0 <= x < self.w && 0 <= y < self.h && #[trigger] self.rank(x, y) == r
    }

    /// The ranks are exactly `0 .. w·h`, each given to one cell.
    pub open spec fn ranks_are_permutation(&self) -> bool {
        &&& self.wf()
        &&& forall|x: int, y: int|
            0 <= x < self.w && 0 <= y < self.h ==> 0 <= #[trigger] self.rank(x, y) < self.w * self.h
        &&& forall|x1: int, y1: int, x2: int, y2: int|
            0 <= x1 < self.w && 0 <= y1 < self.h && 0 <= x2 < self.w && 0 <= y2 < self.h
                && #[trigger] self.rank(x1, y1) == #[trigger] self.rank(x2, y2) ==> x1 == x2 && y1 == y2
        &&& forall|r: int| 0 <= r < self.w * self.h ==> #[trigger] self.has_rank(r)
    }

    pub fn new(w: usize, h: usize, order: Vec<Vec<usize>>) -> (m: Self)
        ensures
            m.w == w,
            m.h == h,
            m.order == order,
    {
        ThresholdMatrix { w, h, order }
    }

    /// The rank of the cell that `(x, y)` falls on when the matrix tiles the
    /// plane.
    pub fn rank_at(&self, x: usize, y: usize) -> (r: usize)
        requires
            self.wf(),
            self.w > 0,
            self.h > 0,
        ensures
            r as int == self.rank(x as int % self.w as int, y as int % self.h as int),
    {
        self.order[y % self.h][x % self.w]
    }

    /// The largest rank of a matrix whose ranks are `0 .. w·h`; thresholds
    /// are ranks divided by it.
    pub fn max_rank(&self) -> (r: usize)
        requires
            1 <= self.w * self.h <= usize::MAX,
        ensures
            r == self.w * self.h - 1,
    {
        self.w * self.h - 1
    }

    /// The cells whose threshold exceeds one half: rank `r` does when
    /// `2r > w·h − 1`; a single cell has threshold 0.
    pub fn binary(&self) -> (b: Vec<Vec<bool>>)
        requires
            self.wf(),
            self.w * self.h <= usize::MAX,
        ensures
            b@.len() == self.h,
            forall|j: int| 0 <= j < self.h ==> (#[trigger] b@[j])@.len() == self.w,
            forall|i: int, j: int|
                0 <= i < self.w && 0 <= j < self.h ==> #[trigger] b@[j]@[i] == (self.w * self.h > 1 && 2
                    * self.rank(i, j) > self.w * self.h - 1),
    {
        let n: usize = self.w * self.h;
        let mut data: Vec<Vec<bool>> = Vec::new();
        let mut j: usize = 0;
        while j < self.h
            invariant
                self.wf(),
                n == self.w * self.h,
                j <= self.h,
                data@.len() == j,
                forall|k: int| 0 <= k < j ==> (#[trigger] data@[k])@.len() == self.w,
                forall|i: int, k: int|
                    0 <= i < self.w && 0 <= k < j ==> #[trigger] data@[k]@[i] == (n > 1 && 2 * self.rank(i, k)
                        > n - 1),
            decreases self.h - j,
        {
            let mut row: Vec<bool> = Vec::new();
            let mut i: usize = 0;
            while i < self.w
                invariant
                    self.wf(),
                    n == self.w * self.h,
                    j < self.h,
                    i <= self.w,
                    row@.len() == i,
                    forall|k: int| 0 <= k < i ==> #[trigger] row@[k] == (n > 1 && 2 * self.rank(k, j as int) > n - 1),
                decreases self.w - i,
            {
                let r: usize = self.order[j][i];
                assert(r == self.rank(i as int, j as int));
                row.push(n > 1 && 2 * (r as u128) + 1 > n as u128);
                i += 1;
            }
            data.push(row);
            j += 1;
        }
        data
    }

    /// The `w`×`h` matrix whose ranks, row by row, are `ranks`.
    fn from_row_major(w: usize, h: usize, ranks: Vec<usize>) -> (m: Self)
        requires
            w * h <= usize::MAX,
            ranks@.len() == w * h,
            forall|i: int| 0 <= i < w * h ==> ranks@[i] < w * h,
            forall|a: int, b: int| 0 <= a < w * h && 0 <= b < w * h && ranks@[a] == ranks@[b] ==> a == b,
            forall|r: int| 0 <= r < w * h ==> #[trigger] ranks@.contains(r as usize),
        ensures
            m.w == w,
            m.h == h,
            m.ranks_are_permutation(),
            forall|k: int| 0 <= k < w * h ==> #[trigger] m.flat_rank(k) == ranks@[k],
    {
        let n: usize = w * h;
        let mut order: Vec<Vec<usize>> = Vec::new();
        let mut j: usize = 0;
        while j < h
            invariant
                n == w * h,
                ranks@.len() == n,
                j <= h,
                order@.len() == j,
                forall|k: int| 0 <= k < j ==> (#[trigger] order@[k])@.len() == w,
                forall|x: int, y: int|
                    0 <= x < w && 0 <= y < j ==> #[trigger] order@[y]@[x] == ranks@[y * w + x],
            decreases h - j,
        {
            let mut row: Vec<usize> = Vec::new();
            let mut x: usize = 0;
            while x < w
                invariant
                    n == w * h,
                    ranks@.len() == n,
                    j < h,
                    x <= w,
                    row@.len() == x,
                    forall|k: int| 0 <= k < x ==> #[trigger] row@[k] == ranks@[j * w + k],
                decreases w - x,
            {
                proof {
                    assert(j * w + x < n) by (nonlinear_arith)
                        requires
                            j < h,
                            x < w,
                            n == w * h,
                    ;
                }
                row.push(ranks[j * w + x]);
                x += 1;
            }
            order.push(row);
            j += 1;
        }
        let m = ThresholdMatrix { w, h, order };
        proof {
            let p = ranks@;
            assert forall|x: int, y: int| 0 <= x < w && 0 <= y < h implies 0 <= #[trigger] m.rank(x, y) < m.w * m.h by {
                assert(0 <= y * w + x < n) by (nonlinear_arith)
                    requires
                        0 <= x < w,
                        0 <= y < h,
                        n == w * h,
                ;
                assert(m.rank(x, y) == p[y * w + x]);
            }
            assert forall|x1: int, y1: int, x2: int, y2: int|
                0 <= x1 < w && 0 <= y1 < h && 0 <= x2 < w && 0 <= y2 < h
                    && #[trigger] m.rank(x1, y1) == #[trigger] m.rank(x2, y2) implies x1 == x2
                && y1 == y2 by {
                assert(0 <= y1 * w + x1 < n && 0 <= y2 * w + x2 < n) by (nonlinear_arith)
                    requires
                        0 <= x1 < w,
                        0 <= y1 < h,
                        0 <= x2 < w,
                        0 <= y2 < h,
                        n == w * h,
                ;
                assert(p[y1 * w + x1] == p[y2 * w + x2]);
                assert(y1 * w + x1 == y2 * w + x2);
                assert(y1 == y2 && x1 == x2) by (nonlinear_arith)
                    requires
                        y1 * w + x1 == y2 * w + x2,
                        0 <= x1 < w,
                        0 <= x2 < w,
                        0 <= y1,
                        0 <= y2,
                ;
            }
            assert forall|r: int| 0 <= r < m.w * m.h implies #[trigger] m.has_rank(r) by {
                assert(p.contains(r as usize));
                let k = choose|k: int| 0 <= k < n && p[k] == r as usize;
                assert(w > 0) by (nonlinear_arith)
                    requires
                        0 <= r < w * h,
                ;
                lemma_fundamental_div_mod(k, w as int);
                let x = k % (w as int);
                let y = k / (w as int);
                assert(0 <= x < w && 0 <= y < h) by (nonlinear_arith)
                    requires
                        0 <= k < n,
                        n == w * h,
                        w > 0,
                        x == k % (w as int),
                        y == k / (w as int),
                        k == w * y + x,
                ;
                assert(y * w + x == k) by (nonlinear_arith)
                    requires
                        k == w * y + x,
                ;
                assert(m.rank(x, y) == r);
            }
            assert forall|k: int| 0 <= k < w * h implies #[trigger] m.flat_rank(k) == p[k] by {
                assert(w > 0) by (nonlinear_arith)
                    requires
                        0 <= k < w * h,
                ;
                lemma_fundamental_div_mod(k, w as int);
                let x = k % (w as int);
                let y = k / (w as int);
                assert(0 <= x < w && 0 <= y < h) by (nonlinear_arith)
                    requires
                        0 <= k < n,
                        n == w * h,
                        w > 0,
                        x == k % (w as int),
                        y == k / (w as int),
                        k == w * y + x,
                ;
                assert(y * w + x == k) by (nonlinear_arith)
                    requires
                        k == w * y + x,
                ;
                assert(m.rank(x, y) == p[y * w + x]);
            }
        }
        m
    }

    /// A matrix of random ranks: each of `0 .. w·h` given to one cell.
    pub fn whitenoise(w: usize, h: usize) -> (m: Self)
        requires
            w * h <= usize::MAX,
        ensures
            m.w == w,
            m.h == h,
            m.ranks_are_permutation(),
    {
        let n: usize = w * h;
        let mut perm: Vec<usize> = Vec::new();
        let mut i: usize = 0;
        while i < n
            invariant
                i <= n,
                perm@.len() == i,
                forall|k: int| 0 <= k < i ==> perm@[k] == k,
            decreases n - i,
        {
            perm.push(i);
            i += 1;
        }
        let ghost sorted = perm@;
        shuffle(&mut perm);
        proof {
            lemma_reordered_range(perm@, sorted, n as int);
        }
        Self::from_row_major(w, h, perm)
    }

    /// Ranks a settled void-and-cluster pattern (`pattern[y·w + x]` set for
    /// a minority pixel): the set pixels, tightest cluster first as `pick`
    /// names them, take the ranks from the count of set pixels down to 0;
    /// then, from the pattern again, the largest void is filled with the
    /// ranks from that count up to `w·h − 1`. `pick(state, v)` names the
    /// pixel of value `v` to take next; where it names none, the first such
    /// pixel is taken.
    pub fn bluenoise<F: Fn(&Vec<bool>, bool) -> usize>(w: usize, h: usize, pattern: &Vec<bool>, pick: F) -> (m: Self)
        requires
            w * h <= usize::MAX,
            pattern@.len() == w * h,
            forall|s: &Vec<bool>, b: bool| #[trigger] pick.requires((s, b)),
        ensures
            m.w == w,
            m.h == h,
            m.ranks_are_permutation(),
            forall|k: int|
                0 <= k < w * h ==> (pattern@[k] <==> #[trigger] m.flat_rank(k) < count_of(pattern@, true)),
            forall|k: int|
                0 <= k < w * h && pattern@[k] ==> picked(pick, m.shrinking(pattern@, #[trigger] m.flat_rank(k)), true, k),
            forall|k: int|
                0 <= k < w * h && !pattern@[k] ==> picked(pick, m.growing(pattern@, #[trigger] m.flat_rank(k)), false, k),
    {
        let n: usize = w * h;
        let ghost pat = pattern@;
        let mut ones: usize = 0;
        let mut order: Vec<usize> = Vec::new();
        let mut state: Vec<bool> = Vec::new();
        let mut i: usize = 0;
        while i < n
            invariant
                n == pat.len(),
                pat == pattern@,
                i <= n,
                ones == count_of(pat.take(i as int), true),
                ones <= i,
                order@.len() == i,
                state@ == pat.take(i as int),
            decreases n - i,
        {
            proof {
                assert(pat.take(i as int + 1).drop_last() =~= pat.take(i as int));
                assert(pat.take(i as int + 1).last() == pat[i as int]);
            }
            if pattern[i] {
                ones += 1;
            }
            order.push(0);
            state.push(pattern[i]);
            proof {
                assert(state@ =~= pat.take(i as int + 1));
            }
            i += 1;
        }
        proof {
            assert(pat.take(n as int) =~= pat);
            lemma_count_total(pat);
        }
        let ghost mut given: Seq<bool> = Seq::new(n as nat, |k: int| false);
        let mut t: usize = 0;
        while t < ones
            invariant
                n == pat.len(),
                ones == count_of(pat, true),
                t <= ones,
                order@.len() == n,
                state@.len() == n,
                given.len() == n,
                count_of(state@, true) == ones - t,
                forall|k: int| 0 <= k < n ==> (given[k] <==> (pat[k] && !state@[k])),
                forall|k: int| 0 <= k < n && state@[k] ==> pat[k],
                forall|k: int| 0 <= k < n && given[k] ==> ones - t <= order@[k] < ones,
                forall|a: int, b: int|
                    0 <= a < n && 0 <= b < n && given[a] && given[b] && order@[a] == order@[b] ==> a == b,
                forall|r: int| ones - t <= r < ones ==> #[trigger] rank_given(order@, given, r),
                forall|s: &Vec<bool>, b: bool| #[trigger] pick.requires((s, b)),
                forall|k: int|
                    0 <= k < n && #[trigger] given[k] ==> picked(pick, shrink_at(pat, order@, given, order@[k] as int), true, k),
            decreases ones - t,
        {
            let c = pick_cell(&pick, &state, true);
            let rank: usize = ones - 1 - t;
            let ghost old_order = order@;
            let ghost old_given = given;
            let ghost old_state = state@;
            proof {
                lemma_count_flip(state@, c as int, true);
            }
            state.set(c, false);
            order.set(c, rank);
            proof {
                given = given.update(c as int, true);
                assert(shrink_at(pat, order@, given, rank as int) =~= old_state);
                assert forall|k: int| 0 <= k < n && #[trigger] given[k] implies picked(pick, shrink_at(pat, order@, given, order@[k] as int), true, k) by {
                    if k != c {
                        assert(shrink_at(pat, order@, given, order@[k] as int) =~= shrink_at(pat, old_order, old_given, old_order[k] as int));
                    }
                }
                assert forall|r: int| ones - (t + 1) <= r < ones implies #[trigger] rank_given(order@, given, r) by {
                    if r == rank {
                        assert(order@[c as int] == r);
                    } else {
                        assert(rank_given(old_order, old_given, r));
                        let k = choose|k: int| 0 <= k < old_order.len() && old_given[k] && old_order[k] == r;
                        assert(k != c);
                        assert(given[k] && order@[k] == r);
                    }
                }
            }
            t += 1;
        }
        proof {
            assert forall|k: int| 0 <= k < n && pat[k] implies given[k] by {
                if state@[k] {
                    lemma_count_positive(state@, k, true);
                }
            }
        }
        let mut fill: Vec<bool> = Vec::new();
        let mut i: usize = 0;
        while i < n
            invariant
                n == pat.len(),
                pat == pattern@,
                i <= n,
                fill@ == pat.take(i as int),
            decreases n - i,
        {
            fill.push(pattern[i]);
            proof {
                assert(fill@ =~= pat.take(i as int + 1));
            }
            i += 1;
        }
        proof {
            assert(fill@ =~= pat);
        }
        let mut t: usize = 0;
        while t < n - ones
            invariant
                n == pat.len(),
                ones == count_of(pat, true),
                count_of(pat, true) + count_of(pat, false) == n,
                t <= n - ones,
                order@.len() == n,
                fill@.len() == n,
                given.len() == n,
                count_of(fill@, false) == (n - ones) - t,
                forall|k: int| 0 <= k < n ==> (given[k] <==> fill@[k]),
                forall|k: int| 0 <= k < n && pat[k] ==> fill@[k],
                forall|k: int| 0 <= k < n && pat[k] ==> 0 <= order@[k] < ones,
                forall|k: int| 0 <= k < n && given[k] && !pat[k] ==> ones <= order@[k] < ones + t,
                forall|a: int, b: int|
                    0 <= a < n && 0 <= b < n && given[a] && given[b] && order@[a] == order@[b] ==> a == b,
                forall|r: int| 0 <= r < ones + t ==> #[trigger] rank_given(order@, given, r),
                forall|s: &Vec<bool>, b: bool| #[trigger] pick.requires((s, b)),
                forall|k: int|
                    0 <= k < n && #[trigger] pat[k] ==> picked(pick, shrink_at(pat, order@, given, order@[k] as int), true, k),
                forall|k: int|
                    0 <= k < n && #[trigger] given[k] && !pat[k] ==> picked(pick, grow_at(pat, order@, given, order@[k] as int), false, k),
            decreases n - ones - t,
        {
            let c = pick_cell(&pick, &fill, false);
            let rank: usize = ones + t;
            let ghost old_order = order@;
            let ghost old_given = given;
            let ghost old_fill = fill@;
            proof {
                lemma_count_flip(fill@, c as int, false);
            }
            fill.set(c, true);
            order.set(c, rank);
            proof {
                given = given.update(c as int, true);
                assert(grow_at(pat, order@, given, rank as int) =~= old_fill);
                assert forall|k: int| 0 <= k < n && #[trigger] pat[k] implies picked(pick, shrink_at(pat, order@, given, order@[k] as int), true, k) by {
                    assert(shrink_at(pat, order@, given, order@[k] as int) =~= shrink_at(pat, old_order, old_given, old_order[k] as int));
                }
                assert forall|k: int| 0 <= k < n && #[trigger] given[k] && !pat[k] implies picked(pick, grow_at(pat, order@, given, order@[k] as int), false, k) by {
                    if k != c {
                        assert(grow_at(pat, order@, given, order@[k] as int) =~= grow_at(pat, old_order, old_given, old_order[k] as int));
                    }
                }
                assert forall|r: int| 0 <= r < ones + t + 1 implies #[trigger] rank_given(order@, given, r) by {
                    if r == rank {
                        assert(order@[c as int] == r);
                    } else {
                        assert(rank_given(old_order, old_given, r));
                        let k = choose|k: int| 0 <= k < old_order.len() && old_given[k] && old_order[k] == r;
                        assert(k != c);
                        assert(given[k] && order@[k] == r);
                    }
                }
            }
            t += 1;
        }
        proof {
            assert forall|k: int| 0 <= k < n implies given[k] by {
                if !fill@[k] {
                    lemma_count_positive(fill@, k, false);
                }
            }
            assert(t == n - ones);
            assert forall|k: int| 0 <= k < w * h implies order@[k] < w * h by {
                assert(given[k]);
            }
            assert forall|a: int, b: int| 0 <= a < w * h && 0 <= b < w * h && order@[a] == order@[b] implies a == b by {
                assert(given[a] && given[b]);
            }
            assert forall|r: int| 0 <= r < w * h implies #[trigger] order@.contains(r as usize) by {
                assert(rank_given(order@, given, r));
                let k = choose|k: int| 0 <= k < order@.len() && given[k] && order@[k] == r;
                assert(order@[k] == r as usize);
            }
        }
        let ghost fo = order@;
        let ghost fg = given;
        let m = Self::from_row_major(w, h, order);
        proof {
            assert forall|k: int| 0 <= k < w * h implies (pattern@[k] <==> #[trigger] m.flat_rank(k) < count_of(pattern@, true)) by {
                assert(fg[k]);
            }
            assert forall|r: int| #[trigger] m.shrinking(pat, r) == shrink_at(pat, fo, fg, r) by {
                assert(m.shrinking(pat, r) =~= shrink_at(pat, fo, fg, r));
            }
            assert forall|r: int| #[trigger] m.growing(pat, r) == grow_at(pat, fo, fg, r) by {
                assert(m.growing(pat, r) =~= grow_at(pat, fo, fg, r));
            }
            assert forall|k: int| 0 <= k < w * h && pattern@[k] implies picked(pick, m.shrinking(pattern@, #[trigger] m.flat_rank(k)), true, k) by {
                assert(pat[k]);
                assert(m.shrinking(pat, m.flat_rank(k)) == shrink_at(pat, fo, fg, fo[k] as int));
            }
            assert forall|k: int| 0 <= k < w * h && !pattern@[k] implies picked(pick, m.growing(pattern@, #[trigger] m.flat_rank(k)), false, k) by {
                assert(fg[k]);
                assert(m.growing(pat, m.flat_rank(k)) == grow_at(pat, fo, fg, fo[k] as int));
            }
        }
        m
    }

    /// The Bayer matrix of order `n`, of side `2^n`.
    pub fn bayer(n: u32) -> (m: Self)
        requires
            n <= 15,
        ensures
            m.wf(),
            m.w == pow2(n as nat),
            m.h == pow2(n as nat),
            forall|x: int, y: int|
                0 <= x < m.w && 0 <= y < m.h ==> #[trigger] m.rank(x, y) == bayer_rank(n as nat, x, y),
            m.ranks_are_permutation(),
    {
        let mut d: usize = 1;
        let mut first: Vec<usize> = Vec::new();
        first.push(0);
        let mut order: Vec<Vec<usize>> = Vec::new();
        order.push(first);
        let mut k: u32 = 0;
        while k < n
            invariant
                n <= 15,
                k <= n,
                d == pow2(k as nat),
                order@.len() == d,
                forall|j: int| 0 <= j < d ==> (#[trigger] order@[j])@.len() == d,
                forall|x: int, y: int|
                    0 <= x < d && 0 <= y < d ==> #[trigger] order@[y]@[x] as int == bayer_rank(
                        k as nat,
                        x,
                        y,
                    ),
            decreases n - k,
        {
            proof {
                lemma_pow2_bounds(k as nat);
                lemma_pow2_monotone(k as nat, 14);
                reveal_with_fuel(pow2, 15);
            }
            let new_d: usize = d * 2;
            let ghost kn = (k + 1) as nat;
            assert(new_d == pow2(kn));
            let mut new_order: Vec<Vec<usize>> = Vec::new();
            let mut y: usize = 0;
            while y < new_d
                invariant
                    n <= 15,
                    k < n,
                    d == pow2(k as nat),
                    new_d == 2 * d,
                    new_d == pow2(kn),
                    kn == k + 1,
                    d <= 0x4000,
                    order@.len() == d,
                    forall|j: int| 0 <= j < d ==> (#[trigger] order@[j])@.len() == d,
                    forall|x: int, y: int|
                        0 <= x < d && 0 <= y < d ==> #[trigger] order@[y]@[x] as int == bayer_rank(
                            k as nat,
                            x,
                            y,
                        ),
                    y <= new_d,
                    new_order@.len() == y,
                    forall|j: int| 0 <= j < y ==> (#[trigger] new_order@[j])@.len() == new_d,
                    forall|x: int, j: int|
                        0 <= x < new_d && 0 <= j < y ==> #[trigger] new_order@[j]@[x] as int
                            == bayer_rank(kn, x, j),
                decreases new_d - y,
            {
                let ys: usize = if y < d { y } else { y - d };
                let mut row: Vec<usize> = Vec::new();
                let mut x: usize = 0;
                while x < new_d
                    invariant
                        n <= 15,
                        k < n,
                        d == pow2(k as nat),
                        new_d == 2 * d,
                        new_d == pow2(kn),
                        kn == k + 1,
                        d <= 0x4000,
                        order@.len() == d,
                        forall|j: int| 0 <= j < d ==> (#[trigger] order@[j])@.len() == d,
                        forall|x: int, y: int|
                            0 <= x < d && 0 <= y < d ==> #[trigger] order@[y]@[x] as int
                                == bayer_rank(k as nat, x, y),
                        y < new_d,
                        ys == (if y < d { y as int } else { y - d }),
                        x <= new_d,
                        row@.len() == x,
                        forall|i: int| 0 <= i < x ==> #[trigger] row@[i] as int == bayer_rank(kn, i, y as int),
                    decreases new_d - x,
                {
                    let xs: usize = if x < d { x } else { x - d };
                    let o: usize = order[ys][xs];
                    proof {
                        lemma_bayer_range(k as nat, xs as int, ys as int);
                        assert(o < d * d);
                        assert(4 * o + 3 <= 0x4000_0000) by (nonlinear_arith)
                            requires
                                o < d * d,
                                d <= 0x4000,
                        ;
                    }
                    let v: usize = if x < d && y < d {
                        4 * o
                    } else if y < d {
                        4 * o + 2
                    } else if x < d {
                        4 * o + 3
                    } else {
                        4 * o + 1
                    };
                    row.push(v);
                    x += 1;
                }
                new_order.push(row);
                y += 1;
            }
            d = new_d;
            order = new_order;
            k += 1;
        }
        let m = ThresholdMatrix { w: d, h: d, order };
        proof {
            let nn = n as nat;
            lemma_bayer_permutation(nn);
            assert forall|r: int| 0 <= r < m.w * m.h implies #[trigger] m.has_rank(r) by {
                assert(bayer_has_rank(nn, r));
                let (x, y) = choose|x: int, y: int|
                    0 <= x < pow2(nn) && 0 <= y < pow2(nn) && #[trigger] bayer_rank(nn, x, y) == r;
                assert(m.rank(x, y) == r);
            }
        }
        m
    }
}

/// How an image is reduced to a palette's colours.
#[derive(Clone, Copy, PartialEq, Eq, Structural, Debug)]
pub enum DitheringMethod {
    /// Nearest colour, no threshold.
    NoDither,
    /// The Bayer matrix of the given order.
    Bayer(u32),
    /// A random permutation of the given width and height.
    WhiteNoise(usize, usize),
    /// A void-and-cluster matrix of the given width and height.
    BlueNoise(usize, usize),
}

impl Default for DitheringMethod {
    fn default() -> (m: Self)
        ensures
            m == DitheringMethod::BlueNoise(14, 14),
    {
        DitheringMethod::BlueNoise(14, 14)
    }
}

/// Ordered dithering: each pixel's lightness is jittered by a threshold
/// matrix before the nearest palette colour is taken.
pub struct OrderedDither {}

/// Dithers an image by the method chosen.
pub struct Ditherer {}

} // verus!
