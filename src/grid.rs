use vstd::prelude::*;

use crate::math::{lemma_chain_le, lemma_mul_bound, oriented, push_new, sign_of};

verus! {

// Root marks of a cubic with plain integer coefficients on the integer
// grid: the same monotone-piece search as the solver in `math`, for the
// one-step differences of a quartic, whose coefficients are not multiples of
// the solver's fixed-point scale.

/// Largest grid point searched.
pub const GRID_LIMIT: i64 = 65536;

pub const A_LIMIT: i128 = 0x100_0000_0000_0000;

pub const B_LIMIT: i128 = 0x400_0000_0000_0000_0000;

pub const C_LIMIT: i128 = 0x400_0000_0000_0000_0000_0000;

pub const D_LIMIT: i128 = 0x100_0000_0000_0000_0000_0000_0000;

/// `a k^3 + b k^2 + c k + d`.
#[verifier::opaque]
pub open spec fn cubic_at(a: int, b: int, c: int, d: int, k: int) -> int {
    a * (k * k * k) + b * (k * k) + c * k + d
}

/// `k` marks a root of `f` in a window ending at `hi`: `f(k) == 0`, or (for
/// `k < hi`) `f` changes sign strictly between `k` and `k + 1`.
pub open spec fn is_root_mark(a: int, b: int, c: int, d: int, hi: int, k: int) -> bool {
    cubic_at(a, b, c, d, k) == 0 || (k < hi && sign_of(cubic_at(a, b, c, d, k)) * sign_of(
        cubic_at(a, b, c, d, k + 1),
    ) < 0)
}

/// Exact evaluation of `cubic_at`.
fn eval_plain(a: i128, b: i128, c: i128, d: i128, k: i64) -> (r: i128)
    requires
        solver_ok(a, b, c, d, 0, 0),
        0 <= k <= GRID_LIMIT + 1,
    ensures
        r == cubic_at(a as int, b as int, c as int, d as int, k as int),
        -0x8_0000_0000_0000_0000_0000_0000_0000 <= r <= 0x8_0000_0000_0000_0000_0000_0000_0000,
{
    proof {
        reveal(cubic_at);
    }
    let k1 = k as i128;
    proof {
        assert(0 <= k1 * k1 <= 0x4_0000_0000 && 0 <= k1 * k1 * k1 <= 0x8_0000_0000_0000)
            by (nonlinear_arith)
            requires
                0 <= k1 <= 0x1_0001,
        ;
        lemma_mul_bound(a as int, k1 * k1 * k1, A_LIMIT as int, 0x8_0000_0000_0000);
        lemma_mul_bound(b as int, k1 * k1, B_LIMIT as int, 0x4_0000_0000);
        lemma_mul_bound(c as int, k1 as int, C_LIMIT as int, 0x1_0001);
        assert(A_LIMIT * 0x8_0000_0000_0000 == 0x800_0000_0000_0000_0000_0000_0000);
        assert(B_LIMIT * 0x4_0000_0000 == 0x1000_0000_0000_0000_0000_0000_0000);
        assert(C_LIMIT * 0x1_0001 <= 0x800_0000_0000_0000_0000_0000_0000);
    }
    let k3 = k1 * k1 * k1;
    let k2 = k1 * k1;
    a * k3 + b * k2 + c * k1 + d
}

/// The forward differences of `f` on the grid. Level 0 is `F(k) =
/// cubic_at(k)`, level 1 is `F(k + 1) - F(k)`, level 2 is the difference of
/// level 1, which is `6a (k + 1) + 2b`.
#[verifier::opaque]
pub open spec fn level_at(level: int, a: int, b: int, c: int, d: int, k: int) -> int {
    if level == 0 {
        cubic_at(a, b, c, d, k)
    } else if level == 1 {
        cubic_at(a, b, c, d, k + 1) - cubic_at(a, b, c, d, k)
    } else {
        6 * a * (k + 1) + 2 * b
    }
}

/// `cubic_at` at `k`, `k + 1` and `k + 2`, as sums over the monomials of
/// `k`.
proof fn lemma_cubic_expand(a: int, b: int, c: int, d: int, k: int)
    ensures
        cubic_at(a, b, c, d, k) == a * (k * k * k) + b * (k * k) + c * k + d,
        cubic_at(a, b, c, d, k + 1) == a * (k * k * k) + 3 * (a * (k * k)) + 3 * (a * k) + a + b
            * (k * k) + 2 * (b * k) + b + c * k + c + d,
        cubic_at(a, b, c, d, k + 2) == a * (k * k * k) + 6 * (a * (k * k)) + 12 * (a * k) + 8 * a
            + b * (k * k) + 4 * (b * k) + 4 * b + c * k + 2 * c + d,
{
    reveal(cubic_at);
    let (m, n) = (k + 1, k + 2);
    assert(a * (m * m * m) == a * (k * k * k) + 3 * (a * (k * k)) + 3 * (a * k) + a)
        by (nonlinear_arith)
        requires
            m == k + 1,
    ;
    assert(b * (m * m) == b * (k * k) + 2 * (b * k) + b) by (nonlinear_arith)
        requires
            m == k + 1,
    ;
    assert(c * m == c * k + c) by (nonlinear_arith)
        requires
            m == k + 1,
    ;
    assert(a * (n * n * n) == a * (k * k * k) + 6 * (a * (k * k)) + 12 * (a * k) + 8 * a)
        by (nonlinear_arith)
        requires
            n == k + 2,
    ;
    assert(b * (n * n) == b * (k * k) + 4 * (b * k) + 4 * b) by (nonlinear_arith)
        requires
            n == k + 2,
    ;
    assert(c * n == c * k + 2 * c) by (nonlinear_arith)
        requires
            n == k + 2,
    ;
}

/// Each level is the forward difference of the one below it.
proof fn lemma_level_step(a: int, b: int, c: int, d: int, k: int)
    ensures
        level_at(1, a, b, c, d, k + 1) - level_at(1, a, b, c, d, k) == level_at(2, a, b, c, d, k),
        level_at(2, a, b, c, d, k + 1) - level_at(2, a, b, c, d, k) == 6 * a,
{
    reveal(level_at);
    lemma_cubic_expand(a, b, c, d, k);
    assert(k + 1 + 1 == k + 2);
    assert(6 * a * (k + 1) == 6 * (a * k) + 6 * a) by (nonlinear_arith);
    assert(6 * a * (k + 1 + 1) - 6 * a * (k + 1) == 6 * a) by (nonlinear_arith);
}

/// On `[p, q]` the level is monotone in the direction `dir` (`1` up, `-1`
/// down): `dir` times each step is not negative.
pub open spec fn monotone_on(level: int, a: int, b: int, c: int, d: int, p: int, q: int, dir: int) -> bool {
    forall|k: int| p <= k < q ==> oriented(dir, #[trigger] step_at(level, a, b, c, d, k)) >= 0
}

/// The step of a level from `k` to `k + 1`.
pub open spec fn step_at(level: int, a: int, b: int, c: int, d: int, k: int) -> int {
    level_at(level, a, b, c, d, k + 1) - level_at(level, a, b, c, d, k)
}

proof fn lemma_monotone(level: int, a: int, b: int, c: int, d: int, p: int, q: int, dir: int, i: int, j: int)
    requires
        monotone_on(level, a, b, c, d, p, q, dir),
        p <= i <= j <= q,
    ensures
        oriented(dir as int, level_at(level, a, b, c, d, i)) <= oriented(dir as int, level_at(level, a, b, c, d, j)),
    decreases j - i,
{
    if i < j {
        lemma_monotone(level, a, b, c, d, p, q, dir, i, j - 1);
        let (u, v) = (level_at(level, a, b, c, d, j - 1), level_at(level, a, b, c, d, j));
        assert(oriented(dir, step_at(level, a, b, c, d, j - 1)) >= 0);
    }
}

/// The coefficients and the window are in range.
pub open spec fn solver_ok(a: i128, b: i128, c: i128, d: i128, lo: i64, hi: i64) -> bool {
    &&& -A_LIMIT <= a <= A_LIMIT
    &&& -B_LIMIT <= b <= B_LIMIT
    &&& -C_LIMIT <= c <= C_LIMIT
    &&& -D_LIMIT <= d <= D_LIMIT
    &&& 0 <= lo <= hi <= GRID_LIMIT
}

/// Exact evaluation of `level_at` at a point of the window.
fn eval_level(level: i8, a: i128, b: i128, c: i128, d: i128, k: i64) -> (r: i128)
    requires
        0 <= level <= 2,
        solver_ok(a, b, c, d, 0, 0),
        0 <= k <= GRID_LIMIT,
    ensures
        r == level_at(level as int, a as int, b as int, c as int, d as int, k as int),
{
    proof {
        reveal(level_at);
    }
    if level == 0 {
        eval_plain(a, b, c, d, k)
    } else if level == 1 {
        eval_plain(a, b, c, d, k + 1) - eval_plain(a, b, c, d, k)
    } else {
        proof {
            lemma_mul_bound(a as int, (k + 1) as int, A_LIMIT as int, 0x2_0000);
            assert(A_LIMIT * 0x2_0000 == 0x200_0000_0000_0000_0000);
            assert(6 * a * (k + 1) == 6 * (a * (k + 1))) by (nonlinear_arith);
        }
        6 * (a * (k as i128 + 1)) + 2 * b
    }
}

/// The first `m` in `[p, q + 1]` from which `dir` times the level is not
/// negative, on a piece where the level is monotone in the direction
/// `dir`.
#[verifier::rlimit(50)]
fn first_nonneg(level: i8, a: i128, b: i128, c: i128, d: i128, p: i64, q: i64, dir: i8) -> (m: i64)
    requires
        0 <= level <= 2,
        solver_ok(a, b, c, d, p, q),
        dir == 1 || dir == -1,
        monotone_on(level as int, a as int, b as int, c as int, d as int, p as int, q as int, dir as int),
    ensures
        p <= m <= q + 1,
        forall|k: int|
            p <= k < m ==> oriented(dir as int, #[trigger] level_at(level as int, a as int, b as int, c as int, d as int, k))
                < 0,
        forall|k: int|
            m <= k <= q ==> oriented(dir as int, #[trigger] level_at(level as int, a as int, b as int, c as int, d as int, k))
                >= 0,
{
    let ghost (ia, ib, ic, id) = (a as int, b as int, c as int, d as int);
    let ghost lv = level as int;
    let vq = eval_level(level, a, b, c, d, q);
    let vp = eval_level(level, a, b, c, d, p);
    let neg_q = if dir == 1 { vq < 0 } else { vq > 0 };
    let nonneg_p = if dir == 1 { vp >= 0 } else { vp <= 0 };
    if neg_q {
        proof {
            assert forall|k: int| p <= k < q + 1 implies oriented(dir as int, #[trigger] level_at(lv, ia, ib, ic, id, k)) < 0 by {
                lemma_monotone(lv, ia, ib, ic, id, p as int, q as int, dir as int, k, q as int);
            }
        }
        return q + 1;
    }
    if nonneg_p {
        proof {
            assert forall|k: int| p <= k <= q implies oriented(dir as int, #[trigger] level_at(lv, ia, ib, ic, id, k)) >= 0 by {
                lemma_monotone(lv, ia, ib, ic, id, p as int, q as int, dir as int, p as int, k);
            }
        }
        return p;
    }
    // `dir` times the level is negative at `lo` and not negative at `hi`.
    let mut lo = p;
    let mut hi = q;
    while hi - lo > 1
        invariant
            0 <= level <= 2,
            solver_ok(a, b, c, d, p, q),
            dir == 1 || dir == -1,
            p <= lo < hi <= q,
            oriented(dir as int, level_at(lv, ia, ib, ic, id, lo as int)) < 0,
            oriented(dir as int, level_at(lv, ia, ib, ic, id, hi as int)) >= 0,
            lv == level,
            ia == a && ib == b && ic == c && id == d,
        decreases hi - lo,
    {
        let mid = lo + (hi - lo) / 2;
        let v = eval_level(level, a, b, c, d, mid);
        let nonneg = if dir == 1 { v >= 0 } else { v <= 0 };
        if nonneg {
            hi = mid;
        } else {
            lo = mid;
        }
    }
    proof {
        assert forall|k: int| p <= k < hi implies oriented(dir as int, #[trigger] level_at(lv, ia, ib, ic, id, k)) < 0 by {
            lemma_monotone(lv, ia, ib, ic, id, p as int, q as int, dir as int, k, lo as int);
        }
        assert forall|k: int| hi <= k <= q implies oriented(dir as int, #[trigger] level_at(lv, ia, ib, ic, id, k)) >= 0 by {
            lemma_monotone(lv, ia, ib, ic, id, p as int, q as int, dir as int, hi as int, k);
        }
    }
    hi
}

/// Pieces `(p, q, dir)` that cover `[lo, hi]` in order, each sharing its
/// start with the end of the one before, on each of which the level is
/// monotone in the direction `dir`.
pub open spec fn pieces_ok(
    level: int,
    a: int,
    b: int,
    c: int,
    d: int,
    lo: int,
    hi: int,
    ps: Seq<(i64, i64, i8)>,
) -> bool {
    &&& ps.len() >= 1
    &&& ps[0].0 == lo
    &&& ps.last().1 == hi
    &&& forall|i: int| 0 <= i < ps.len() - 1 ==> (#[trigger] ps[i]).1 == ps[i + 1].0
    &&& forall|i: int|
        0 <= i < ps.len() ==> {
            let (p, q, dir) = #[trigger] ps[i];
            &&& lo <= p <= q <= hi
            &&& (dir == 1 || dir == -1)
            &&& monotone_on(level, a, b, c, d, p as int, q as int, dir as int)
        }
}

/// A point of `[lo, hi]` lies in some piece, and for `k < hi` so does the
/// step from `k` to `k + 1`.
proof fn lemma_pieces_cover(
    level: int,
    a: int,
    b: int,
    c: int,
    d: int,
    lo: int,
    hi: int,
    ps: Seq<(i64, i64, i8)>,
    k: int,
)
    requires
        pieces_ok(level, a, b, c, d, lo, hi, ps),
        lo <= k <= hi,
    ensures
        exists|i: int|
            0 <= i < ps.len() && (#[trigger] ps[i]).0 <= k <= ps[i].1 && (k < hi ==> k < ps[i].1),
    decreases ps.len(),
{
    let n = ps.len();
    if n == 1 {
        assert(ps[0].0 <= k <= ps[0].1 && (k < hi ==> k < ps[0].1));
    } else if k < ps[n - 1].0 {
        let init = ps.drop_last();
        assert forall|i: int| 0 <= i < init.len() - 1 implies (#[trigger] init[i]).1 == init[i + 1].0 by {
            assert(init[i] == ps[i] && init[i + 1] == ps[i + 1]);
        }
        assert forall|i: int| 0 <= i < init.len() implies {
            let (p, q, dir) = #[trigger] init[i];
            &&& lo <= p <= q <= ps[n - 1].0
            &&& (dir == 1 || dir == -1)
            &&& monotone_on(level, a, b, c, d, p as int, q as int, dir as int)
        } by {
            assert(init[i] == ps[i]);
            lemma_chain_le(ps, i, n - 2);
            assert(ps[n - 2].1 == ps[n - 1].0);
        }
        assert(init.last() == ps[n - 2]);
        assert(init.last().1 == ps[n - 1].0);
        lemma_pieces_cover(level, a, b, c, d, lo, ps[n - 1].0 as int, init, k);
        let i = choose|i: int|
            0 <= i < init.len() && (#[trigger] init[i]).0 <= k <= init[i].1 && (k < ps[n - 1].0
                ==> k < init[i].1);
        assert(ps[i] == init[i]);
    } else {
        assert(ps[n - 1].0 <= k <= ps[n - 1].1 && (k < hi ==> k < ps[n - 1].1));
    }
}

/// Splits every piece of `level` where the level changes sign; the level
/// below is monotone on the new pieces.
#[verifier::rlimit(50)]
fn refine(level: i8, a: i128, b: i128, c: i128, d: i128, lo: i64, hi: i64, ps: &Vec<(i64, i64, i8)>) -> (r: Vec<
    (i64, i64, i8),
>)
    requires
        1 <= level <= 2,
        solver_ok(a, b, c, d, lo, hi),
        pieces_ok(level as int, a as int, b as int, c as int, d as int, lo as int, hi as int, ps@),
    ensures
        pieces_ok(level - 1, a as int, b as int, c as int, d as int, lo as int, hi as int, r@),
{
    let ghost (ia, ib, ic, id) = (a as int, b as int, c as int, d as int);
    let ghost lv = level as int;
    let mut out: Vec<(i64, i64, i8)> = Vec::new();
    let mut i: usize = 0;
    while i < ps.len()
        invariant
            1 <= level <= 2,
            lv == level,
            ia == a && ib == b && ic == c && id == d,
            solver_ok(a, b, c, d, lo, hi),
            pieces_ok(lv, ia, ib, ic, id, lo as int, hi as int, ps@),
            0 <= i <= ps@.len(),
            i == 0 ==> out@.len() == 0,
            i > 0 ==> out@.len() >= 1 && out@[0].0 == lo && out@.last().1 == ps@[i - 1].1,
            forall|j: int| 0 <= j < out@.len() - 1 ==> (#[trigger] out@[j]).1 == out@[j + 1].0,
            forall|j: int|
                0 <= j < out@.len() ==> {
                    let (p, q, dir) = #[trigger] out@[j];
                    &&& lo <= p <= q <= hi
                    &&& (dir == 1 || dir == -1)
                    &&& monotone_on(lv - 1, ia, ib, ic, id, p as int, q as int, dir as int)
                },
        decreases ps@.len() - i,
    {
        let (p, q, dir) = ps[i];
        assert(ps@[i as int] == (p, q, dir));
        let m = first_nonneg(level, a, b, c, d, p, q, dir);
        let ghost before = out@;
        proof {
            assert forall|k: int| p <= k < q implies #[trigger] step_at(lv - 1, ia, ib, ic, id, k)
                == level_at(lv, ia, ib, ic, id, k) by {
                reveal(level_at);
                lemma_level_step(ia, ib, ic, id, k);
            }
            if i > 0 {
                assert(ps@[i - 1].1 == ps@[i as int].0);
            }
        }
        if m > q {
            out.push((p, q, -dir));
            proof {
                assert(monotone_on(lv - 1, ia, ib, ic, id, p as int, q as int, -dir as int)) by {
                    assert forall|k: int| p <= k < q implies oriented(-dir as int, #[trigger] step_at(lv - 1, ia, ib, ic, id, k)) >= 0 by {
                        assert(oriented(dir as int, level_at(lv, ia, ib, ic, id, k)) < 0);
                    }
                }
            }
        } else {
            if m > p {
                out.push((p, m, -dir));
                proof {
                    assert(monotone_on(lv - 1, ia, ib, ic, id, p as int, m as int, -dir as int)) by {
                        assert forall|k: int| p <= k < m implies oriented(-dir as int, #[trigger] step_at(lv - 1, ia, ib, ic, id, k)) >= 0 by {
                            assert(oriented(dir as int, level_at(lv, ia, ib, ic, id, k)) < 0);
                        }
                    }
                }
            }
            let ghost mid = out@;
            out.push((m, q, dir));
            proof {
                assert(monotone_on(lv - 1, ia, ib, ic, id, m as int, q as int, dir as int)) by {
                    assert forall|k: int| m <= k < q implies oriented(dir as int, #[trigger] step_at(lv - 1, ia, ib, ic, id, k)) >= 0 by {
                        assert(oriented(dir as int, level_at(lv, ia, ib, ic, id, k)) >= 0);
                    }
                }
                assert(out@.drop_last() == mid);
            }
        }
        proof {
            assert forall|j: int| 0 <= j < out@.len() - 1 implies (#[trigger] out@[j]).1 == out@[j + 1].0 by {
                if j < before.len() - 1 {
                    assert(out@[j] == before[j] && out@[j + 1] == before[j + 1]);
                } else if j == before.len() - 1 {
                    assert(out@[j] == before[j]);
                }
            }
            assert forall|j: int| 0 <= j < out@.len() implies {
                let (p, q, dir) = #[trigger] out@[j];
                &&& lo <= p <= q <= hi
                &&& (dir == 1 || dir == -1)
                &&& monotone_on(lv - 1, ia, ib, ic, id, p as int, q as int, dir as int)
            } by {
                if j < before.len() {
                    assert(out@[j] == before[j]);
                }
            }
            if i == 0 {
                assert(out@[0].0 == p);
            } else {
                assert(out@[0] == before[0]);
            }
        }
        i = i + 1;
    }
    out
}

/// Level 0 is the polynomial itself.
proof fn lemma_level0(a: int, b: int, c: int, d: int)
    ensures
        forall|k: int| #[trigger] level_at(0, a, b, c, d, k) == cubic_at(a, b, c, d, k),
{
    reveal(level_at);
}

/// A sorted list of root marks within `[lo, hi]`.
pub open spec fn marks_sorted(a: int, b: int, c: int, d: int, lo: int, hi: int, v: Seq<i64>) -> bool {
    &&& forall|j: int|
        0 <= j < v.len() ==> lo <= #[trigger] v[j] <= hi && is_root_mark(a, b, c, d, hi, v[j] as int)
    &&& forall|j: int, l: int| 0 <= j < l < v.len() ==> v[j] < v[l]
}

/// Appends a root mark not below the last one.
fn push_mark(a: i128, b: i128, c: i128, d: i128, lo: i64, hi: i64, v: &mut Vec<i64>, x: i64)
    requires
        marks_sorted(a as int, b as int, c as int, d as int, lo as int, hi as int, old(v)@),
        old(v)@.len() > 0 ==> old(v)@.last() <= x,
        lo <= x <= hi,
        is_root_mark(a as int, b as int, c as int, d as int, hi as int, x as int),
    ensures
        marks_sorted(a as int, b as int, c as int, d as int, lo as int, hi as int, final(v)@),
        final(v)@.len() > 0,
        final(v)@.last() == x,
        final(v)@.contains(x),
        forall|y: i64| #[trigger] old(v)@.contains(y) ==> final(v)@.contains(y),
{
    let ghost prev = v@;
    push_new(v, x);
    proof {
        assert(v@[v@.len() - 1] == x);
        assert forall|y: i64| #[trigger] prev.contains(y) implies v@.contains(y) by {
            assert(prev.to_set().contains(y));
            assert(v@.to_set().contains(y));
        }
        if !(prev.len() > 0 && prev.last() == x) {
            assert(v@ == prev.push(x));
            assert forall|j: int, l: int| 0 <= j < l < v@.len() implies v@[j] < v@[l] by {
                if l == v@.len() - 1 && j < prev.len() {
                    assert(v@[j] == prev[j]);
                    assert(prev[j] <= prev.last());
                    if j < prev.len() - 1 {
                        assert(prev[j] < prev[prev.len() - 1]);
                    }
                    assert(prev.last() < x);
                } else {
                    assert(v@[j] == prev[j] && v@[l] == prev[l]);
                }
            }
            assert forall|j: int| 0 <= j < v@.len() implies lo <= #[trigger] v@[j] <= hi
                && is_root_mark(a as int, b as int, c as int, d as int, hi as int, v@[j] as int) by {
                if j < prev.len() {
                    assert(v@[j] == prev[j]);
                }
            }
        }
    }
}

/// Reports the root marks of one piece `[p, q]` on which `f` is monotone
/// in the direction `dir`.
#[verifier::rlimit(50)]
fn report_piece(
    a: i128,
    b: i128,
    c: i128,
    d: i128,
    lo: i64,
    hi: i64,
    p: i64,
    q: i64,
    dir: i8,
    roots: &mut Vec<i64>,
)
    requires
        solver_ok(a, b, c, d, lo, hi),
        lo <= p <= q <= hi,
        dir == 1 || dir == -1,
        monotone_on(0, a as int, b as int, c as int, d as int, p as int, q as int, dir as int),
        marks_sorted(a as int, b as int, c as int, d as int, lo as int, hi as int, old(roots)@),
        old(roots)@.len() > 0 ==> old(roots)@.last() <= p,
    ensures
        marks_sorted(a as int, b as int, c as int, d as int, lo as int, hi as int, final(roots)@),
        final(roots)@.len() > 0 ==> final(roots)@.last() <= q,
        forall|y: i64| #[trigger] old(roots)@.contains(y) ==> final(roots)@.contains(y),
        forall|x: int|
            p <= x <= q && #[trigger] is_root_mark(a as int, b as int, c as int, d as int, hi as int, x)
                && (x < q || cubic_at(a as int, b as int, c as int, d as int, x) == 0)
                ==> final(roots)@.contains(x as i64),
{
    let ghost (ia, ib, ic, id) = (a as int, b as int, c as int, d as int);
    proof {
        lemma_level0(ia, ib, ic, id);
    }
    let m = first_nonneg(0, a, b, c, d, p, q, dir);
    let ghost start = roots@;
    let mut changed = false;
    if p < m && m <= q {
        let fm = eval_plain(a, b, c, d, m);
        if fm != 0 {
            proof {
                let (u, v) = (cubic_at(ia, ib, ic, id, m - 1), cubic_at(ia, ib, ic, id, m as int));
                assert(level_at(0, ia, ib, ic, id, m - 1) == u);
                assert(level_at(0, ia, ib, ic, id, m as int) == v);
                assert(sign_of(u) * sign_of(v) < 0) by {
                    if dir == 1 {
                        assert(u < 0 && v > 0);
                    } else {
                        assert(u > 0 && v < 0);
                    }
                }
                assert(is_root_mark(ia, ib, ic, id, hi as int, m - 1));
            }
            push_mark(a, b, c, d, lo, hi, roots, m - 1);
            changed = true;
        }
    }
    let ghost after_change = roots@;
    let mut k = m;
    while k <= q && eval_plain(a, b, c, d, k) == 0
        invariant
            solver_ok(a, b, c, d, lo, hi),
            ia == a && ib == b && ic == c && id == d,
            lo <= p <= q <= hi,
            p <= m <= k <= q + 1,
            marks_sorted(ia, ib, ic, id, lo as int, hi as int, roots@),
            roots@.len() > 0 ==> roots@.last() <= k,
            roots@.len() > 0 ==> roots@.last() <= q,
            forall|y: i64| #[trigger] start.contains(y) ==> roots@.contains(y),
            forall|y: i64| #[trigger] after_change.contains(y) ==> roots@.contains(y),
            forall|j: int| m <= j < k ==> #[trigger] roots@.contains(j as i64),
        decreases q + 1 - k,
    {
        let ghost prev = roots@;
        push_mark(a, b, c, d, lo, hi, roots, k);
        proof {
            assert forall|j: int| m <= j < k + 1 implies #[trigger] roots@.contains(j as i64) by {
                if j < k {
                    assert(prev.contains(j as i64));
                } else {
                    assert(j as i64 == k);
                }
            }
        }
        k = k + 1;
    }
    proof {
        assert forall|x: int|
            p <= x <= q && #[trigger] is_root_mark(ia, ib, ic, id, hi as int, x) && (x < q
                || cubic_at(ia, ib, ic, id, x) == 0) implies roots@.contains(x as i64) by {
            let fx = cubic_at(ia, ib, ic, id, x);
            assert(level_at(0, ia, ib, ic, id, x) == fx);
            if fx == 0 {
                assert(x >= m);
                if x >= k {
                    lemma_monotone(0, ia, ib, ic, id, p as int, q as int, dir as int, m as int, k as int);
                    lemma_monotone(0, ia, ib, ic, id, p as int, q as int, dir as int, k as int, x);
                    assert(level_at(0, ia, ib, ic, id, k as int) == cubic_at(ia, ib, ic, id, k as int));
                    assert(false);
                }
            } else {
                let fx1 = cubic_at(ia, ib, ic, id, x + 1);
                assert(level_at(0, ia, ib, ic, id, x + 1) == fx1);
                assert(x < q);
                lemma_monotone(0, ia, ib, ic, id, p as int, q as int, dir as int, x, x + 1);
                if dir == 1 {
                    assert(fx < 0 && fx1 > 0);
                } else {
                    assert(fx > 0 && fx1 < 0);
                }
                assert(x < m && x + 1 >= m);
                assert(level_at(0, ia, ib, ic, id, m as int) == fx1);
                assert(after_change.contains(x as i64));
            }
        }
    }
}

/// Every root mark of `f` in `[lo, hi]`, in increasing order.
pub(crate) fn roots_in(a: i128, b: i128, c: i128, d: i128, lo: i64, hi: i64) -> (r: Vec<i64>)
    requires
        solver_ok(a, b, c, d, lo, hi),
    ensures
        marks_sorted(a as int, b as int, c as int, d as int, lo as int, hi as int, r@),
        forall|k: int|
            lo <= k <= hi && #[trigger] is_root_mark(a as int, b as int, c as int, d as int, hi as int, k)
                ==> r@.contains(k as i64),
{
    let ghost (ia, ib, ic, id) = (a as int, b as int, c as int, d as int);
    // The second difference `6a (k + 1) + 2bT` moves by `6a` at each step.
    let dir2: i8 = if a >= 0 { 1 } else { -1 };
    let mut top: Vec<(i64, i64, i8)> = Vec::new();
    top.push((lo, hi, dir2));
    proof {
        assert(monotone_on(2, ia, ib, ic, id, lo as int, hi as int, dir2 as int)) by {
            assert forall|k: int| lo <= k < hi implies oriented(dir2 as int, #[trigger] step_at(2, ia, ib, ic, id, k)) >= 0 by {
                lemma_level_step(ia, ib, ic, id, k);
            }
        }
        assert(top@[0] == (lo, hi, dir2));
    }
    let mid = refine(2, a, b, c, d, lo, hi, &top);
    let ps = refine(1, a, b, c, d, lo, hi, &mid);
    let mut roots: Vec<i64> = Vec::new();
    let mut i: usize = 0;
    while i < ps.len()
        invariant
            solver_ok(a, b, c, d, lo, hi),
            ia == a && ib == b && ic == c && id == d,
            pieces_ok(0, ia, ib, ic, id, lo as int, hi as int, ps@),
            0 <= i <= ps@.len(),
            marks_sorted(ia, ib, ic, id, lo as int, hi as int, roots@),
            roots@.len() > 0 && i < ps@.len() ==> roots@.last() <= ps@[i as int].0,
            forall|l: int, k: int|
                #![trigger ps@[l], is_root_mark(ia, ib, ic, id, hi as int, k)]
                0 <= l < i && ps@[l].0 <= k <= ps@[l].1 && is_root_mark(ia, ib, ic, id, hi as int, k)
                    && (k < ps@[l].1 || cubic_at(ia, ib, ic, id, k) == 0) ==> roots@.contains(k as i64),
        decreases ps@.len() - i,
    {
        let (p, q, dir) = ps[i];
        assert(ps@[i as int] == (p, q, dir));
        let ghost before = roots@;
        report_piece(a, b, c, d, lo, hi, p, q, dir, &mut roots);
        proof {
            assert forall|l: int, x: int|
                #![trigger ps@[l], is_root_mark(ia, ib, ic, id, hi as int, x)]
                0 <= l < i + 1 && ps@[l].0 <= x <= ps@[l].1 && is_root_mark(ia, ib, ic, id, hi as int, x)
                    && (x < ps@[l].1 || cubic_at(ia, ib, ic, id, x) == 0) implies roots@.contains(
                x as i64,
            ) by {
                if l < i {
                    assert(before.contains(x as i64));
                } else {
                    assert(ps@[l] == (p, q, dir));
                }
            }
            if i + 1 < ps@.len() {
                assert(ps@[i as int].1 == ps@[i + 1].0);
            }
        }
        i = i + 1;
    }
    proof {
        assert forall|x: int|
            lo <= x <= hi && #[trigger] is_root_mark(ia, ib, ic, id, hi as int, x) implies roots@.contains(
            x as i64,
        ) by {
            lemma_pieces_cover(0, ia, ib, ic, id, lo as int, hi as int, ps@, x);
            let l = choose|l: int|
                0 <= l < ps@.len() && (#[trigger] ps@[l]).0 <= x <= ps@[l].1 && (x < hi ==> x < ps@[l].1);
            if cubic_at(ia, ib, ic, id, x) != 0 {
                assert(x < hi);
            }
        }
    }
    roots
}


} // verus!
