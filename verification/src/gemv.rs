//! Serial matrix-vector kernels: `dst = alpha * dst + beta * lhs * rhs`.
//!
//! The contracts fix every rounding step: they give each destination entry as an expression over
//! the operations of [`Element`] and [`MixedSimd`], in the order in which the kernel applies them.
use crate::element::Element;
use crate::simd::{MixedSimd, Simd};
use crate::strides::{
    column, gather, lemma_rewritten_next, lemma_rewritten_rest, rewritten, scatter, Strides,
};
use vstd::prelude::*;

verus! {

/// `init`, then `x[start + t * step] * y[start + t * step]` added on for each `t` below `n` in
/// turn.
pub open spec fn chain<Lhs, Rhs, Dst, Acc: Element, S: MixedSimd<Lhs, Rhs, Dst, Acc>>(
    simd: S,
    x: Seq<Acc>,
    y: Seq<Acc>,
    start: int,
    step: int,
    n: nat,
    init: Acc,
) -> Acc
    decreases n,
{
    if n == 0 {
        init
    } else {
        let t = n - 1;
        simd.mult_add_spec(
            x[start + t * step],
            y[start + t * step],
            chain(simd, x, y, start, step, (n - 1) as nat, init),
        )
    }
}

/// What lane `l` has gathered once every full vector of `x` and `y` has been multiplied: eight
/// running sums over every eighth vector, added up pairwise, then the vectors left over.
pub open spec fn lane_sum<Lhs, Rhs, Dst, Acc: Element, S: MixedSimd<Lhs, Rhs, Dst, Acc>>(
    simd: S,
    x: Seq<Acc>,
    y: Seq<Acc>,
    l: int,
) -> Acc {
    let w = S::width() as int;
    let blocks = x.len() as int / (8 * w);
    let part = |j: int| chain(simd, x, y, j * w + l, 8 * w, blocks as nat, Acc::zero_spec());
    let low = simd.add_spec(
        simd.add_spec(part(0), part(1)),
        simd.add_spec(part(2), part(3)),
    );
    let high = simd.add_spec(
        simd.add_spec(part(4), part(5)),
        simd.add_spec(part(6), part(7)),
    );
    chain(
        simd,
        x,
        y,
        blocks * (8 * w) + l,
        w,
        (x.len() as int / w - 8 * blocks) as nat,
        simd.add_spec(low, high),
    )
}

/// The first `n` lanes added up from left to right.
pub open spec fn lanes_total<Lhs, Rhs, Dst, Acc: Element, S: MixedSimd<Lhs, Rhs, Dst, Acc>>(
    simd: S,
    x: Seq<Acc>,
    y: Seq<Acc>,
    n: int,
) -> Acc
    decreases n,
{
    if n <= 1 {
        lane_sum(simd, x, y, 0)
    } else {
        simd.add_spec(lanes_total(simd, x, y, n - 1), lane_sum(simd, x, y, n - 1))
    }
}

/// The dot product of `x` and `y` in the order of the row-major kernel: full vectors lane by
/// lane, the lanes added up, then the entries that fill no vector.
pub open spec fn dot<Lhs, Rhs, Dst, Acc: Element, S: MixedSimd<Lhs, Rhs, Dst, Acc>>(
    simd: S,
    x: Seq<Acc>,
    y: Seq<Acc>,
) -> Acc {
    let w = S::width() as int;
    let vectors = x.len() as int / w;
    chain(
        simd,
        x,
        y,
        vectors * w,
        1,
        (x.len() - vectors * w) as nat,
        lanes_total(simd, x, y, w),
    )
}

/// `beta * acc + alpha * dst`, where `dst` is not looked at if `alpha` is zero.
pub open spec fn epilogue<Lhs, Rhs, Dst, Acc: Element, S: MixedSimd<Lhs, Rhs, Dst, Acc>>(
    simd: S,
    alpha: Acc,
    beta: Acc,
    acc: Acc,
    dst: Dst,
) -> Dst {
    if alpha.is_zero_spec() {
        simd.into_dst_spec(simd.mult_spec(acc, beta))
    } else {
        simd.into_dst_spec(
            simd.add_spec(
                simd.mult_spec(acc, beta),
                simd.mult_spec(simd.from_dst_spec(dst), alpha),
            ),
        )
    }
}

/// The lanes `l` of a vector of running sums, each a [`chain`] from `start + l`.
pub open spec fn lane_chains<Lhs, Rhs, Dst, Acc: Element, S: MixedSimd<Lhs, Rhs, Dst, Acc>>(
    simd: S,
    x: Seq<Acc>,
    y: Seq<Acc>,
    start: int,
    step: int,
    n: nat,
    init: Seq<Acc>,
) -> Seq<Acc> {
    Seq::new(S::width(), |l: int| chain(simd, x, y, start + l, step, n, init[l]))
}

/// `k` left-hand operands from position `at` on, as accumulators.
pub open spec fn lhs_run<Lhs, Rhs, Dst, Acc: Element, S: MixedSimd<Lhs, Rhs, Dst, Acc>>(
    simd: S,
    lhs: Seq<Lhs>,
    at: int,
    k: int,
) -> Seq<Acc> {
    Seq::new(k as nat, |d: int| simd.from_lhs_spec(lhs[at + d]))
}

/// `k` right-hand operands from position `at` on, as accumulators.
pub open spec fn rhs_run<Lhs, Rhs, Dst, Acc: Element, S: MixedSimd<Lhs, Rhs, Dst, Acc>>(
    simd: S,
    rhs: Seq<Rhs>,
    at: int,
    k: int,
) -> Seq<Acc> {
    Seq::new(k as nat, |d: int| simd.from_rhs_spec(rhs[at + d]))
}

/// Multiplies the vectors at `depth` and adds them to the running sums in `acc`.
fn absorb<
    Lhs: Copy,
    Rhs: Copy,
    Dst: Copy,
    Acc: Element,
    S: MixedSimd<Lhs, Rhs, Dst, Acc>,
>(
    simd: S,
    lhs: &[Lhs],
    lhs_at: usize,
    rhs: &[Rhs],
    rhs_at: usize,
    depth: usize,
    acc: S::AccN,
    Ghost(k): Ghost<int>,
    Ghost(start): Ghost<int>,
    Ghost(step): Ghost<int>,
    Ghost(t): Ghost<nat>,
    Ghost(init): Ghost<Seq<Acc>>,
) -> (r: S::AccN)
    requires
        depth + S::width() <= k,
        lhs_at + k <= lhs@.len(),
        rhs_at + k <= rhs@.len(),
        depth == start + t * step,
        simd.acc_lanes(acc) == lane_chains(
            simd,
            lhs_run(simd, lhs@, lhs_at as int, k),
            rhs_run(simd, rhs@, rhs_at as int, k),
            start,
            step,
            t,
            init,
        ),
    ensures
        simd.acc_lanes(r) == lane_chains(
            simd,
            lhs_run(simd, lhs@, lhs_at as int, k),
            rhs_run(simd, rhs@, rhs_at as int, k),
            start,
            step,
            t + 1,
            init,
        ),
{
    let ghost lhs_len = lhs.len();
    let ghost rhs_len = rhs.len();
    let a = simd.load_lhs(lhs, lhs_at + depth);
    let b = simd.load_rhs(rhs, rhs_at + depth);
    let r = simd.simd_mult_add(simd.simd_from_lhs(a), simd.simd_from_rhs(b), acc);
    proof {
        let x = lhs_run(simd, lhs@, lhs_at as int, k);
        let y = rhs_run(simd, rhs@, rhs_at as int, k);
        let next = lane_chains(simd, x, y, start, step, t + 1, init);
        assert forall|l: int| 0 <= l < S::width() implies simd.acc_lanes(r)[l] == next[l] by {
            assert((start + l) + t * step == depth + l);
        }
        assert(simd.acc_lanes(r) =~= next);
    }
    r
}

/// The dot product of `k` consecutive entries of `lhs` and of `rhs`.
fn dot_product<
    Lhs: Copy,
    Rhs: Copy,
    Dst: Copy,
    Acc: Element,
    S: MixedSimd<Lhs, Rhs, Dst, Acc>,
>(simd: S, lhs: &[Lhs], lhs_at: usize, rhs: &[Rhs], rhs_at: usize, k: usize) -> (r: Acc)
    requires
        lhs_at + k <= lhs@.len(),
        rhs_at + k <= rhs@.len(),
    ensures
        r == dot(
            simd,
            lhs_run(simd, lhs@, lhs_at as int, k as int),
            rhs_run(simd, rhs@, rhs_at as int, k as int),
        ),
{
    let ghost x = lhs_run(simd, lhs@, lhs_at as int, k as int);
    let ghost y = rhs_run(simd, rhs@, rhs_at as int, k as int);
    let lhs_len: usize = lhs.len();
    let rhs_len: usize = rhs.len();
    let lane: usize = S::simd_width();
    let lane8: usize = 8 * lane;
    let ghost w = lane as int;
    let ghost blocks = k as int / (8 * w);
    let ghost vectors = k as int / w;
    proof {
        assert(blocks * lane8 <= k && 8 * blocks <= vectors && vectors * w <= k && blocks >= 0
            && (vectors + 1) * w > k) by (nonlinear_arith)
            requires
                w > 0,
                lane8 == 8 * w,
                k >= 0,
                blocks == k as int / (8 * w),
                vectors == k as int / w,
        ;
    }
    let k_lane: usize = k / lane * lane;
    let k_lane8: usize = k / lane8 * lane8;
    let splat = simd.simd_splat(Acc::zero());
    let ghost zeros = Seq::new(S::width(), |l: int| Acc::zero_spec());
    let mut acc0 = splat;
    let mut acc1 = splat;
    let mut acc2 = splat;
    let mut acc3 = splat;
    let mut acc4 = splat;
    let mut acc5 = splat;
    let mut acc6 = splat;
    let mut acc7 = splat;
    let mut depth: usize = 0;
    let ghost mut t: nat = 0;
    proof {
        assert forall|s: int, step: int| #[trigger]
            lane_chains(simd, x, y, s, step, 0, zeros) =~= zeros by {}
    }
    while depth < k_lane8
        invariant
            depth == t * (8 * w),
            t <= blocks,
            w == lane,
            w > 0,
            lane == S::width(),
            lane8 == 8 * w,
            k_lane8 == blocks * lane8,
            blocks * lane8 <= k,
            lhs_at + k <= lhs@.len(),
            rhs_at + k <= rhs@.len(),
            x == lhs_run(simd, lhs@, lhs_at as int, k as int),
            y == rhs_run(simd, rhs@, rhs_at as int, k as int),
            simd.acc_lanes(acc0) == lane_chains(simd, x, y, 0 * w, 8 * w, t, zeros),
            simd.acc_lanes(acc1) == lane_chains(simd, x, y, 1 * w, 8 * w, t, zeros),
            simd.acc_lanes(acc2) == lane_chains(simd, x, y, 2 * w, 8 * w, t, zeros),
            simd.acc_lanes(acc3) == lane_chains(simd, x, y, 3 * w, 8 * w, t, zeros),
            simd.acc_lanes(acc4) == lane_chains(simd, x, y, 4 * w, 8 * w, t, zeros),
            simd.acc_lanes(acc5) == lane_chains(simd, x, y, 5 * w, 8 * w, t, zeros),
            simd.acc_lanes(acc6) == lane_chains(simd, x, y, 6 * w, 8 * w, t, zeros),
            simd.acc_lanes(acc7) == lane_chains(simd, x, y, 7 * w, 8 * w, t, zeros),
        decreases blocks - t,
    {
        proof {
            assert((t + 1) * (8 * w) == t * (8 * w) + 8 * w && t < blocks && t * (8 * w) + 8 * w
                <= k) by (nonlinear_arith)
                requires
                    t * (8 * w) < blocks * (8 * w),
                    blocks * (8 * w) <= k,
                    w > 0,
            ;
        }
        acc0 = absorb(simd, lhs, lhs_at, rhs, rhs_at, depth, acc0, Ghost(k as int), Ghost(0 * w),
            Ghost(8 * w), Ghost(t), Ghost(zeros));
        acc1 = absorb(simd, lhs, lhs_at, rhs, rhs_at, depth + lane, acc1, Ghost(k as int),
            Ghost(1 * w), Ghost(8 * w), Ghost(t), Ghost(zeros));
        acc2 = absorb(simd, lhs, lhs_at, rhs, rhs_at, depth + lane * 2, acc2, Ghost(k as int),
            Ghost(2 * w), Ghost(8 * w), Ghost(t), Ghost(zeros));
        acc3 = absorb(simd, lhs, lhs_at, rhs, rhs_at, depth + lane * 3, acc3, Ghost(k as int),
            Ghost(3 * w), Ghost(8 * w), Ghost(t), Ghost(zeros));
        acc4 = absorb(simd, lhs, lhs_at, rhs, rhs_at, depth + lane * 4, acc4, Ghost(k as int),
            Ghost(4 * w), Ghost(8 * w), Ghost(t), Ghost(zeros));
        acc5 = absorb(simd, lhs, lhs_at, rhs, rhs_at, depth + lane * 5, acc5, Ghost(k as int),
            Ghost(5 * w), Ghost(8 * w), Ghost(t), Ghost(zeros));
        acc6 = absorb(simd, lhs, lhs_at, rhs, rhs_at, depth + lane * 6, acc6, Ghost(k as int),
            Ghost(6 * w), Ghost(8 * w), Ghost(t), Ghost(zeros));
        acc7 = absorb(simd, lhs, lhs_at, rhs, rhs_at, depth + lane * 7, acc7, Ghost(k as int),
            Ghost(7 * w), Ghost(8 * w), Ghost(t), Ghost(zeros));
        depth += lane8;
        proof {
            t = t + 1;
        }
    }
    proof {
        assert(t == blocks) by (nonlinear_arith)
            requires
                t * (8 * w) >= blocks * (8 * w),
                t <= blocks,
                w > 0,
        ;
    }
    let acc0 = simd.simd_add(acc0, acc1);
    let acc2 = simd.simd_add(acc2, acc3);
    let acc4 = simd.simd_add(acc4, acc5);
    let acc6 = simd.simd_add(acc6, acc7);
    let acc0 = simd.simd_add(acc0, acc2);
    let acc4 = simd.simd_add(acc4, acc6);
    let mut acc0 = simd.simd_add(acc0, acc4);
    let ghost tree = simd.acc_lanes(acc0);
    let ghost done = blocks * (8 * w);
    let ghost mut u: nat = 0;
    proof {
        assert(lane_chains(simd, x, y, done, w, 0, tree) =~= tree);
        assert(done == (8 * blocks) * w) by (nonlinear_arith)
            requires
                done == blocks * (8 * w),
        ;
    }
    while depth < k_lane
        invariant
            depth == done + u * w,
            done == (8 * blocks) * w,
            u <= vectors - 8 * blocks,
            w == lane,
            w > 0,
            lane == S::width(),
            k_lane == vectors * w,
            vectors * w <= k,
            lhs_at + k <= lhs@.len(),
            rhs_at + k <= rhs@.len(),
            x == lhs_run(simd, lhs@, lhs_at as int, k as int),
            y == rhs_run(simd, rhs@, rhs_at as int, k as int),
            simd.acc_lanes(acc0) == lane_chains(simd, x, y, done, w, u, tree),
        decreases vectors - 8 * blocks - u,
    {
        proof {
            assert((u + 1) * w == u * w + w && u < vectors - 8 * blocks && (8 * blocks) * w + u * w
                + w <= k) by (nonlinear_arith)
                requires
                    (8 * blocks) * w + u * w < vectors * w,
                    vectors * w <= k,
                    w > 0,
            ;
        }
        acc0 = absorb(simd, lhs, lhs_at, rhs, rhs_at, depth, acc0, Ghost(k as int), Ghost(done),
            Ghost(w), Ghost(u), Ghost(tree));
        depth += lane;
        proof {
            u = u + 1;
        }
    }
    proof {
        assert(u == vectors - 8 * blocks && done + u * w == vectors * w) by (nonlinear_arith)
            requires
                done == (8 * blocks) * w,
                done + u * w >= vectors * w,
                u <= vectors - 8 * blocks,
                w > 0,
        ;
        assert forall|l: int| 0 <= l < w implies simd.acc_lanes(acc0)[l] == lane_sum(
            simd,
            x,
            y,
            l,
        ) by {
            assert(0 * w + l == l);
        }
    }
    let mut acc: Acc = simd.acc_lane(acc0, 0);
    let mut lane_index: usize = 1;
    while lane_index < lane
        invariant
            1 <= lane_index <= lane,
            lane == S::width(),
            simd.acc_lanes(acc0).len() == S::width(),
            forall|l: int|
                0 <= l < lane ==> #[trigger] simd.acc_lanes(acc0)[l] == lane_sum(simd, x, y, l),
            acc == lanes_total(simd, x, y, lane_index as int),
        decreases lane - lane_index,
    {
        acc = simd.add(acc, simd.acc_lane(acc0, lane_index));
        lane_index += 1;
    }
    let ghost init = acc;
    let ghost mut v: nat = 0;
    while depth < k
        invariant
            depth == vectors * w + v,
            depth <= k,
            lhs_at + k <= lhs_len,
            rhs_at + k <= rhs_len,
            lhs_len == lhs@.len(),
            rhs_len == rhs@.len(),
            x == lhs_run(simd, lhs@, lhs_at as int, k as int),
            y == rhs_run(simd, rhs@, rhs_at as int, k as int),
            acc == chain(simd, x, y, vectors * w, 1, v, init),
        decreases k - depth,
    {
        acc = simd.mult_add(
            simd.from_lhs(lhs[lhs_at + depth]),
            simd.from_rhs(rhs[rhs_at + depth]),
            acc,
        );
        depth += 1;
        proof {
            v = v + 1;
        }
    }
    acc
}

/// The entry of `dst` that the row-major kernel leaves, from the row `x` of `lhs` and the column
/// `y` of `rhs` that meet in it.
pub open spec fn rowmajor_entry<Lhs, Rhs, Dst, Acc: Element, S: MixedSimd<Lhs, Rhs, Dst, Acc>>(
    simd: S,
    alpha: Acc,
    beta: Acc,
    x: Seq<Acc>,
    y: Seq<Acc>,
    dst: Dst,
) -> Dst {
    epilogue(simd, alpha, beta, dot(simd, x, y), dst)
}

/// One step of the column-major kernel: `x * t + a * dst`, where a zero `a` leaves `dst` unread
/// and a one saves the multiplication.
pub open spec fn axpy_entry<Lhs, Rhs, Dst, Acc: Element, S: MixedSimd<Lhs, Rhs, Dst, Acc>>(
    simd: S,
    a: Acc,
    x: Acc,
    t: Acc,
    dst: Dst,
) -> Dst {
    if a.is_zero_spec() {
        simd.into_dst_spec(simd.mult_spec(x, t))
    } else if a.is_one_spec() {
        simd.into_dst_spec(simd.mult_add_spec(x, t, simd.from_dst_spec(dst)))
    } else {
        simd.into_dst_spec(
            simd.add_spec(simd.mult_spec(x, t), simd.mult_spec(a, simd.from_dst_spec(dst))),
        )
    }
}

/// `dst` after the first `n` steps of the column-major kernel: `alpha` weighs `dst` in the first
/// step, and a one in every later step.
pub open spec fn axpy_steps<Lhs, Rhs, Dst, Acc: Element, S: MixedSimd<Lhs, Rhs, Dst, Acc>>(
    simd: S,
    alpha: Acc,
    beta: Acc,
    x: Seq<Acc>,
    y: Seq<Acc>,
    n: nat,
    dst: Dst,
) -> Dst
    decreases n,
{
    if n == 0 {
        dst
    } else {
        axpy_entry(
            simd,
            if n == 1 {
                alpha
            } else {
                Acc::one_spec()
            },
            x[n - 1],
            simd.mult_spec(beta, y[n - 1]),
            axpy_steps(simd, alpha, beta, x, y, (n - 1) as nat, dst),
        )
    }
}

/// The entry of `dst` that the column-major kernel leaves, from the row `x` of `lhs` and the
/// column `y` of `rhs` that meet in it. With nothing to multiply, `dst` is only scaled.
pub open spec fn colmajor_entry<
    Lhs,
    Rhs,
    Dst: Element,
    Acc: Element,
    S: MixedSimd<Lhs, Rhs, Dst, Acc>,
>(simd: S, alpha: Acc, beta: Acc, x: Seq<Acc>, y: Seq<Acc>, dst: Dst) -> Dst {
    if x.len() > 0 {
        axpy_steps(simd, alpha, beta, x, y, x.len(), dst)
    } else if alpha.is_one_spec() {
        dst
    } else if alpha.is_zero_spec() {
        Dst::zero_spec()
    } else {
        simd.into_dst_spec(simd.mult_spec(simd.from_dst_spec(dst), alpha))
    }
}

/// Depths `d0` up to, not including, `d1` of row `i` of `lhs`, as accumulators.
pub open spec fn lhs_row<Lhs, Rhs, Dst, Acc: Element, S: MixedSimd<Lhs, Rhs, Dst, Acc>>(
    simd: S,
    lhs: Seq<Lhs>,
    at: Strides,
    i: int,
    d0: int,
    d1: int,
) -> Seq<Acc> {
    Seq::new((d1 - d0) as nat, |d: int| simd.from_lhs_spec(lhs[at.at(i, d0 + d)]))
}

/// Depths `d0` up to, not including, `d1` of column `j` of `rhs`, as accumulators.
pub open spec fn rhs_column<Lhs, Rhs, Dst, Acc: Element, S: MixedSimd<Lhs, Rhs, Dst, Acc>>(
    simd: S,
    rhs: Seq<Rhs>,
    at: Strides,
    j: int,
    d0: int,
    d1: int,
) -> Seq<Acc> {
    Seq::new((d1 - d0) as nat, |d: int| simd.from_rhs_spec(rhs[at.at(d0 + d, j)]))
}

/// Adds `t` times a run of `lhs` to `a` times `col`.
fn axpy<Lhs: Copy, Rhs: Copy, Dst: Copy, Acc: Element, S: MixedSimd<Lhs, Rhs, Dst, Acc>>(
    simd: S,
    col: &mut [Dst],
    lhs: &[Lhs],
    lhs_at: usize,
    a: Acc,
    t: Acc,
)
    requires
        lhs_at + old(col)@.len() <= lhs@.len(),
    ensures
        final(col)@.len() == old(col)@.len(),
        forall|i: int|
            0 <= i < old(col)@.len() ==> #[trigger] final(col)@[i] == axpy_entry(
                simd,
                a,
                simd.from_lhs_spec(lhs@[lhs_at + i]),
                t,
                old(col)@[i],
            ),
{
    let lhs_len: usize = lhs.len();
    let m: usize = col.len();
    let lane: usize = S::simd_width();
    let ghost w = lane as int;
    let ghost vectors = m as int / w;
    proof {
        assert(vectors * w <= m && vectors >= 0) by (nonlinear_arith)
            requires
                w > 0,
                m >= 0,
                vectors == m as int / w,
        ;
    }
    let m_lane: usize = m / lane * lane;
    let a_is_zero: bool = a.is_zero();
    let a_is_one: bool = a.is_one();
    let a_v = simd.simd_splat(a);
    let t_v = simd.simd_splat(t);
    let mut row: usize = 0;
    let ghost mut q: int = 0;
    while row < m_lane
        invariant
            row == q * w,
            0 <= q <= vectors,
            w == lane,
            w > 0,
            w == S::width(),
            row <= m_lane,
            m_lane == vectors * w,
            vectors * w <= m,
            m == col@.len(),
            m == old(col)@.len(),
            lhs_len == lhs@.len(),
            lhs_at + m <= lhs_len,
            a_is_zero == a.is_zero_spec(),
            a_is_one == a.is_one_spec(),
            simd.acc_lanes(a_v) == Seq::new(S::width(), |l: int| a),
            simd.acc_lanes(t_v) == Seq::new(S::width(), |l: int| t),
            forall|i: int| row <= i < m ==> #[trigger] col@[i] == old(col)@[i],
            forall|i: int|
                0 <= i < row ==> #[trigger] col@[i] == axpy_entry(
                    simd,
                    a,
                    simd.from_lhs_spec(lhs@[lhs_at + i]),
                    t,
                    old(col)@[i],
                ),
        decreases vectors - q,
    {
        proof {
            assert((q + 1) * w == q * w + w && q < vectors && q * w + w <= vectors * w) by (nonlinear_arith)
                requires
                    q * w < vectors * w,
                    vectors * w <= m,
                    w > 0,
            ;
        }
        let ghost before = col@;
        let x = simd.simd_from_lhs(simd.load_lhs(lhs, lhs_at + row));
        let sum = if a_is_zero {
            simd.simd_mul(x, t_v)
        } else {
            let d = simd.simd_from_dst(simd.load_dst(col, row));
            if a_is_one {
                simd.simd_mult_add(x, t_v, d)
            } else {
                simd.simd_add(simd.simd_mul(x, t_v), simd.simd_mul(a_v, d))
            }
        };
        let out = simd.simd_into_dst(sum);
        simd.store_dst(col, row, out);
        proof {
            assert forall|i: int| row <= i < row + w implies #[trigger] col@[i] == axpy_entry(
                simd,
                a,
                simd.from_lhs_spec(lhs@[lhs_at + i]),
                t,
                old(col)@[i],
            ) by {
                let l = i - row;
                assert(lhs@.subrange(lhs_at + row, lhs_at + row + w)[l] == lhs@[lhs_at + i]);
                assert(before.subrange(row as int, row + w)[l] == before[i]);
                assert(col@[i] == simd.dst_lanes(out)[l]);
            }
        }
        row += lane;
        proof {
            q = q + 1;
        }
    }
    while row < m
        invariant
            m == col@.len(),
            m == old(col)@.len(),
            lhs_len == lhs@.len(),
            lhs_at + m <= lhs_len,
            a_is_zero == a.is_zero_spec(),
            a_is_one == a.is_one_spec(),
            row <= m,
            forall|i: int| row <= i < m ==> #[trigger] col@[i] == old(col)@[i],
            forall|i: int|
                0 <= i < row ==> #[trigger] col@[i] == axpy_entry(
                    simd,
                    a,
                    simd.from_lhs_spec(lhs@[lhs_at + i]),
                    t,
                    old(col)@[i],
                ),
        decreases m - row,
    {
        let x: Acc = simd.from_lhs(lhs[lhs_at + row]);
        let sum: Acc = if a_is_zero {
            simd.mult(x, t)
        } else {
            let d: Acc = simd.from_dst(col[row]);
            if a_is_one {
                simd.mult_add(x, t, d)
            } else {
                simd.add(simd.mult(x, t), simd.mult(a, d))
            }
        };
        col[row] = simd.into_dst(sum);
        row += 1;
    }
}

/// The matrices that `m`, `n`, `k` and the strides describe lie inside their slices, and the
/// entries of `dst` are apart from each other. Nothing is asked where `dst` has no entry.
pub open spec fn operands_fit(
    m: int,
    n: int,
    k: int,
    dst_len: int,
    dst_at: Strides,
    lhs_len: int,
    lhs_at: Strides,
    rhs_len: int,
    rhs_at: Strides,
) -> bool {
    m > 0 && n > 0 ==> {
        &&& dst_at.fits(m, n, dst_len)
        &&& dst_at.distinct(m, n)
        &&& lhs_at.fits(m, k, lhs_len)
        &&& rhs_at.fits(k, n, rhs_len)
    }
}

/// Scales a column of `dst` that no product is added to.
fn scale_column<
    Lhs: Copy,
    Rhs: Copy,
    Dst: Element,
    Acc: Element,
    S: MixedSimd<Lhs, Rhs, Dst, Acc>,
>(simd: S, col: Vec<Dst>, alpha: Acc) -> (r: Vec<Dst>)
    ensures
        r@.len() == col@.len(),
        forall|i: int|
            0 <= i < col@.len() ==> #[trigger] r@[i] == (if alpha.is_one_spec() {
                col@[i]
            } else if alpha.is_zero_spec() {
                Dst::zero_spec()
            } else {
                simd.into_dst_spec(simd.mult_spec(simd.from_dst_spec(col@[i]), alpha))
            }),
{
    if alpha.is_one() {
        return col;
    }
    let clear: bool = alpha.is_zero();
    let mut out: Vec<Dst> = Vec::with_capacity(col.len());
    let mut i: usize = 0;
    while i < col.len()
        invariant
            i <= col@.len(),
            out@.len() == i,
            !alpha.is_one_spec(),
            clear == alpha.is_zero_spec(),
            forall|q: int|
                0 <= q < i ==> #[trigger] out@[q] == (if alpha.is_zero_spec() {
                    Dst::zero_spec()
                } else {
                    simd.into_dst_spec(simd.mult_spec(simd.from_dst_spec(col@[q]), alpha))
                }),
        decreases col@.len() - i,
    {
        let value: Dst = if clear {
            Dst::zero()
        } else {
            simd.into_dst(simd.mult(simd.from_dst(col[i]), alpha))
        };
        out.push(value);
        i += 1;
    }
    out
}

/// The column-major kernel on one column: rows `r0` on, depths `d0..d1`, column `j` of `rhs`.
pub fn colmajor_column<
    Lhs: Copy,
    Rhs: Copy,
    Dst: Element,
    Acc: Element,
    S: MixedSimd<Lhs, Rhs, Dst, Acc>,
>(
    simd: S,
    col: Vec<Dst>,
    r0: usize,
    d0: usize,
    d1: usize,
    lhs: &[Lhs],
    lhs_at: Strides,
    rhs: &[Rhs],
    rhs_at: Strides,
    j: usize,
    alpha: Acc,
    beta: Acc,
) -> (r: Vec<Dst>)
    requires
        lhs_at.rs == 1,
        d0 <= d1,
        r0 + col@.len() <= usize::MAX,
        col@.len() > 0 ==> lhs_at.fits(r0 + col@.len(), d1 as int, lhs@.len() as int),
        col@.len() > 0 ==> rhs_at.fits(d1 as int, j + 1, rhs@.len() as int),
    ensures
        r@.len() == col@.len(),
        forall|i: int|
            0 <= i < col@.len() ==> #[trigger] r@[i] == colmajor_entry(
                simd,
                alpha,
                beta,
                lhs_row(simd, lhs@, lhs_at, r0 + i, d0 as int, d1 as int),
                rhs_column(simd, rhs@, rhs_at, j as int, d0 as int, d1 as int),
                col@[i],
            ),
{
    if col.len() == 0 {
        return col;
    }
    if d0 == d1 {
        return scale_column(simd, col, alpha);
    }
    let ghost m = col@.len() as int;
    let ghost first = col@;
    let ghost y = rhs_column(simd, rhs@, rhs_at, j as int, d0 as int, d1 as int);
    let lhs_len: usize = lhs.len();
    let rhs_len: usize = rhs.len();
    let mut out: Vec<Dst> = col;
    let mut a: Acc = alpha;
    let mut d: usize = d0;
    while d < d1
        invariant
            d0 <= d <= d1,
            m > 0,
            out@.len() == m,
            first.len() == m,
            r0 + m <= usize::MAX,
            lhs_at.rs == 1,
            lhs_len == lhs@.len(),
            rhs_len == rhs@.len(),
            lhs_at.fits(r0 + m, d1 as int, lhs_len as int),
            rhs_at.fits(d1 as int, j + 1, rhs_len as int),
            y == rhs_column(simd, rhs@, rhs_at, j as int, d0 as int, d1 as int),
            a == (if d == d0 {
                alpha
            } else {
                Acc::one_spec()
            }),
            forall|i: int|
                0 <= i < m ==> #[trigger] out@[i] == axpy_steps(
                    simd,
                    alpha,
                    beta,
                    lhs_row(simd, lhs@, lhs_at, r0 + i, d0 as int, d1 as int),
                    y,
                    (d - d0) as nat,
                    first[i],
                ),
        decreases d1 - d,
    {
        proof {
            assert(0 <= lhs_at.at(r0 as int, 0) < lhs_len);
            assert(0 <= lhs_at.at(r0 as int, d as int) < lhs_len);
            assert(0 <= rhs_at.at(d as int, 0) < rhs_len);
            assert(0 <= rhs_at.at(d as int, j as int) < rhs_len);
            assert forall|i: int| #[trigger]
                lhs_at.at(r0 + i, d as int) == lhs_at.at(r0 as int, d as int) + i by {
                assert((r0 + i) * lhs_at.rs == r0 * lhs_at.rs + i) by (nonlinear_arith)
                    requires
                        lhs_at.rs == 1,
                ;
            }
            assert(0 <= lhs_at.at(r0 + (m - 1), d as int) < lhs_len);
        }
        let run: usize = lhs_at.index(r0, d);
        let t: Acc = simd.mult(beta, simd.from_rhs(rhs[rhs_at.index(d, j)]));
        let ghost before = out@;
        axpy(simd, out.as_mut_slice(), lhs, run, a, t);
        proof {
            assert forall|i: int| 0 <= i < m implies #[trigger] out@[i] == axpy_steps(
                simd,
                alpha,
                beta,
                lhs_row(simd, lhs@, lhs_at, r0 + i, d0 as int, d1 as int),
                y,
                (d + 1 - d0) as nat,
                first[i],
            ) by {
                let x = lhs_row(simd, lhs@, lhs_at, r0 + i, d0 as int, d1 as int);
                assert(lhs_at.at(r0 + i, d as int) == run + i);
                assert(x[d - d0] == simd.from_lhs_spec(lhs@[run + i]));
                assert(before[i] == axpy_steps(simd, alpha, beta, x, y, (d - d0) as nat, first[i]));
            }
        }
        a = Acc::one();
        d += 1;
    }
    out
}

/// The row-major kernel on one column: rows `r0` on, depths `d0..d1`, column `j` of `rhs`.
pub fn rowmajor_column<
    Lhs: Copy,
    Rhs: Copy,
    Dst: Element,
    Acc: Element,
    S: MixedSimd<Lhs, Rhs, Dst, Acc>,
>(
    simd: S,
    col: Vec<Dst>,
    r0: usize,
    d0: usize,
    d1: usize,
    lhs: &[Lhs],
    lhs_at: Strides,
    rhs: &[Rhs],
    rhs_at: Strides,
    j: usize,
    alpha: Acc,
    beta: Acc,
) -> (r: Vec<Dst>)
    requires
        lhs_at.cs == 1,
        rhs_at.rs == 1,
        d0 <= d1,
        r0 + col@.len() <= usize::MAX,
        col@.len() > 0 ==> lhs_at.fits(r0 + col@.len(), d1 as int, lhs@.len() as int),
        col@.len() > 0 ==> rhs_at.fits(d1 as int, j + 1, rhs@.len() as int),
    ensures
        r@.len() == col@.len(),
        forall|i: int|
            0 <= i < col@.len() ==> #[trigger] r@[i] == rowmajor_entry(
                simd,
                alpha,
                beta,
                lhs_row(simd, lhs@, lhs_at, r0 + i, d0 as int, d1 as int),
                rhs_column(simd, rhs@, rhs_at, j as int, d0 as int, d1 as int),
                col@[i],
            ),
{
    let m: usize = col.len();
    let lhs_len: usize = lhs.len();
    let rhs_len: usize = rhs.len();
    let ghost y = rhs_column(simd, rhs@, rhs_at, j as int, d0 as int, d1 as int);
    let clear: bool = alpha.is_zero();
    let mut out: Vec<Dst> = Vec::with_capacity(m);
    let mut i: usize = 0;
    while i < m
        invariant
            i <= m,
            m == col@.len(),
            d0 <= d1,
            r0 + m <= usize::MAX,
            lhs_at.cs == 1,
            rhs_at.rs == 1,
            lhs_len == lhs@.len(),
            rhs_len == rhs@.len(),
            m > 0 ==> lhs_at.fits(r0 + m, d1 as int, lhs_len as int),
            m > 0 ==> rhs_at.fits(d1 as int, j + 1, rhs_len as int),
            y == rhs_column(simd, rhs@, rhs_at, j as int, d0 as int, d1 as int),
            clear == alpha.is_zero_spec(),
            out@.len() == i,
            forall|q: int|
                0 <= q < i ==> #[trigger] out@[q] == rowmajor_entry(
                    simd,
                    alpha,
                    beta,
                    lhs_row(simd, lhs@, lhs_at, r0 + q, d0 as int, d1 as int),
                    y,
                    col@[q],
                ),
        decreases m - i,
    {
        let ghost x = lhs_row(simd, lhs@, lhs_at, r0 + i, d0 as int, d1 as int);
        let acc: Acc = if d0 == d1 {
            let r = dot_product(simd, lhs, 0, rhs, 0, 0);
            proof {
                assert(lhs_run::<Lhs, Rhs, Dst, Acc, S>(simd, lhs@, 0, 0) =~= x);
                assert(rhs_run::<Lhs, Rhs, Dst, Acc, S>(simd, rhs@, 0, 0) =~= y);
            }
            r
        } else {
            proof {
                let last = d1 - 1;
                assert(0 <= lhs_at.at(r0 + i, 0) < lhs_len);
                assert(0 <= lhs_at.at(r0 + i, d0 as int) < lhs_len);
                assert(0 <= lhs_at.at(r0 + i, last) < lhs_len);
                assert(0 <= rhs_at.at(d0 as int, 0) < rhs_len);
                assert(0 <= rhs_at.at(d0 as int, j as int) < rhs_len);
                assert(0 <= rhs_at.at(last, j as int) < rhs_len);
                assert forall|d: int| #[trigger]
                    lhs_at.at(r0 + i, d0 + d) == lhs_at.at(r0 + i, d0 as int) + d by {
                    assert((d0 + d) * lhs_at.cs == d0 * lhs_at.cs + d) by (nonlinear_arith)
                        requires
                            lhs_at.cs == 1,
                    ;
                }
                assert forall|d: int| #[trigger]
                    rhs_at.at(d0 + d, j as int) == rhs_at.at(d0 as int, j as int) + d by {
                    assert((d0 + d) * rhs_at.rs == d0 * rhs_at.rs + d) by (nonlinear_arith)
                        requires
                            rhs_at.rs == 1,
                    ;
                }
                assert(lhs_at.at(r0 + i, d0 + (last - d0)) == lhs_at.at(r0 + i, last));
                assert(rhs_at.at(d0 + (last - d0), j as int) == rhs_at.at(last, j as int));
            }
            let lhs_run_at: usize = lhs_at.index(r0 + i, d0);
            let rhs_run_at: usize = rhs_at.index(d0, j);
            let r = dot_product(simd, lhs, lhs_run_at, rhs, rhs_run_at, d1 - d0);
            proof {
                assert(lhs_run::<Lhs, Rhs, Dst, Acc, S>(simd, lhs@, lhs_run_at as int, d1 - d0)
                    =~= x);
                assert(rhs_run::<Lhs, Rhs, Dst, Acc, S>(simd, rhs@, rhs_run_at as int, d1 - d0)
                    =~= y);
            }
            r
        };
        let value: Dst = if clear {
            simd.into_dst(simd.mult(acc, beta))
        } else {
            simd.into_dst(
                simd.add(simd.mult(acc, beta), simd.mult(simd.from_dst(col[i]), alpha)),
            )
        };
        out.push(value);
        i += 1;
    }
    out
}

/// Which axis a product is split along first, which also tells the two kernels apart.
#[derive(Copy, Clone, Debug, PartialEq, Eq, Structural)]
pub enum SplitAxis {
    /// Row-major: independent dot products, one store per row.
    Rows,
    /// Column-major: one scaled column of `lhs` after another added to `dst`.
    Depth,
}

/// What the kernel for `axis` leaves in an entry of `dst`, from the row `x` of `lhs` and the
/// column `y` of `rhs` that meet in it.
pub open spec fn serial_entry<
    Lhs,
    Rhs,
    Dst: Element,
    Acc: Element,
    S: MixedSimd<Lhs, Rhs, Dst, Acc>,
>(axis: SplitAxis, simd: S, alpha: Acc, beta: Acc, x: Seq<Acc>, y: Seq<Acc>, dst: Dst) -> Dst {
    match axis {
        SplitAxis::Rows => rowmajor_entry(simd, alpha, beta, x, y, dst),
        SplitAxis::Depth => colmajor_entry(simd, alpha, beta, x, y, dst),
    }
}

/// What the kernel for `axis` leaves in entry `(i, j)` of `dst`.
pub open spec fn serial_value<
    Lhs,
    Rhs,
    Dst: Element,
    Acc: Element,
    S: MixedSimd<Lhs, Rhs, Dst, Acc>,
>(
    axis: SplitAxis,
    simd: S,
    k: int,
    dst: Seq<Dst>,
    dst_at: Strides,
    lhs: Seq<Lhs>,
    lhs_at: Strides,
    rhs: Seq<Rhs>,
    rhs_at: Strides,
    alpha: Acc,
    beta: Acc,
) -> spec_fn(int, int) -> Dst {
    |i: int, j: int|
        serial_entry(
            axis,
            simd,
            alpha,
            beta,
            lhs_row(simd, lhs, lhs_at, i, 0, k),
            rhs_column(simd, rhs, rhs_at, j, 0, k),
            dst[dst_at.at(i, j)],
        )
}

/// The unit strides that the kernel for `axis` walks along.
pub open spec fn kernel_strides(
    axis: SplitAxis,
    lhs_at: Strides,
    rhs_at: Strides,
) -> bool {
    match axis {
        SplitAxis::Rows => lhs_at.cs == 1 && rhs_at.rs == 1,
        SplitAxis::Depth => lhs_at.rs == 1,
    }
}

/// Rows `r0` on and depths `d0..d1` of the operands are there for a column of `len` entries.
pub open spec fn column_ready(
    axis: SplitAxis,
    len: int,
    r0: int,
    d0: int,
    d1: int,
    lhs_len: int,
    lhs_at: Strides,
    rhs_len: int,
    rhs_at: Strides,
    j: int,
) -> bool {
    &&& kernel_strides(axis, lhs_at, rhs_at)
    &&& d0 <= d1
    &&& r0 + len <= usize::MAX
    &&& len > 0 ==> lhs_at.fits(r0 + len, d1, lhs_len)
    &&& len > 0 ==> rhs_at.fits(d1, j + 1, rhs_len)
}

/// `after` is the column `before` once the kernel for `axis` has run on it.
pub open spec fn column_done<
    Lhs,
    Rhs,
    Dst: Element,
    Acc: Element,
    S: MixedSimd<Lhs, Rhs, Dst, Acc>,
>(
    axis: SplitAxis,
    simd: S,
    before: Seq<Dst>,
    after: Seq<Dst>,
    r0: int,
    d0: int,
    d1: int,
    lhs: Seq<Lhs>,
    lhs_at: Strides,
    rhs: Seq<Rhs>,
    rhs_at: Strides,
    j: int,
    alpha: Acc,
    beta: Acc,
) -> bool {
    &&& after.len() == before.len()
    &&& forall|i: int|
        0 <= i < before.len() ==> #[trigger] after[i] == serial_entry(
            axis,
            simd,
            alpha,
            beta,
            lhs_row(simd, lhs, lhs_at, r0 + i, d0, d1),
            rhs_column(simd, rhs, rhs_at, j, d0, d1),
            before[i],
        )
}

/// The kernel for `axis` on one column, run under the instruction set of `simd`.
pub fn serial_column<
    Lhs: Copy,
    Rhs: Copy,
    Dst: Element,
    Acc: Element,
    S: MixedSimd<Lhs, Rhs, Dst, Acc>,
>(
    axis: SplitAxis,
    simd: S,
    col: Vec<Dst>,
    r0: usize,
    d0: usize,
    d1: usize,
    lhs: &[Lhs],
    lhs_at: Strides,
    rhs: &[Rhs],
    rhs_at: Strides,
    j: usize,
    alpha: Acc,
    beta: Acc,
) -> (r: Vec<Dst>)
    requires
        column_ready(
            axis,
            col@.len() as int,
            r0 as int,
            d0 as int,
            d1 as int,
            lhs@.len() as int,
            lhs_at,
            rhs@.len() as int,
            rhs_at,
            j as int,
        ),
    ensures
        column_done(
            axis,
            simd,
            col@,
            r@,
            r0 as int,
            d0 as int,
            d1 as int,
            lhs@,
            lhs_at,
            rhs@,
            rhs_at,
            j as int,
            alpha,
            beta,
        ),
{
    let kernel = move || -> (r: Vec<Dst>)
        requires
            column_ready(
                axis,
                col@.len() as int,
                r0 as int,
                d0 as int,
                d1 as int,
                lhs@.len() as int,
                lhs_at,
                rhs@.len() as int,
                rhs_at,
                j as int,
            ),
        ensures
            column_done(
                axis,
                simd,
                col@,
                r@,
                r0 as int,
                d0 as int,
                d1 as int,
                lhs@,
                lhs_at,
                rhs@,
                rhs_at,
                j as int,
                alpha,
                beta,
            ),
        {
            match axis {
                SplitAxis::Rows => rowmajor_column(
                    simd,
                    col,
                    r0,
                    d0,
                    d1,
                    lhs,
                    lhs_at,
                    rhs,
                    rhs_at,
                    j,
                    alpha,
                    beta,
                ),
                SplitAxis::Depth => colmajor_column(
                    simd,
                    col,
                    r0,
                    d0,
                    d1,
                    lhs,
                    lhs_at,
                    rhs,
                    rhs_at,
                    j,
                    alpha,
                    beta,
                ),
            }
        };
    simd.vectorize(kernel)
}

/// The kernel for `axis` on every column of `dst` in turn.
pub fn serial_gemv<
    Lhs: Copy,
    Rhs: Copy,
    Dst: Element,
    Acc: Element,
    S: MixedSimd<Lhs, Rhs, Dst, Acc>,
>(
    axis: SplitAxis,
    simd: S,
    m: usize,
    n: usize,
    k: usize,
    dst: &mut [Dst],
    dst_at: Strides,
    lhs: &[Lhs],
    lhs_at: Strides,
    rhs: &[Rhs],
    rhs_at: Strides,
    alpha: Acc,
    beta: Acc,
)
    requires
        kernel_strides(axis, lhs_at, rhs_at),
        operands_fit(
            m as int,
            n as int,
            k as int,
            old(dst)@.len() as int,
            dst_at,
            lhs@.len() as int,
            lhs_at,
            rhs@.len() as int,
            rhs_at,
        ),
    ensures
        rewritten(
            old(dst)@,
            final(dst)@,
            dst_at,
            m as int,
            n as int,
            serial_value(
                axis,
                simd,
                k as int,
                old(dst)@,
                dst_at,
                lhs@,
                lhs_at,
                rhs@,
                rhs_at,
                alpha,
                beta,
            ),
        ),
{
    if m == 0 {
        return;
    }
    let ghost first = dst@;
    let ghost value = serial_value(
        axis,
        simd,
        k as int,
        first,
        dst_at,
        lhs@,
        lhs_at,
        rhs@,
        rhs_at,
        alpha,
        beta,
    );
    let mut j: usize = 0;
    while j < n
        invariant
            j <= n,
            m > 0,
            first.len() == dst@.len(),
            kernel_strides(axis, lhs_at, rhs_at),
            operands_fit(
                m as int,
                n as int,
                k as int,
                first.len() as int,
                dst_at,
                lhs@.len() as int,
                lhs_at,
                rhs@.len() as int,
                rhs_at,
            ),
            value == serial_value(
                axis,
                simd,
                k as int,
                first,
                dst_at,
                lhs@,
                lhs_at,
                rhs@,
                rhs_at,
                alpha,
                beta,
            ),
            rewritten(first, dst@, dst_at, m as int, j as int, value),
        decreases n - j,
    {
        let ghost before = dst@;
        proof {
            lemma_rewritten_rest(first, before, dst_at, m as int, n as int, j as int, value);
        }
        let col: Vec<Dst> = gather(dst, dst_at, 0, m, j);
        let ghost kept = col@;
        let out: Vec<Dst> = serial_column(
            axis,
            simd,
            col,
            0,
            0,
            k,
            lhs,
            lhs_at,
            rhs,
            rhs_at,
            j,
            alpha,
            beta,
        );
        scatter(dst, dst_at, 0, j, out.as_slice());
        proof {
            assert forall|i: int| 0 <= i < m implies dst@[#[trigger] dst_at.at(i, j as int)]
                == value(i, j as int) by {
                assert(out@[i - 0] == out@[i]);
                assert(kept[i] == first[dst_at.at(0 + i, j as int)]);
            }
            lemma_rewritten_next(
                first,
                before,
                dst@,
                dst_at,
                m as int,
                n as int,
                j as int,
                value,
            );
        }
        j += 1;
    }
}

/// `dst = alpha * dst + beta * lhs * rhs`, where `dst` and `lhs` are column-major and `n` is
/// small.
pub fn mixed_gemv_colmajor<
    Lhs: Copy,
    Rhs: Copy,
    Dst: Element,
    Acc: Element,
    S: MixedSimd<Lhs, Rhs, Dst, Acc>,
>(
    simd: S,
    m: usize,
    n: usize,
    k: usize,
    dst: &mut [Dst],
    dst_at: Strides,
    lhs: &[Lhs],
    lhs_at: Strides,
    rhs: &[Rhs],
    rhs_at: Strides,
    alpha: Acc,
    beta: Acc,
)
    requires
        lhs_at.rs == 1,
        dst_at.rs == 1,
        operands_fit(
            m as int,
            n as int,
            k as int,
            old(dst)@.len() as int,
            dst_at,
            lhs@.len() as int,
            lhs_at,
            rhs@.len() as int,
            rhs_at,
        ),
    ensures
        rewritten(
            old(dst)@,
            final(dst)@,
            dst_at,
            m as int,
            n as int,
            serial_value(
                SplitAxis::Depth,
                simd,
                k as int,
                old(dst)@,
                dst_at,
                lhs@,
                lhs_at,
                rhs@,
                rhs_at,
                alpha,
                beta,
            ),
        ),
{
    serial_gemv(
        SplitAxis::Depth,
        simd,
        m,
        n,
        k,
        dst,
        dst_at,
        lhs,
        lhs_at,
        rhs,
        rhs_at,
        alpha,
        beta,
    )
}

/// `dst = alpha * dst + beta * lhs * rhs`, where `lhs` is row-major, `rhs` is column-major and
/// `n` is small.
pub fn mixed_gemv_rowmajor<
    Lhs: Copy,
    Rhs: Copy,
    Dst: Element,
    Acc: Element,
    S: MixedSimd<Lhs, Rhs, Dst, Acc>,
>(
    simd: S,
    m: usize,
    n: usize,
    k: usize,
    dst: &mut [Dst],
    dst_at: Strides,
    lhs: &[Lhs],
    lhs_at: Strides,
    rhs: &[Rhs],
    rhs_at: Strides,
    alpha: Acc,
    beta: Acc,
)
    requires
        lhs_at.cs == 1,
        rhs_at.rs == 1,
        operands_fit(
            m as int,
            n as int,
            k as int,
            old(dst)@.len() as int,
            dst_at,
            lhs@.len() as int,
            lhs_at,
            rhs@.len() as int,
            rhs_at,
        ),
    ensures
        rewritten(
            old(dst)@,
            final(dst)@,
            dst_at,
            m as int,
            n as int,
            serial_value(
                SplitAxis::Rows,
                simd,
                k as int,
                old(dst)@,
                dst_at,
                lhs@,
                lhs_at,
                rhs@,
                rhs_at,
                alpha,
                beta,
            ),
        ),
{
    serial_gemv(
        SplitAxis::Rows,
        simd,
        m,
        n,
        k,
        dst,
        dst_at,
        lhs,
        lhs_at,
        rhs,
        rhs_at,
        alpha,
        beta,
    )
}

/// `r` can be what is left of `start` after `mul_add(beta * y[d], x[d], _)` was applied to it for
/// the first `n` depths, one after the other.
pub open spec fn reaches<T: Element, F: Fn(T, T, T) -> T>(
    mul_add: F,
    beta: T,
    x: Seq<T>,
    y: Seq<T>,
    start: T,
    n: nat,
    r: T,
) -> bool
    decreases n,
{
    if n == 0 {
        r == start
    } else {
        exists|mid: T|
            reaches(mul_add, beta, x, y, start, (n - 1) as nat, mid) && #[trigger] call_ensures(
                mul_add,
                (beta.times_spec(y[n - 1]), x[n - 1], mid),
                r,
            )
    }
}

/// The entries `(i, 0)` up to, not including, `(i, k)` of the matrix that `at` lays out in `s`.
pub open spec fn row<T>(s: Seq<T>, at: Strides, i: int, k: int) -> Seq<T> {
    Seq::new(k as nat, |d: int| s[at.at(i, d)])
}

/// `alpha * v`, or zero where `alpha` counts as zero.
pub open spec fn scaled<T: Element>(alpha: T, v: T) -> T {
    if alpha.is_zero_spec() {
        T::zero_spec()
    } else {
        alpha.times_spec(v)
    }
}

/// `mul_add` can be applied at every depth below `n` to whatever it may have left there.
pub open spec fn applicable<T: Element, F: Fn(T, T, T) -> T>(
    mul_add: F,
    beta: T,
    x: Seq<T>,
    y: Seq<T>,
    start: T,
    n: int,
) -> bool {
    forall|d: nat, mid: T|
        d < n && #[trigger] reaches(mul_add, beta, x, y, start, d, mid) ==> call_requires(
            mul_add,
            (beta.times_spec(y[d as int]), x[d as int], mid),
        )
}

/// `dst = alpha * dst + beta * lhs * rhs` for one output column, where `mul_add(a, b, c)` stands
/// for `a * b + c`.
pub fn gemv<T: Element, S: Simd, F: Fn(T, T, T) -> T>(
    _simd: S,
    m: usize,
    n: usize,
    k: usize,
    dst: &mut [T],
    dst_at: Strides,
    lhs: &[T],
    lhs_at: Strides,
    rhs: &[T],
    rhs_at: Strides,
    alpha: T,
    beta: T,
    mul_add: F,
)
    requires
        n == 1,
        operands_fit(
            m as int,
            n as int,
            k as int,
            old(dst)@.len() as int,
            dst_at,
            lhs@.len() as int,
            lhs_at,
            rhs@.len() as int,
            rhs_at,
        ),
        forall|i: int|
            0 <= i < m ==> applicable(
                mul_add,
                beta,
                row(lhs@, lhs_at, i, k as int),
                column(rhs@, rhs_at, 0, k as int, 0),
                scaled(alpha, old(dst)@[#[trigger] dst_at.at(i, 0)]),
                k as int,
            ),
    ensures
        final(dst)@.len() == old(dst)@.len(),
        forall|i: int|
            0 <= i < m ==> reaches(
                mul_add,
                beta,
                row(lhs@, lhs_at, i, k as int),
                column(rhs@, rhs_at, 0, k as int, 0),
                scaled(alpha, old(dst)@[dst_at.at(i, 0)]),
                k as nat,
                final(dst)@[#[trigger] dst_at.at(i, 0)],
            ),
        forall|p: int|
            0 <= p < old(dst)@.len() && !dst_at.covers(m as int, n as int, p)
                ==> #[trigger] final(dst)@[p] == old(dst)@[p],
{
    if m == 0 {
        return;
    }
    let ghost first = dst@;
    let ghost y = column(rhs@, rhs_at, 0, k as int, 0);
    let lhs_len: usize = lhs.len();
    let rhs_len: usize = rhs.len();
    let mut col: Vec<T> = gather(&*dst, dst_at, 0, m, 0);
    let clear: bool = alpha.is_zero();
    let ghost before = col@;
    let mut i: usize = 0;
    while i < m
        invariant
            i <= m,
            col@.len() == m,
            before.len() == m,
            clear == alpha.is_zero_spec(),
            forall|q: int| 0 <= q < i ==> #[trigger] col@[q] == scaled(alpha, before[q]),
            forall|q: int| i <= q < m ==> #[trigger] col@[q] == before[q],
        decreases m - i,
    {
        let value: T = if clear {
            T::zero()
        } else {
            alpha.times(col[i])
        };
        col.set(i, value);
        i += 1;
    }
    proof {
        assert forall|q: int| 0 <= q < m implies #[trigger] applicable(
            mul_add,
            beta,
            row(lhs@, lhs_at, q, k as int),
            y,
            scaled(alpha, before[q]),
            k as int,
        ) by {
            assert(before[q] == first[dst_at.at(0 + q, 0)]);
        }
    }
    let mut depth: usize = 0;
    while depth < k
        invariant
            depth <= k,
            m > 0,
            col@.len() == m,
            before.len() == m,
            lhs_len == lhs@.len(),
            rhs_len == rhs@.len(),
            lhs_at.fits(m as int, k as int, lhs_len as int),
            rhs_at.fits(k as int, 1, rhs_len as int),
            y == column(rhs@, rhs_at, 0, k as int, 0),
            forall|q: int|
                0 <= q < m ==> #[trigger] applicable(
                    mul_add,
                    beta,
                    row(lhs@, lhs_at, q, k as int),
                    y,
                    scaled(alpha, before[q]),
                    k as int,
                ),
            forall|q: int|
                0 <= q < m ==> reaches(
                    mul_add,
                    beta,
                    row(lhs@, lhs_at, q, k as int),
                    y,
                    scaled(alpha, before[q]),
                    depth as nat,
                    #[trigger] col@[q],
                ),
        decreases k - depth,
    {
        assert(0 <= rhs_at.at(depth as int, 0) < rhs_len);
        let scaled_rhs: T = beta.times(rhs[rhs_at.index(depth, 0)]);
        assert(y[depth as int] == rhs@[rhs_at.at(0 + depth as int, 0)]);
        let ghost start = col@;
        let mut i: usize = 0;
        while i < m
            invariant
                i <= m,
                depth < k,
                col@.len() == m,
                start.len() == m,
                before.len() == m,
                lhs_len == lhs@.len(),
                lhs_at.fits(m as int, k as int, lhs_len as int),
                scaled_rhs == beta.times_spec(y[depth as int]),
                forall|q: int|
                    0 <= q < m ==> #[trigger] applicable(
                        mul_add,
                        beta,
                        row(lhs@, lhs_at, q, k as int),
                        y,
                        scaled(alpha, before[q]),
                        k as int,
                    ),
                forall|q: int|
                    0 <= q < m ==> reaches(
                        mul_add,
                        beta,
                        row(lhs@, lhs_at, q, k as int),
                        y,
                        scaled(alpha, before[q]),
                        depth as nat,
                        #[trigger] start[q],
                    ),
                forall|q: int|
                    0 <= q < i ==> reaches(
                        mul_add,
                        beta,
                        row(lhs@, lhs_at, q, k as int),
                        y,
                        scaled(alpha, before[q]),
                        (depth + 1) as nat,
                        #[trigger] col@[q],
                    ),
                forall|q: int| i <= q < m ==> #[trigger] col@[q] == start[q],
            decreases m - i,
        {
            assert(0 <= lhs_at.at(i as int, 0) < lhs_len);
            assert(0 <= lhs_at.at(i as int, depth as int) < lhs_len);
            let x: T = lhs[lhs_at.index(i, depth)];
            proof {
                let xs = row(lhs@, lhs_at, i as int, k as int);
                assert(xs[depth as int] == x);
                assert(applicable(
                    mul_add,
                    beta,
                    xs,
                    y,
                    scaled(alpha, before[i as int]),
                    k as int,
                ));
                assert(reaches(
                    mul_add,
                    beta,
                    xs,
                    y,
                    scaled(alpha, before[i as int]),
                    depth as nat,
                    start[i as int],
                ));
            }
            let value: T = mul_add(scaled_rhs, x, col[i]);
            col.set(i, value);
            proof {
                let xs = row(lhs@, lhs_at, i as int, k as int);
                let n = (depth + 1) as nat;
                assert((n - 1) as nat == depth as nat);
                assert(call_ensures(
                    mul_add,
                    (beta.times_spec(y[n - 1]), xs[n - 1], start[i as int]),
                    value,
                ));
                assert(reaches(
                    mul_add,
                    beta,
                    xs,
                    y,
                    scaled(alpha, before[i as int]),
                    n,
                    value,
                ));
            }
            i += 1;
        }
        depth += 1;
    }
    scatter(dst, dst_at, 0, 0, col.as_slice());
    proof {
        assert forall|i: int| 0 <= i < m implies reaches(
            mul_add,
            beta,
            row(lhs@, lhs_at, i, k as int),
            y,
            scaled(alpha, first[dst_at.at(i, 0)]),
            k as nat,
            dst@[#[trigger] dst_at.at(i, 0)],
        ) by {
            assert(before[i] == first[dst_at.at(0 + i, 0)]);
            assert(col@[i - 0] == dst@[dst_at.at(i, 0)]);
        }
        assert forall|p: int|
            0 <= p < first.len() && !dst_at.covers(m as int, n as int, p) implies #[trigger] dst@[p]
            == first[p] by {
            assert forall|i: int| 0 <= i < 0 + col@.len() implies #[trigger] dst_at.at(i, 0)
                != p by {}
        }
    }
}

/// A zero `alpha` clears `dst`: whatever the arithmetic, what a kernel leaves does not depend on
/// what `dst` held, be it not a number or never written.
pub proof fn law_zero_alpha_ignores_dst<
    Lhs,
    Rhs,
    Dst: Element,
    Acc: Element,
    S: MixedSimd<Lhs, Rhs, Dst, Acc>,
>(
    axis: SplitAxis,
    simd: S,
    alpha: Acc,
    beta: Acc,
    x: Seq<Acc>,
    y: Seq<Acc>,
    dst1: Dst,
    dst2: Dst,
)
    requires
        alpha.is_zero_spec(),
        !alpha.is_one_spec(),
    ensures
        serial_entry(axis, simd, alpha, beta, x, y, dst1) == serial_entry(
            axis,
            simd,
            alpha,
            beta,
            x,
            y,
            dst2,
        ),
{
    if x.len() > 0 {
        lemma_cleared_steps(simd, alpha, beta, x, y, x.len(), dst1, dst2);
    }
}

/// The steps of the column-major kernel after a zero `alpha` do not depend on `dst`.
proof fn lemma_cleared_steps<
    Lhs,
    Rhs,
    Dst: Element,
    Acc: Element,
    S: MixedSimd<Lhs, Rhs, Dst, Acc>,
>(
    simd: S,
    alpha: Acc,
    beta: Acc,
    x: Seq<Acc>,
    y: Seq<Acc>,
    n: nat,
    dst1: Dst,
    dst2: Dst,
)
    requires
        n > 0,
        alpha.is_zero_spec(),
    ensures
        axpy_steps(simd, alpha, beta, x, y, n, dst1) == axpy_steps(
            simd,
            alpha,
            beta,
            x,
            y,
            n,
            dst2,
        ),
    decreases n,
{
    if n > 1 {
        lemma_cleared_steps(simd, alpha, beta, x, y, (n - 1) as nat, dst1, dst2);
    } else {
        reveal_with_fuel(axpy_steps, 2);
    }
}

/// The generic kernel clears `dst` for a zero `alpha` too.
pub proof fn law_zero_alpha_clears<T: Element>(alpha: T, v1: T, v2: T)
    requires
        alpha.is_zero_spec(),
    ensures
        scaled(alpha, v1) == scaled(alpha, v2),
        scaled(alpha, v1) == T::zero_spec(),
{
}

/// With nothing to multiply and an `alpha` of one, the column-major kernel leaves every entry as it
/// was, whatever the arithmetic.
pub proof fn law_empty_product_keeps_dst<
    Lhs,
    Rhs,
    Dst: Element,
    Acc: Element,
    S: MixedSimd<Lhs, Rhs, Dst, Acc>,
>(simd: S, alpha: Acc, beta: Acc, y: Seq<Acc>, dst: Dst)
    requires
        alpha.is_one_spec(),
    ensures
        serial_entry(
            SplitAxis::Depth,
            simd,
            alpha,
            beta,
            Seq::<Acc>::empty(),
            y,
            dst,
        ) == dst,
{
}

/// One depth more is one multiply-add more: the column-major kernel adds `a * (beta * b)` to what it
/// left for the depths before, in one fused step, and rounds the entry. That holds of the first
/// depth too where `alpha` is one.
pub proof fn law_colmajor_adds_depth_by_depth<
    Lhs,
    Rhs,
    Dst: Element,
    Acc: Element,
    S: MixedSimd<Lhs, Rhs, Dst, Acc>,
>(simd: S, alpha: Acc, beta: Acc, x: Seq<Acc>, y: Seq<Acc>, a: Acc, b: Acc, dst: Dst)
    requires
        x.len() > 0 || alpha.is_one_spec() && !alpha.is_zero_spec(),
        x.len() == y.len(),
        Acc::one_spec().is_one_spec(),
        !Acc::one_spec().is_zero_spec(),
    ensures
        serial_entry(SplitAxis::Depth, simd, alpha, beta, x.push(a), y.push(b), dst)
            == simd.into_dst_spec(
            simd.mult_add_spec(
                a,
                simd.mult_spec(beta, b),
                simd.from_dst_spec(
                    serial_entry(SplitAxis::Depth, simd, alpha, beta, x, y, dst),
                ),
            ),
        ),
{
    lemma_same_steps(simd, alpha, beta, x.push(a), y.push(b), x, y, x.len(), dst);
    let n = x.push(a).len();
    assert((n - 1) as nat == x.len());
    assert(x.push(a)[n - 1] == a && y.push(b)[n - 1] == b);
}

/// The first `n` steps read the first `n` depths alone.
proof fn lemma_same_steps<
    Lhs,
    Rhs,
    Dst: Element,
    Acc: Element,
    S: MixedSimd<Lhs, Rhs, Dst, Acc>,
>(
    simd: S,
    alpha: Acc,
    beta: Acc,
    x1: Seq<Acc>,
    y1: Seq<Acc>,
    x2: Seq<Acc>,
    y2: Seq<Acc>,
    n: nat,
    dst: Dst,
)
    requires
        forall|d: int| 0 <= d < n ==> #[trigger] x1[d] == x2[d],
        forall|d: int| 0 <= d < n ==> #[trigger] y1[d] == y2[d],
    ensures
        axpy_steps(simd, alpha, beta, x1, y1, n, dst) == axpy_steps(
            simd,
            alpha,
            beta,
            x2,
            y2,
            n,
            dst,
        ),
    decreases n,
{
    if n > 0 {
        lemma_same_steps(simd, alpha, beta, x1, y1, x2, y2, (n - 1) as nat, dst);
        assert(x1[n - 1] == x2[n - 1]);
        assert(y1[n - 1] == y2[n - 1]);
    }
}

/// Two arithmetics multiply-add and add alike.
pub open spec fn fuse_alike<Lhs, Rhs, Dst, Acc, S: MixedSimd<Lhs, Rhs, Dst, Acc>>(
    simd1: S,
    simd2: S,
) -> bool {
    &&& forall|a: Acc, b: Acc, c: Acc| #[trigger]
        simd1.mult_add_spec(a, b, c) == simd2.mult_add_spec(a, b, c)
    &&& forall|a: Acc, b: Acc| #[trigger] simd1.add_spec(a, b) == simd2.add_spec(a, b)
}

proof fn lemma_same_chain<Lhs, Rhs, Dst, Acc: Element, S: MixedSimd<Lhs, Rhs, Dst, Acc>>(
    simd1: S,
    simd2: S,
    x: Seq<Acc>,
    y: Seq<Acc>,
    start: int,
    step: int,
    n: nat,
    init: Acc,
)
    requires
        fuse_alike::<Lhs, Rhs, Dst, Acc, S>(simd1, simd2),
    ensures
        chain::<Lhs, Rhs, Dst, Acc, S>(simd1, x, y, start, step, n, init) == chain::<
            Lhs,
            Rhs,
            Dst,
            Acc,
            S,
        >(simd2, x, y, start, step, n, init),
    decreases n,
{
    if n > 0 {
        lemma_same_chain::<Lhs, Rhs, Dst, Acc, S>(
            simd1,
            simd2,
            x,
            y,
            start,
            step,
            (n - 1) as nat,
            init,
        );
    }
}

proof fn lemma_same_lane_sum<Lhs, Rhs, Dst, Acc: Element, S: MixedSimd<Lhs, Rhs, Dst, Acc>>(
    simd1: S,
    simd2: S,
    x: Seq<Acc>,
    y: Seq<Acc>,
    l: int,
)
    requires
        fuse_alike::<Lhs, Rhs, Dst, Acc, S>(simd1, simd2),
    ensures
        lane_sum::<Lhs, Rhs, Dst, Acc, S>(simd1, x, y, l) == lane_sum::<Lhs, Rhs, Dst, Acc, S>(
            simd2,
            x,
            y,
            l,
        ),
{
    let w = S::width() as int;
    let blocks = x.len() as int / (8 * w);
    let zero = Acc::zero_spec();
    let part1 = |j: int|
        chain::<Lhs, Rhs, Dst, Acc, S>(simd1, x, y, j * w + l, 8 * w, blocks as nat, zero);
    let part2 = |j: int|
        chain::<Lhs, Rhs, Dst, Acc, S>(simd2, x, y, j * w + l, 8 * w, blocks as nat, zero);
    assert forall|j: int| #[trigger] part1(j) == part2(j) by {
        lemma_same_chain::<Lhs, Rhs, Dst, Acc, S>(
            simd1,
            simd2,
            x,
            y,
            j * w + l,
            8 * w,
            blocks as nat,
            zero,
        );
    }
    let low = simd1.add_spec(
        simd1.add_spec(part1(0), part1(1)),
        simd1.add_spec(part1(2), part1(3)),
    );
    let high = simd1.add_spec(
        simd1.add_spec(part1(4), part1(5)),
        simd1.add_spec(part1(6), part1(7)),
    );
    lemma_same_chain::<Lhs, Rhs, Dst, Acc, S>(
        simd1,
        simd2,
        x,
        y,
        blocks * (8 * w) + l,
        w,
        (x.len() as int / w - 8 * blocks) as nat,
        simd1.add_spec(low, high),
    );
}

proof fn lemma_same_lanes_total<
    Lhs,
    Rhs,
    Dst,
    Acc: Element,
    S: MixedSimd<Lhs, Rhs, Dst, Acc>,
>(simd1: S, simd2: S, x: Seq<Acc>, y: Seq<Acc>, n: int)
    requires
        fuse_alike::<Lhs, Rhs, Dst, Acc, S>(simd1, simd2),
    ensures
        lanes_total::<Lhs, Rhs, Dst, Acc, S>(simd1, x, y, n) == lanes_total::<
            Lhs,
            Rhs,
            Dst,
            Acc,
            S,
        >(simd2, x, y, n),
    decreases n,
{
    if n <= 1 {
        lemma_same_lane_sum::<Lhs, Rhs, Dst, Acc, S>(simd1, simd2, x, y, 0);
    } else {
        lemma_same_lanes_total::<Lhs, Rhs, Dst, Acc, S>(simd1, simd2, x, y, n - 1);
        lemma_same_lane_sum::<Lhs, Rhs, Dst, Acc, S>(simd1, simd2, x, y, n - 1);
    }
}

/// The row-major kernel takes every product by a fused multiply-add: the sum that it weighs is the
/// same in any two arithmetics that multiply-add and add alike, however they multiply.
pub proof fn law_rowmajor_fuses_every_product<
    Lhs,
    Rhs,
    Dst,
    Acc: Element,
    S: MixedSimd<Lhs, Rhs, Dst, Acc>,
>(simd1: S, simd2: S, x: Seq<Acc>, y: Seq<Acc>)
    requires
        fuse_alike::<Lhs, Rhs, Dst, Acc, S>(simd1, simd2),
    ensures
        dot::<Lhs, Rhs, Dst, Acc, S>(simd1, x, y) == dot::<Lhs, Rhs, Dst, Acc, S>(simd2, x, y),
{
    let w = S::width() as int;
    let vectors = x.len() as int / w;
    lemma_same_lanes_total::<Lhs, Rhs, Dst, Acc, S>(simd1, simd2, x, y, w);
    lemma_same_chain::<Lhs, Rhs, Dst, Acc, S>(
        simd1,
        simd2,
        x,
        y,
        vectors * w,
        1,
        (x.len() - vectors * w) as nat,
        lanes_total::<Lhs, Rhs, Dst, Acc, S>(simd1, x, y, w),
    );
}

} // verus!
