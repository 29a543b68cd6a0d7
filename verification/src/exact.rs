//! What the kernels compute where the arithmetic is exact.
//!
//! The contracts of the kernels spell out every rounding step. Where nothing is rounded, because
//! the scalars obey the laws of a commutative semiring, all of them come to the same product:
//! `alpha * dst + beta * sum_d lhs[d] * rhs[d]`, whatever the layout, the vector width and the
//! number of threads.
use crate::element::Element;
use crate::gemv::{
    axpy_steps, chain, colmajor_entry, dot, epilogue, lane_sum, lanes_total, lhs_row, reaches,
    rhs_column, row, rowmajor_entry, scaled, serial_entry, serial_value, SplitAxis,
};
use crate::parallel::{
    column_total, may_use, parallel_entry, parallel_outcome, parallel_value, partial_total, reduced,
    task_grid, Parallelism,
};
use crate::simd::{MixedSimd, Scalar};
use crate::strides::{column, rewritten, Strides};
use crate::sums::{
    annihilates, associative, commutative, commutative_monoid, commutative_semiring, distributive,
    left_identity, lemma_distribute, lemma_regroup, lemma_swap, lemma_total_interleave, lemma_total_same, lemma_total_split, lemma_zero_plus,
    lemma_zero_times, total,
};
use crate::tasks::{law_ranges_tile, range_start_spec};
use vstd::prelude::*;

verus! {

/// The sum of two accumulators, as a function.
pub open spec fn plus_of<Lhs, Rhs, Dst, Acc, S: MixedSimd<Lhs, Rhs, Dst, Acc>>(
    simd: S,
) -> spec_fn(Acc, Acc) -> Acc {
    |a: Acc, b: Acc| simd.add_spec(a, b)
}

/// The product of two accumulators, as a function.
pub open spec fn times_of<Lhs, Rhs, Dst, Acc, S: MixedSimd<Lhs, Rhs, Dst, Acc>>(
    simd: S,
) -> spec_fn(Acc, Acc) -> Acc {
    |a: Acc, b: Acc| simd.mult_spec(a, b)
}

/// A fused multiply-add is a product and a sum.
#[verifier::opaque]
pub open spec fn fuses_exactly<Lhs, Rhs, Dst, Acc, S: MixedSimd<Lhs, Rhs, Dst, Acc>>(
    simd: S,
) -> bool {
    forall|a: Acc, b: Acc, c: Acc| #[trigger]
        simd.mult_add_spec(a, b, c) == simd.add_spec(simd.mult_spec(a, b), c)
}

/// Only zero counts as zero, and only one as one.
#[verifier::opaque]
pub open spec fn tests_exactly<Acc: Element>() -> bool {
    &&& forall|a: Acc| #[trigger] a.is_zero_spec() <==> a == Acc::zero_spec()
    &&& forall|a: Acc| #[trigger] a.is_one_spec() <==> a == Acc::one_spec()
    &&& Acc::zero_spec() != Acc::one_spec()
}

/// Nothing is lost between an accumulator and a destination value.
#[verifier::opaque]
pub open spec fn converts_exactly<
    Lhs,
    Rhs,
    Dst: Element,
    Acc: Element,
    S: MixedSimd<Lhs, Rhs, Dst, Acc>,
>(simd: S) -> bool {
    &&& forall|a: Acc| simd.from_dst_spec(#[trigger] simd.into_dst_spec(a)) == a
    &&& forall|d: Dst| simd.into_dst_spec(#[trigger] simd.from_dst_spec(d)) == d
    &&& simd.into_dst_spec(Acc::zero_spec()) == Dst::zero_spec()
}

/// Nothing is ever rounded.
pub open spec fn exact_arithmetic<
    Lhs,
    Rhs,
    Dst: Element,
    Acc: Element,
    S: MixedSimd<Lhs, Rhs, Dst, Acc>,
>(simd: S) -> bool {
    &&& commutative_semiring(
        plus_of::<Lhs, Rhs, Dst, Acc, S>(simd),
        times_of::<Lhs, Rhs, Dst, Acc, S>(simd),
        Acc::zero_spec(),
        Acc::one_spec(),
    )
    &&& fuses_exactly::<Lhs, Rhs, Dst, Acc, S>(simd)
    &&& tests_exactly::<Acc>()
    &&& converts_exactly::<Lhs, Rhs, Dst, Acc, S>(simd)
}

/// The products of the entries of `x` and `y`.
pub open spec fn terms<Lhs, Rhs, Dst, Acc, S: MixedSimd<Lhs, Rhs, Dst, Acc>>(
    simd: S,
    x: Seq<Acc>,
    y: Seq<Acc>,
) -> spec_fn(int) -> Acc {
    |d: int| simd.mult_spec(x[d], y[d])
}

/// The sum of the first `n` products of the entries of `x` and `y`.
pub open spec fn sum_of<Lhs, Rhs, Dst, Acc: Element, S: MixedSimd<Lhs, Rhs, Dst, Acc>>(
    simd: S,
    x: Seq<Acc>,
    y: Seq<Acc>,
    n: nat,
) -> Acc {
    total(
        plus_of::<Lhs, Rhs, Dst, Acc, S>(simd),
        Acc::zero_spec(),
        terms::<Lhs, Rhs, Dst, Acc, S>(simd, x, y),
        n,
    )
}

/// `alpha * dst + beta * sum`.
pub open spec fn weighted<
    Lhs,
    Rhs,
    Dst: Element,
    Acc: Element,
    S: MixedSimd<Lhs, Rhs, Dst, Acc>,
>(simd: S, alpha: Acc, beta: Acc, sum: Acc, dst: Dst) -> Dst {
    simd.into_dst_spec(
        simd.add_spec(
            simd.mult_spec(alpha, simd.from_dst_spec(dst)),
            simd.mult_spec(beta, sum),
        ),
    )
}

/// `alpha * dst + beta * sum_d x[d] * y[d]`.
pub open spec fn exact_entry<
    Lhs,
    Rhs,
    Dst: Element,
    Acc: Element,
    S: MixedSimd<Lhs, Rhs, Dst, Acc>,
>(simd: S, alpha: Acc, beta: Acc, x: Seq<Acc>, y: Seq<Acc>, dst: Dst) -> Dst {
    weighted(
        simd,
        alpha,
        beta,
        sum_of::<Lhs, Rhs, Dst, Acc, S>(simd, x, y, x.len()),
        dst,
    )
}

/// A chain of multiply-adds is the sum of its products.
proof fn lemma_chain<Lhs, Rhs, Dst: Element, Acc: Element, S: MixedSimd<Lhs, Rhs, Dst, Acc>>(
    simd: S,
    x: Seq<Acc>,
    y: Seq<Acc>,
    start: int,
    step: int,
    n: nat,
    init: Acc,
)
    requires
        exact_arithmetic::<Lhs, Rhs, Dst, Acc, S>(simd),
    ensures
        chain::<Lhs, Rhs, Dst, Acc, S>(simd, x, y, start, step, n, init) == simd.add_spec(
            init,
            total(
                plus_of::<Lhs, Rhs, Dst, Acc, S>(simd),
                Acc::zero_spec(),
                |t: int| terms::<Lhs, Rhs, Dst, Acc, S>(simd, x, y)(start + t * step),
                n,
            ),
        ),
    decreases n,
{
    let plus = plus_of::<Lhs, Rhs, Dst, Acc, S>(simd);
    let zero = Acc::zero_spec();
    let g = |t: int| terms::<Lhs, Rhs, Dst, Acc, S>(simd, x, y)(start + t * step);
    if n == 0 {
        lemma_swap(plus, init, zero);
        lemma_zero_plus(plus, zero, init);
    } else {
        let m = (n - 1) as nat;
        lemma_chain::<Lhs, Rhs, Dst, Acc, S>(simd, x, y, start, step, m, init);
        let p = g(n - 1);
        let before = total(plus, zero, g, m);
        assert(chain::<Lhs, Rhs, Dst, Acc, S>(simd, x, y, start, step, n, init) == plus(
            p,
            plus(init, before),
        )) by {
            reveal(fuses_exactly);
        }
        lemma_swap(plus, p, plus(init, before));
        lemma_regroup(plus, init, before, p);
    }
}

/// Eight running sums, added up pairwise, come to what they come to from left to right.
proof fn lemma_eight<A>(plus: spec_fn(A, A) -> A, zero: A, g: spec_fn(int) -> A)
    requires
        commutative_monoid(plus, zero),
    ensures
        plus(
            plus(plus(g(0), g(1)), plus(g(2), g(3))),
            plus(plus(g(4), g(5)), plus(g(6), g(7))),
        ) == total(plus, zero, g, 8),
{
    reveal_with_fuel(total, 9);
    let t4 = plus(plus(plus(g(0), g(1)), g(2)), g(3));
    lemma_zero_plus(plus, zero, g(0));
    lemma_regroup(plus, plus(g(0), g(1)), g(2), g(3));
    lemma_regroup(plus, plus(t4, plus(g(4), g(5))), g(6), g(7));
    lemma_regroup(plus, t4, g(4), g(5));
    lemma_regroup(plus, t4, plus(g(4), g(5)), plus(g(6), g(7)));
}

/// A lane of the row-major kernel gathers every product that falls into it.
proof fn lemma_lane_sum<
    Lhs,
    Rhs,
    Dst: Element,
    Acc: Element,
    S: MixedSimd<Lhs, Rhs, Dst, Acc>,
>(simd: S, x: Seq<Acc>, y: Seq<Acc>, l: int)
    requires
        S::width() > 0,
        exact_arithmetic::<Lhs, Rhs, Dst, Acc, S>(simd),
    ensures
        lane_sum::<Lhs, Rhs, Dst, Acc, S>(simd, x, y, l) == total(
            plus_of::<Lhs, Rhs, Dst, Acc, S>(simd),
            Acc::zero_spec(),
            |v: int| terms::<Lhs, Rhs, Dst, Acc, S>(simd, x, y)(l + v * S::width()),
            (x.len() as int / S::width() as int) as nat,
        ),
{
    let plus = plus_of::<Lhs, Rhs, Dst, Acc, S>(simd);
    let zero = Acc::zero_spec();
    let term = terms::<Lhs, Rhs, Dst, Acc, S>(simd, x, y);
    let w = S::width() as int;
    let len = x.len() as int;
    let blocks = len / (8 * w);
    let vectors = len / w;
    let h = |v: int| term(l + v * w);
    assert(0 <= 8 * blocks <= vectors) by (nonlinear_arith)
        requires
            w > 0,
            len >= 0,
            blocks == len / (8 * w),
            vectors == len / w,
    ;
    let part = |j: int|
        chain::<Lhs, Rhs, Dst, Acc, S>(simd, x, y, j * w + l, 8 * w, blocks as nat, zero);
    let dealt = |j: int| total(plus, zero, |t: int| h(j + t * 8nat), blocks as nat);
    assert forall|j: int| 0 <= j < 8 implies #[trigger] part(j) == dealt(j) by {
        lemma_chain::<Lhs, Rhs, Dst, Acc, S>(simd, x, y, j * w + l, 8 * w, blocks as nat, zero);
        let g1 = |t: int| term((j * w + l) + t * (8 * w));
        let g2 = |t: int| h(j + t * 8nat);
        assert forall|t: int| 0 <= t < blocks implies #[trigger] g1(t) == g2(t) by {
            assert((j * w + l) + t * (8 * w) == l + (j + t * 8) * w) by (nonlinear_arith);
        }
        lemma_total_same(plus, zero, g1, g2, blocks as nat);
        lemma_zero_plus(plus, zero, total(plus, zero, g1, blocks as nat));
    }
    lemma_eight(plus, zero, part);
    lemma_total_same(plus, zero, part, dealt, 8);
    lemma_total_interleave(plus, zero, h, 8, blocks as nat);
    let done = total(plus, zero, h, 8 * blocks as nat);
    let rest = (vectors - 8 * blocks) as nat;
    lemma_chain::<Lhs, Rhs, Dst, Acc, S>(simd, x, y, blocks * (8 * w) + l, w, rest, done);
    let g1 = |t: int| term((blocks * (8 * w) + l) + t * w);
    let g2 = |t: int| h((8 * blocks as nat) as nat + t);
    assert forall|t: int| 0 <= t < rest implies #[trigger] g1(t) == g2(t) by {
        assert((blocks * (8 * w) + l) + t * w == l + (8 * blocks + t) * w) by (nonlinear_arith);
    }
    lemma_total_same(plus, zero, g1, g2, rest);
    lemma_total_split(plus, zero, h, (8 * blocks) as nat, rest);
    assert(lane_sum::<Lhs, Rhs, Dst, Acc, S>(simd, x, y, l) == chain::<Lhs, Rhs, Dst, Acc, S>(
        simd,
        x,
        y,
        blocks * (8 * w) + l,
        w,
        rest,
        plus(
            plus(plus(part(0), part(1)), plus(part(2), part(3))),
            plus(plus(part(4), part(5)), plus(part(6), part(7))),
        ),
    ));
}

/// Adding up the lanes adds up their sums.
proof fn lemma_lanes_total<
    Lhs,
    Rhs,
    Dst: Element,
    Acc: Element,
    S: MixedSimd<Lhs, Rhs, Dst, Acc>,
>(simd: S, x: Seq<Acc>, y: Seq<Acc>, n: int)
    requires
        n > 0,
        exact_arithmetic::<Lhs, Rhs, Dst, Acc, S>(simd),
    ensures
        lanes_total::<Lhs, Rhs, Dst, Acc, S>(simd, x, y, n) == total(
            plus_of::<Lhs, Rhs, Dst, Acc, S>(simd),
            Acc::zero_spec(),
            |l: int| lane_sum::<Lhs, Rhs, Dst, Acc, S>(simd, x, y, l),
            n as nat,
        ),
    decreases n,
{
    let plus = plus_of::<Lhs, Rhs, Dst, Acc, S>(simd);
    let zero = Acc::zero_spec();
    let g = |l: int| lane_sum::<Lhs, Rhs, Dst, Acc, S>(simd, x, y, l);
    if n == 1 {
        reveal_with_fuel(total, 2);
        lemma_zero_plus(plus, zero, g(0));
    } else {
        lemma_lanes_total::<Lhs, Rhs, Dst, Acc, S>(simd, x, y, n - 1);
    }
}

/// The dot product of the row-major kernel is the sum of the products.
pub proof fn lemma_dot<
    Lhs,
    Rhs,
    Dst: Element,
    Acc: Element,
    S: MixedSimd<Lhs, Rhs, Dst, Acc>,
>(simd: S, x: Seq<Acc>, y: Seq<Acc>)
    requires
        S::width() > 0,
        exact_arithmetic::<Lhs, Rhs, Dst, Acc, S>(simd),
    ensures
        dot::<Lhs, Rhs, Dst, Acc, S>(simd, x, y) == sum_of::<Lhs, Rhs, Dst, Acc, S>(
            simd,
            x,
            y,
            x.len(),
        ),
{
    let plus = plus_of::<Lhs, Rhs, Dst, Acc, S>(simd);
    let zero = Acc::zero_spec();
    let term = terms::<Lhs, Rhs, Dst, Acc, S>(simd, x, y);
    let w = S::width() as int;
    let vectors = x.len() as int / w;
    assert(0 <= vectors && 0 <= vectors * w <= x.len() && vectors * w == w * vectors)
        by (nonlinear_arith)
        requires
            w > 0,
            x.len() >= 0,
            vectors == x.len() as int / w,
    ;
    lemma_lanes_total::<Lhs, Rhs, Dst, Acc, S>(simd, x, y, w);
    let lanes = |l: int| lane_sum::<Lhs, Rhs, Dst, Acc, S>(simd, x, y, l);
    let dealt = |l: int| total(plus, zero, |v: int| term(l + v * S::width()), vectors as nat);
    assert forall|l: int| 0 <= l < w implies #[trigger] lanes(l) == dealt(l) by {
        lemma_lane_sum::<Lhs, Rhs, Dst, Acc, S>(simd, x, y, l);
    }
    lemma_total_same(plus, zero, lanes, dealt, w as nat);
    lemma_total_interleave(plus, zero, term, S::width(), vectors as nat);
    let done = (w * vectors) as nat;
    let rest = (x.len() - vectors * w) as nat;
    lemma_chain::<Lhs, Rhs, Dst, Acc, S>(
        simd,
        x,
        y,
        vectors * w,
        1,
        rest,
        total(plus, zero, term, done),
    );
    let g1 = |t: int| term(vectors * w + t * 1);
    let g2 = |t: int| term(done + t);
    lemma_total_same(plus, zero, g1, g2, rest);
    lemma_total_split(plus, zero, term, done, rest);
}

/// The last step of a product, without a special case for a zero `alpha`.
proof fn lemma_epilogue<
    Lhs,
    Rhs,
    Dst: Element,
    Acc: Element,
    S: MixedSimd<Lhs, Rhs, Dst, Acc>,
>(simd: S, alpha: Acc, beta: Acc, sum: Acc, dst: Dst)
    requires
        exact_arithmetic::<Lhs, Rhs, Dst, Acc, S>(simd),
    ensures
        epilogue(simd, alpha, beta, sum, dst) == weighted(simd, alpha, beta, sum, dst),
{
    let plus = plus_of::<Lhs, Rhs, Dst, Acc, S>(simd);
    let times = times_of::<Lhs, Rhs, Dst, Acc, S>(simd);
    let zero = Acc::zero_spec();
    let d = simd.from_dst_spec(dst);
    lemma_swap(times, sum, beta);
    lemma_swap(times, d, alpha);
    lemma_swap(plus, times(beta, sum), times(alpha, d));
    if alpha.is_zero_spec() {
        assert(alpha == zero) by {
            reveal(tests_exactly);
        }
        lemma_zero_times(times, zero, d);
        lemma_zero_plus(plus, zero, times(beta, sum));
    }
}

/// The first `n` steps of the column-major kernel come to the product of the first `n` depths.
proof fn lemma_axpy_steps<
    Lhs,
    Rhs,
    Dst: Element,
    Acc: Element,
    S: MixedSimd<Lhs, Rhs, Dst, Acc>,
>(simd: S, alpha: Acc, beta: Acc, x: Seq<Acc>, y: Seq<Acc>, n: nat, dst: Dst)
    requires
        n > 0,
        exact_arithmetic::<Lhs, Rhs, Dst, Acc, S>(simd),
    ensures
        axpy_steps(simd, alpha, beta, x, y, n, dst) == weighted(
            simd,
            alpha,
            beta,
            sum_of::<Lhs, Rhs, Dst, Acc, S>(simd, x, y, n),
            dst,
        ),
    decreases n,
{
    let plus = plus_of::<Lhs, Rhs, Dst, Acc, S>(simd);
    let times = times_of::<Lhs, Rhs, Dst, Acc, S>(simd);
    let zero = Acc::zero_spec();
    let one = Acc::one_spec();
    let m = (n - 1) as nat;
    let xd = x[n - 1];
    let yd = y[n - 1];
    let before = sum_of::<Lhs, Rhs, Dst, Acc, S>(simd, x, y, m);
    let start = times(alpha, simd.from_dst_spec(dst));
    let step = times(xd, times(beta, yd));
    // x * (beta * y) == beta * (x * y)
    lemma_regroup(times, xd, beta, yd);
    lemma_swap(times, xd, beta);
    lemma_regroup(times, beta, xd, yd);
    lemma_distribute(plus, times, beta, before, times(xd, yd));
    reveal(fuses_exactly);
    reveal(tests_exactly);
    if n == 1 {
        reveal_with_fuel(axpy_steps, 2);
        reveal_with_fuel(total, 2);
        lemma_zero_plus(plus, zero, times(xd, yd));
        lemma_swap(plus, step, start);
        if alpha == zero {
            lemma_zero_times(times, zero, simd.from_dst_spec(dst));
            lemma_zero_plus(plus, zero, step);
        } else if alpha == one {
            lemma_zero_plus(times, one, simd.from_dst_spec(dst));
        }
    } else {
        lemma_axpy_steps(simd, alpha, beta, x, y, m, dst);
        let mid = plus(start, times(beta, before));
        assert(simd.from_dst_spec(simd.into_dst_spec(mid)) == mid) by {
            reveal(converts_exactly);
        }
        lemma_swap(plus, step, mid);
        lemma_regroup(plus, start, times(beta, before), step);
    }
}

/// Where nothing is rounded, each serial kernel leaves `alpha * dst + beta * sum_d x[d] * y[d]` in
/// the entry of `dst` where the row `x` of `lhs` and the column `y` of `rhs` meet.
pub proof fn law_serial_is_product<
    Lhs,
    Rhs,
    Dst: Element,
    Acc: Element,
    S: MixedSimd<Lhs, Rhs, Dst, Acc>,
>(axis: SplitAxis, simd: S, alpha: Acc, beta: Acc, x: Seq<Acc>, y: Seq<Acc>, dst: Dst)
    requires
        S::width() > 0,
        exact_arithmetic::<Lhs, Rhs, Dst, Acc, S>(simd),
    ensures
        serial_entry(axis, simd, alpha, beta, x, y, dst) == exact_entry(
            simd,
            alpha,
            beta,
            x,
            y,
            dst,
        ),
{
    match axis {
        SplitAxis::Rows => {
            lemma_dot::<Lhs, Rhs, Dst, Acc, S>(simd, x, y);
            lemma_epilogue(simd, alpha, beta, dot::<Lhs, Rhs, Dst, Acc, S>(simd, x, y), dst);
        },
        SplitAxis::Depth => {
            if x.len() > 0 {
                lemma_axpy_steps(simd, alpha, beta, x, y, x.len(), dst);
            } else {
                let plus = plus_of::<Lhs, Rhs, Dst, Acc, S>(simd);
                let times = times_of::<Lhs, Rhs, Dst, Acc, S>(simd);
                let zero = Acc::zero_spec();
                let d = simd.from_dst_spec(dst);
                // beta * 0 adds nothing
                lemma_swap(times, beta, zero);
                lemma_zero_times(times, zero, beta);
                lemma_swap(plus, times(alpha, d), zero);
                lemma_zero_plus(plus, zero, times(alpha, d));
                lemma_swap(times, alpha, d);
                lemma_zero_plus(times, Acc::one_spec(), d);
                lemma_zero_times(times, zero, d);
                reveal(tests_exactly);
                reveal(converts_exactly);
            }
        },
    }
}

/// The first `n` depth slices add up to the sum of the products of their depths.
proof fn lemma_partial_total<
    Lhs,
    Rhs,
    Dst: Element,
    Acc: Element,
    S: MixedSimd<Lhs, Rhs, Dst, Acc>,
>(axis: SplitAxis, simd: S, x: Seq<Acc>, y: Seq<Acc>, n_depth: int, n: nat)
    requires
        n <= n_depth,
        n_depth > 0,
        x.len() == y.len(),
        S::width() > 0,
        exact_arithmetic::<Lhs, Rhs, Dst, Acc, S>(simd),
    ensures
        partial_total::<Lhs, Rhs, Dst, Acc, S>(axis, simd, x, y, n_depth, n) == sum_of::<
            Lhs,
            Rhs,
            Dst,
            Acc,
            S,
        >(simd, x, y, range_start_spec(n as int, n_depth, x.len() as int, 1) as nat),
    decreases n,
{
    let plus = plus_of::<Lhs, Rhs, Dst, Acc, S>(simd);
    let times = times_of::<Lhs, Rhs, Dst, Acc, S>(simd);
    let zero = Acc::zero_spec();
    let one = Acc::one_spec();
    if n == 0 {
        law_ranges_tile(0, n_depth, x.len() as int, 1);
    } else {
        let m = (n - 1) as nat;
        lemma_partial_total::<Lhs, Rhs, Dst, Acc, S>(axis, simd, x, y, n_depth, m);
        law_ranges_tile(m as int, n_depth, x.len() as int, 1);
        let d0 = range_start_spec(m as int, n_depth, x.len() as int, 1);
        let d1 = range_start_spec(n as int, n_depth, x.len() as int, 1);
        let xs = x.subrange(d0, d1);
        let ys = y.subrange(d0, d1);
        let clear = Dst::zero_spec();
        law_serial_is_product::<Lhs, Rhs, Dst, Acc, S>(axis, simd, zero, one, xs, ys, clear);
        let slice = sum_of::<Lhs, Rhs, Dst, Acc, S>(simd, xs, ys, xs.len());
        lemma_zero_times(times, zero, simd.from_dst_spec(clear));
        lemma_zero_plus(times, one, slice);
        lemma_zero_plus(plus, zero, slice);
        assert(simd.from_dst_spec(simd.into_dst_spec(slice)) == slice) by {
            reveal(converts_exactly);
        }
        let all = terms::<Lhs, Rhs, Dst, Acc, S>(simd, x, y);
        let inner = terms::<Lhs, Rhs, Dst, Acc, S>(simd, xs, ys);
        let shifted = |d: int| all(d0 as nat + d);
        assert forall|d: int| 0 <= d < xs.len() implies #[trigger] inner(d) == shifted(d) by {}
        lemma_total_same(plus, zero, inner, shifted, xs.len());
        lemma_total_split(plus, zero, all, d0 as nat, xs.len());
        assert(d0 as nat + xs.len() == d1 as nat);
    }
}

/// Where nothing is rounded, a product leaves `alpha * dst + beta * sum_d x[d] * y[d]` in an entry
/// of `dst`, into however many depth slices it was cut.
pub proof fn law_parallel_is_product<
    Lhs,
    Rhs,
    Dst: Element,
    Acc: Element,
    S: MixedSimd<Lhs, Rhs, Dst, Acc>,
>(
    axis: SplitAxis,
    simd: S,
    n_depth: int,
    alpha: Acc,
    beta: Acc,
    x: Seq<Acc>,
    y: Seq<Acc>,
    dst: Dst,
)
    requires
        x.len() == y.len(),
        S::width() > 0,
        exact_arithmetic::<Lhs, Rhs, Dst, Acc, S>(simd),
    ensures
        parallel_entry(axis, simd, n_depth, alpha, beta, x, y, dst) == exact_entry(
            simd,
            alpha,
            beta,
            x,
            y,
            dst,
        ),
{
    if n_depth <= 1 {
        law_serial_is_product(axis, simd, alpha, beta, x, y, dst);
    } else {
        lemma_partial_total::<Lhs, Rhs, Dst, Acc, S>(axis, simd, x, y, n_depth, n_depth as nat);
        lemma_epilogue(
            simd,
            alpha,
            beta,
            sum_of::<Lhs, Rhs, Dst, Acc, S>(simd, x, y, x.len()),
            dst,
        );
    }
}

/// Where nothing is rounded, the number of threads does not change the product: any two splits
/// leave the same in an entry of `dst`, and so does the serial kernel.
pub proof fn law_parallel_matches_serial<
    Lhs,
    Rhs,
    Dst: Element,
    Acc: Element,
    S: MixedSimd<Lhs, Rhs, Dst, Acc>,
>(
    axis: SplitAxis,
    simd: S,
    n_depth: int,
    alpha: Acc,
    beta: Acc,
    x: Seq<Acc>,
    y: Seq<Acc>,
    dst: Dst,
)
    requires
        x.len() == y.len(),
        S::width() > 0,
        exact_arithmetic::<Lhs, Rhs, Dst, Acc, S>(simd),
    ensures
        parallel_entry(axis, simd, n_depth, alpha, beta, x, y, dst) == serial_entry(
            axis,
            simd,
            alpha,
            beta,
            x,
            y,
            dst,
        ),
{
    law_parallel_is_product(axis, simd, n_depth, alpha, beta, x, y, dst);
    law_serial_is_product(axis, simd, alpha, beta, x, y, dst);
}

/// Where nothing is rounded, the column-major and the row-major kernel agree.
pub proof fn law_layouts_agree<
    Lhs,
    Rhs,
    Dst: Element,
    Acc: Element,
    S: MixedSimd<Lhs, Rhs, Dst, Acc>,
>(simd: S, alpha: Acc, beta: Acc, x: Seq<Acc>, y: Seq<Acc>, dst: Dst)
    requires
        S::width() > 0,
        exact_arithmetic::<Lhs, Rhs, Dst, Acc, S>(simd),
    ensures
        rowmajor_entry(simd, alpha, beta, x, y, dst) == colmajor_entry(
            simd,
            alpha,
            beta,
            x,
            y,
            dst,
        ),
{
    law_serial_is_product(SplitAxis::Rows, simd, alpha, beta, x, y, dst);
    law_serial_is_product(SplitAxis::Depth, simd, alpha, beta, x, y, dst);
}

/// Where nothing is rounded, and `mul_add(a, b, c)` is `a * b + c`, the generic kernel leaves
/// `alpha * dst + beta * sum_d x[d] * y[d]` too.
pub proof fn law_gemv_is_product<T: Element, F: Fn(T, T, T) -> T>(
    mul_add: F,
    alpha: T,
    beta: T,
    x: Seq<T>,
    y: Seq<T>,
    dst: T,
    n: nat,
    r: T,
)
    requires
        exact_arithmetic::<T, T, T, T, Scalar>(Scalar),
        forall|a: T, b: T, c: T, v: T| #[trigger]
            call_ensures(mul_add, (a, b, c), v) ==> v == a.times_spec(b).plus_spec(c),
        reaches(mul_add, beta, x, y, scaled(alpha, dst), n, r),
    ensures
        r == weighted::<T, T, T, T, Scalar>(
            Scalar,
            alpha,
            beta,
            sum_of::<T, T, T, T, Scalar>(Scalar, x, y, n),
            dst,
        ),
    decreases n,
{
    let plus = plus_of::<T, T, T, T, Scalar>(Scalar);
    let times = times_of::<T, T, T, T, Scalar>(Scalar);
    let zero = T::zero_spec();
    let start = times(alpha, dst);
    if n == 0 {
        lemma_swap(times, beta, zero);
        lemma_zero_times(times, zero, beta);
        lemma_swap(plus, start, zero);
        lemma_zero_plus(plus, zero, start);
        lemma_zero_times(times, zero, dst);
        reveal(tests_exactly);
    } else {
        let m = (n - 1) as nat;
        let xd = x[n - 1];
        let yd = y[n - 1];
        let mid = choose|mid: T|
            reaches(mul_add, beta, x, y, scaled(alpha, dst), m, mid) && #[trigger] call_ensures(
                mul_add,
                (beta.times_spec(yd), xd, mid),
                r,
            );
        law_gemv_is_product(mul_add, alpha, beta, x, y, dst, m, mid);
        let before = sum_of::<T, T, T, T, Scalar>(Scalar, x, y, m);
        let step = times(times(beta, yd), xd);
        lemma_regroup(times, beta, yd, xd);
        lemma_swap(times, yd, xd);
        lemma_distribute(plus, times, beta, before, times(xd, yd));
        lemma_swap(plus, step, mid);
        lemma_regroup(plus, start, times(beta, before), step);
    }
}

/// The number of `i64` values.
pub open spec fn wrap() -> int {
    0x1_0000_0000_0000_0000
}

/// A wrapped sum is off by a multiple of 2^64, which is returned.
proof fn lemma_wrapped_sum(a: i64, b: i64) -> (q: int)
    ensures
        a.plus_spec(b) == a + b - wrap() * q,
{
    if a + b > i64::MAX {
        1
    } else if a + b < i64::MIN {
        -1
    } else {
        0
    }
}

/// A wrapped product is off by a multiple of 2^64, which is returned.
proof fn lemma_wrapped_product(a: i64, b: i64) -> (q: int)
    ensures
        a.times_spec(b) == a * b - wrap() * q,
{
    let p = a * b;
    vstd::arithmetic::div_mod::lemma_fundamental_div_mod(p, wrap());
    vstd::arithmetic::div_mod::lemma_mod_bound(p, wrap());
    if p % wrap() > i64::MAX {
        p / wrap() + 1
    } else {
        p / wrap()
    }
}

/// Wrapping integers are exact: modulo 2^64 they obey every law of a commutative semiring. So all
/// kernels, splits and thread counts give the same integer product.
pub proof fn law_wrapping_integers_are_exact()
    ensures
        exact_arithmetic::<i64, i64, i64, i64, Scalar>(Scalar),
{
    let plus = plus_of::<i64, i64, i64, i64, Scalar>(Scalar);
    let times = times_of::<i64, i64, i64, i64, Scalar>(Scalar);
    assert(left_identity(plus, 0i64)) by {
        reveal(left_identity);
    }
    assert(commutative(plus)) by {
        reveal(commutative);
    }
    assert(associative(plus)) by {
        reveal(associative);
        assert forall|a: i64, b: i64, c: i64| #[trigger]
            plus(plus(a, b), c) == plus(a, plus(b, c)) by {
            let q1 = lemma_wrapped_sum(a, b);
            let q2 = lemma_wrapped_sum(plus(a, b), c);
            let q3 = lemma_wrapped_sum(b, c);
            let q4 = lemma_wrapped_sum(a, plus(b, c));
        }
    }
    assert(left_identity(times, 1i64)) by {
        reveal(left_identity);
        assert forall|a: i64| #[trigger] times(1i64, a) == a by {
            let q = lemma_wrapped_product(1, a);
        }
    }
    assert(commutative(times)) by {
        reveal(commutative);
        assert forall|a: i64, b: i64| #[trigger] times(a, b) == times(b, a) by {
            assert(a * b == b * a) by (nonlinear_arith);
        }
    }
    assert(associative(times)) by {
        reveal(associative);
        assert forall|a: i64, b: i64, c: i64| #[trigger]
            times(times(a, b), c) == times(a, times(b, c)) by {
            let q1 = lemma_wrapped_product(a, b);
            let q2 = lemma_wrapped_product(times(a, b), c);
            let q3 = lemma_wrapped_product(b, c);
            let q4 = lemma_wrapped_product(a, times(b, c));
            assert((a * b - wrap() * q1) * c == (a * b) * c - wrap() * (q1 * c)) by (nonlinear_arith);
            assert(a * (b * c - wrap() * q3) == a * (b * c) - wrap() * (a * q3)) by (nonlinear_arith);
            assert((a * b) * c == a * (b * c)) by (nonlinear_arith);
            let (l, r) = (times(times(a, b), c) as int, times(a, times(b, c)) as int);
            assert(l - r == wrap() * (a * q3 + q4 - q1 * c - q2));
        }
    }
    assert(distributive(plus, times)) by {
        reveal(distributive);
        assert forall|a: i64, b: i64, c: i64| #[trigger]
            times(a, plus(b, c)) == plus(times(a, b), times(a, c)) by {
            let q1 = lemma_wrapped_sum(b, c);
            let q2 = lemma_wrapped_product(a, plus(b, c));
            let q3 = lemma_wrapped_product(a, b);
            let q4 = lemma_wrapped_product(a, c);
            let q5 = lemma_wrapped_sum(times(a, b), times(a, c));
            assert(a * (b + c - wrap() * q1) == a * b + a * c - wrap() * (a * q1))
                by (nonlinear_arith);
            let (l, r) = (times(a, plus(b, c)) as int, plus(times(a, b), times(a, c)) as int);
            assert(l - r == wrap() * (q3 + q4 + q5 - a * q1 - q2));
        }
    }
    assert(annihilates(times, 0i64)) by {
        reveal(annihilates);
        assert forall|a: i64| #[trigger] times(0i64, a) == 0i64 by {
            assert(0 * a == 0);
        }
    }
    assert(fuses_exactly::<i64, i64, i64, i64, Scalar>(Scalar)) by {
        reveal(fuses_exactly);
    }
    assert(tests_exactly::<i64>()) by {
        reveal(tests_exactly);
    }
    assert(converts_exactly::<i64, i64, i64, i64, Scalar>(Scalar)) by {
        reveal(converts_exactly);
    }
}

/// Where nothing is rounded, the number of threads never shows: whatever the parallelism, the
/// threading threshold and the axis, a product leaves the whole of `dst` as the serial kernel
/// leaves it, and nothing changes outside the output.
pub proof fn law_threads_leave_same_dst<
    Lhs,
    Rhs,
    Dst: Element,
    Acc: Element,
    S: MixedSimd<Lhs, Rhs, Dst, Acc>,
>(
    axis: SplitAxis,
    simd: S,
    m: int,
    n: int,
    k: int,
    dst: Seq<Dst>,
    serial: Seq<Dst>,
    parallel: Seq<Dst>,
    dst_at: Strides,
    lhs: Seq<Lhs>,
    lhs_at: Strides,
    rhs: Seq<Rhs>,
    rhs_at: Strides,
    alpha: Acc,
    beta: Acc,
    parallelism: Parallelism,
    threading_threshold: int,
)
    requires
        k >= 0,
        S::width() > 0,
        exact_arithmetic::<Lhs, Rhs, Dst, Acc, S>(simd),
        rewritten(
            dst,
            serial,
            dst_at,
            m,
            n,
            serial_value(axis, simd, k, dst, dst_at, lhs, lhs_at, rhs, rhs_at, alpha, beta),
        ),
        parallel_outcome(
            axis,
            simd,
            m,
            n,
            k,
            dst,
            parallel,
            dst_at,
            lhs,
            lhs_at,
            rhs,
            rhs_at,
            alpha,
            beta,
            parallelism,
            threading_threshold,
        ),
    ensures
        parallel == serial,
        forall|p: int|
            0 <= p < dst.len() && !dst_at.covers(m, n, p) ==> #[trigger] parallel[p] == dst[p],
{
    let t = choose|t: int|
        #[trigger] may_use(parallelism, threading_threshold, m, n, k, t) && rewritten(
            dst,
            parallel,
            dst_at,
            m,
            n,
            parallel_value(
                axis,
                simd,
                task_grid::<Dst>(axis, S::width() as int, t, m, n, k).1,
                k,
                dst,
                dst_at,
                lhs,
                lhs_at,
                rhs,
                rhs_at,
                alpha,
                beta,
            ),
        );
    let n_depth = task_grid::<Dst>(axis, S::width() as int, t, m, n, k).1;
    assert forall|p: int| 0 <= p < dst.len() implies parallel[p] == serial[p] by {
        if dst_at.covers(m, n, p) {
            let (i, j) = choose|i: int, j: int|
                0 <= i < m && 0 <= j < n && #[trigger] dst_at.at(i, j) == p;
            law_parallel_matches_serial(
                axis,
                simd,
                n_depth,
                alpha,
                beta,
                lhs_row::<Lhs, Rhs, Dst, Acc, S>(simd, lhs, lhs_at, i, 0, k),
                rhs_column::<Lhs, Rhs, Dst, Acc, S>(simd, rhs, rhs_at, j, 0, k),
                dst[dst_at.at(i, j)],
            );
        }
    }
    assert(parallel =~= serial);
}

/// Where nothing is rounded, the reduction leaves `alpha * dst + beta * sum_j partial[j]` in a row.
pub proof fn law_reduction_is_weighted_sum<
    Lhs,
    Rhs,
    Dst: Element,
    Acc: Element,
    S: MixedSimd<Lhs, Rhs, Dst, Acc>,
>(
    simd: S,
    partial: Seq<Dst>,
    stride: int,
    n_depth: nat,
    dst: Seq<Dst>,
    dst_at: Strides,
    alpha: Acc,
    beta: Acc,
    row: int,
)
    requires
        exact_arithmetic::<Lhs, Rhs, Dst, Acc, S>(simd),
    ensures
        reduced(simd, partial, stride, n_depth as int, dst, dst_at, alpha, beta)(row) == weighted(
            simd,
            alpha,
            beta,
            total(
                plus_of::<Lhs, Rhs, Dst, Acc, S>(simd),
                Acc::zero_spec(),
                |j: int| simd.from_dst_spec(partial[j * stride + row]),
                n_depth,
            ),
            dst[dst_at.at(row, 0)],
        ),
{
    lemma_column_total::<Lhs, Rhs, Dst, Acc, S>(simd, partial, stride, row, n_depth);
    lemma_epilogue(
        simd,
        alpha,
        beta,
        column_total::<Lhs, Rhs, Dst, Acc, S>(simd, partial, stride, row, n_depth),
        dst[dst_at.at(row, 0)],
    );
}

/// The scratch columns of a row are added up as any other terms.
proof fn lemma_column_total<
    Lhs,
    Rhs,
    Dst: Element,
    Acc: Element,
    S: MixedSimd<Lhs, Rhs, Dst, Acc>,
>(simd: S, partial: Seq<Dst>, stride: int, row: int, n: nat)
    ensures
        column_total::<Lhs, Rhs, Dst, Acc, S>(simd, partial, stride, row, n) == total(
            plus_of::<Lhs, Rhs, Dst, Acc, S>(simd),
            Acc::zero_spec(),
            |j: int| simd.from_dst_spec(partial[j * stride + row]),
            n,
        ),
    decreases n,
{
    if n > 0 {
        lemma_column_total::<Lhs, Rhs, Dst, Acc, S>(simd, partial, stride, row, (n - 1) as nat);
    }
}

/// The products that meet in entry `(i, j)`: `lhs[i, d] * rhs[d, j]`, each operand read at its
/// base plus its strides.
pub open spec fn meeting<Lhs, Rhs, Dst, Acc, S: MixedSimd<Lhs, Rhs, Dst, Acc>>(
    simd: S,
    lhs: Seq<Lhs>,
    lhs_at: Strides,
    rhs: Seq<Rhs>,
    rhs_at: Strides,
    i: int,
    j: int,
) -> spec_fn(int) -> Acc {
    |d: int|
        simd.mult_spec(
            simd.from_lhs_spec(lhs[lhs_at.base + i * lhs_at.rs + d * lhs_at.cs]),
            simd.from_rhs_spec(rhs[rhs_at.base + d * rhs_at.rs + j * rhs_at.cs]),
        )
}

/// Where nothing is rounded, a product on any number of threads is the matrix product: entry
/// `(i, j)` of `dst`, at its base plus its strides, ends as
/// `alpha * dst[i, j] + beta * sum_d lhs[i, d] * rhs[d, j]`.
pub proof fn law_product_of_matrices<
    Lhs,
    Rhs,
    Dst: Element,
    Acc: Element,
    S: MixedSimd<Lhs, Rhs, Dst, Acc>,
>(
    axis: SplitAxis,
    simd: S,
    m: int,
    n: int,
    k: nat,
    old_dst: Seq<Dst>,
    new_dst: Seq<Dst>,
    dst_at: Strides,
    lhs: Seq<Lhs>,
    lhs_at: Strides,
    rhs: Seq<Rhs>,
    rhs_at: Strides,
    alpha: Acc,
    beta: Acc,
    parallelism: Parallelism,
    threading_threshold: int,
    i: int,
    j: int,
)
    requires
        S::width() > 0,
        exact_arithmetic::<Lhs, Rhs, Dst, Acc, S>(simd),
        parallel_outcome(
            axis,
            simd,
            m,
            n,
            k as int,
            old_dst,
            new_dst,
            dst_at,
            lhs,
            lhs_at,
            rhs,
            rhs_at,
            alpha,
            beta,
            parallelism,
            threading_threshold,
        ),
        0 <= i < m,
        0 <= j < n,
    ensures
        new_dst[dst_at.base + i * dst_at.rs + j * dst_at.cs] == simd.into_dst_spec(
            simd.add_spec(
                simd.mult_spec(
                    alpha,
                    simd.from_dst_spec(old_dst[dst_at.base + i * dst_at.rs + j * dst_at.cs]),
                ),
                simd.mult_spec(
                    beta,
                    total(
                        plus_of::<Lhs, Rhs, Dst, Acc, S>(simd),
                        Acc::zero_spec(),
                        meeting::<Lhs, Rhs, Dst, Acc, S>(simd, lhs, lhs_at, rhs, rhs_at, i, j),
                        k,
                    ),
                ),
            ),
        ),
{
    let t = choose|t: int|
        #[trigger] may_use(parallelism, threading_threshold, m, n, k as int, t) && rewritten(
            old_dst,
            new_dst,
            dst_at,
            m,
            n,
            parallel_value(
                axis,
                simd,
                task_grid::<Dst>(axis, S::width() as int, t, m, n, k as int).1,
                k as int,
                old_dst,
                dst_at,
                lhs,
                lhs_at,
                rhs,
                rhs_at,
                alpha,
                beta,
            ),
        );
    let n_depth = task_grid::<Dst>(axis, S::width() as int, t, m, n, k as int).1;
    let x = lhs_row::<Lhs, Rhs, Dst, Acc, S>(simd, lhs, lhs_at, i, 0, k as int);
    let y = rhs_column::<Lhs, Rhs, Dst, Acc, S>(simd, rhs, rhs_at, j, 0, k as int);
    let p = dst_at.at(i, j);
    assert(new_dst[dst_at.at(i, j)] == parallel_entry(
        axis,
        simd,
        n_depth,
        alpha,
        beta,
        x,
        y,
        old_dst[p],
    ));
    law_parallel_is_product(axis, simd, n_depth, alpha, beta, x, y, old_dst[p]);
    lemma_total_same(
        plus_of::<Lhs, Rhs, Dst, Acc, S>(simd),
        Acc::zero_spec(),
        terms::<Lhs, Rhs, Dst, Acc, S>(simd, x, y),
        meeting::<Lhs, Rhs, Dst, Acc, S>(simd, lhs, lhs_at, rhs, rhs_at, i, j),
        k,
    );
}

/// Where nothing is rounded, each serial kernel leaves the matrix product.
pub proof fn law_serial_product_of_matrices<
    Lhs,
    Rhs,
    Dst: Element,
    Acc: Element,
    S: MixedSimd<Lhs, Rhs, Dst, Acc>,
>(
    axis: SplitAxis,
    simd: S,
    m: int,
    n: int,
    k: nat,
    old_dst: Seq<Dst>,
    new_dst: Seq<Dst>,
    dst_at: Strides,
    lhs: Seq<Lhs>,
    lhs_at: Strides,
    rhs: Seq<Rhs>,
    rhs_at: Strides,
    alpha: Acc,
    beta: Acc,
    i: int,
    j: int,
)
    requires
        S::width() > 0,
        exact_arithmetic::<Lhs, Rhs, Dst, Acc, S>(simd),
        rewritten(
            old_dst,
            new_dst,
            dst_at,
            m,
            n,
            serial_value(
                axis,
                simd,
                k as int,
                old_dst,
                dst_at,
                lhs,
                lhs_at,
                rhs,
                rhs_at,
                alpha,
                beta,
            ),
        ),
        0 <= i < m,
        0 <= j < n,
    ensures
        new_dst[dst_at.base + i * dst_at.rs + j * dst_at.cs] == simd.into_dst_spec(
            simd.add_spec(
                simd.mult_spec(
                    alpha,
                    simd.from_dst_spec(old_dst[dst_at.base + i * dst_at.rs + j * dst_at.cs]),
                ),
                simd.mult_spec(
                    beta,
                    total(
                        plus_of::<Lhs, Rhs, Dst, Acc, S>(simd),
                        Acc::zero_spec(),
                        meeting::<Lhs, Rhs, Dst, Acc, S>(simd, lhs, lhs_at, rhs, rhs_at, i, j),
                        k,
                    ),
                ),
            ),
        ),
{
    let x = lhs_row::<Lhs, Rhs, Dst, Acc, S>(simd, lhs, lhs_at, i, 0, k as int);
    let y = rhs_column::<Lhs, Rhs, Dst, Acc, S>(simd, rhs, rhs_at, j, 0, k as int);
    let p = dst_at.at(i, j);
    assert(new_dst[dst_at.at(i, j)] == serial_entry(
        axis,
        simd,
        alpha,
        beta,
        x,
        y,
        old_dst[p],
    ));
    law_serial_is_product(axis, simd, alpha, beta, x, y, old_dst[p]);
    lemma_total_same(
        plus_of::<Lhs, Rhs, Dst, Acc, S>(simd),
        Acc::zero_spec(),
        terms::<Lhs, Rhs, Dst, Acc, S>(simd, x, y),
        meeting::<Lhs, Rhs, Dst, Acc, S>(simd, lhs, lhs_at, rhs, rhs_at, i, j),
        k,
    );
}

/// Where nothing is rounded, and `mul_add(a, b, c)` is `a * b + c`, the generic kernel leaves the
/// product of the matrix and the vector.
pub proof fn law_gemv_product_of_matrices<T: Element, F: Fn(T, T, T) -> T>(
    mul_add: F,
    alpha: T,
    beta: T,
    lhs: Seq<T>,
    lhs_at: Strides,
    rhs: Seq<T>,
    rhs_at: Strides,
    i: int,
    k: nat,
    dst: T,
    r: T,
)
    requires
        exact_arithmetic::<T, T, T, T, Scalar>(Scalar),
        forall|a: T, b: T, c: T, v: T| #[trigger]
            call_ensures(mul_add, (a, b, c), v) ==> v == a.times_spec(b).plus_spec(c),
        reaches(
            mul_add,
            beta,
            row(lhs, lhs_at, i, k as int),
            column(rhs, rhs_at, 0, k as int, 0),
            scaled(alpha, dst),
            k,
            r,
        ),
    ensures
        r == alpha.times_spec(dst).plus_spec(
            beta.times_spec(
                total(
                    |a: T, b: T| a.plus_spec(b),
                    T::zero_spec(),
                    |d: int|
                        lhs[lhs_at.base + i * lhs_at.rs + d * lhs_at.cs].times_spec(
                            rhs[rhs_at.base + d * rhs_at.rs],
                        ),
                    k,
                ),
            ),
        ),
{
    let x = row(lhs, lhs_at, i, k as int);
    let y = column(rhs, rhs_at, 0, k as int, 0);
    let plus = plus_of::<T, T, T, T, Scalar>(Scalar);
    let flat = |a: T, b: T| a.plus_spec(b);
    let g = terms::<T, T, T, T, Scalar>(Scalar, x, y);
    let h = |d: int|
        lhs[lhs_at.base + i * lhs_at.rs + d * lhs_at.cs].times_spec(
            rhs[rhs_at.base + d * rhs_at.rs],
        );
    law_gemv_is_product(mul_add, alpha, beta, x, y, dst, k, r);
    assert(plus =~= flat);
    assert forall|d: int| 0 <= d < k implies #[trigger] g(d) == h(d) by {
        assert(y[d] == rhs[rhs_at.at(0 + d, 0)]);
        assert(0 * rhs_at.cs == 0);
    }
    lemma_total_same(plus, T::zero_spec(), g, h, k);
}

/// `i64` adds and multiplies as the integers do, modulo 2^64.
pub proof fn law_i64_agrees_with_integers(a: i64, b: i64)
    ensures
        (a.plus_spec(b) - (a + b)) % 0x1_0000_0000_0000_0000 == 0,
        (a.times_spec(b) - a * b) % 0x1_0000_0000_0000_0000 == 0,
        i64::MIN <= a + b <= i64::MAX ==> a.plus_spec(b) == a + b,
        i64::MIN <= a * b <= i64::MAX ==> a.times_spec(b) == a * b,
        <i64 as Element>::zero_spec() == 0,
        <i64 as Element>::one_spec() == 1,
{
    let q = lemma_wrapped_sum(a, b);
    let r = lemma_wrapped_product(a, b);
    vstd::arithmetic::div_mod::lemma_mod_multiples_basic(-q, wrap());
    vstd::arithmetic::div_mod::lemma_mod_multiples_basic(-r, wrap());
}

} // verus!
