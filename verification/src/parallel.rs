//! Matrix-vector products carried out by several threads.
use crate::element::Element;
use crate::gemv::{
    epilogue, kernel_strides, law_zero_alpha_ignores_dst, lhs_row, operands_fit, rhs_column,
    serial_column, serial_entry, serial_gemv, serial_value, SplitAxis,
};
use crate::simd::MixedSimd;
use crate::strides::{
    column, gather, lemma_rewritten_next, lemma_rewritten_rest, rewritten, scatter, Strides,
};
use crate::tasks::{
    div_ceil, law_depth_split_is_bounded, law_ranges_tile, law_split_fills_threads, max_int, max_usize,
    min_int, next_multiple_of, range_start, range_start_spec, round_up, saturating_mul,
    split_tasks, split_tasks_spec, CACHELINE_ALIGN, MAX_PARTIAL_BYTES, MIN_DEPTH_PER_TASK,
};
use dyn_stack::{DynStack, MemBuffer, StackReq};
use rayon::iter::{IndexedParallelIterator, IntoParallelRefMutIterator, ParallelIterator};
use vstd::prelude::*;

verus! {

/// How a product may be spread over threads.
#[derive(Copy, Clone, Debug, PartialEq, Eq, Structural)]
pub enum Parallelism {
    /// One thread.
    Serial,
    /// This many threads of the `rayon` pool, or as many as the pool has if zero.
    Rayon(usize),
}

/// Runs `f` for every position of `slots`, on the threads of the `rayon` pool, and stores each
/// answer at its position: `par_iter_mut`, `enumerate` and `for_each` of `rayon`. Every position
/// is visited once, with its own index, before the call returns. Where the pool was never started
/// and no thread can be started for it, `rayon` panics.
#[verifier::external_body]
fn par_fill<R: Send, F: Fn(usize) -> R + Send + Sync>(slots: &mut [R], f: F)
    requires
        forall|i: usize| i < old(slots)@.len() ==> call_requires(f, (i,)),
    ensures
        final(slots)@.len() == old(slots)@.len(),
        forall|i: usize|
            i < old(slots)@.len() ==> call_ensures(f, (i,), #[trigger] final(slots)@[i as int]),
{
    slots.par_iter_mut().enumerate().for_each(|(i, slot)| *slot = f(i))
}

/// `chunk` holds `value` of the positions `r0` up to, not including, `r1`.
pub open spec fn holds<T>(chunk: Seq<T>, r0: int, r1: int, value: spec_fn(int) -> T) -> bool {
    &&& chunk.len() == r1 - r0
    &&& forall|i: int| 0 <= i < chunk.len() ==> #[trigger] chunk[i] == value(r0 + i)
}

/// The entries of column `j`.
pub open spec fn column_of<T>(value: spec_fn(int, int) -> T, j: int) -> spec_fn(int) -> T {
    |i: int| value(i, j)
}

/// Strings together the chunks `first`, `first + step` and so on, one for each range of
/// [`range_start`].
fn join<T: Copy>(
    chunks: &[Vec<T>],
    first: usize,
    step: usize,
    m: usize,
    n_tasks: usize,
    gran: usize,
    Ghost(value): Ghost<spec_fn(int) -> T>,
) -> (r: Vec<T>)
    requires
        gran > 0,
        n_tasks > 0,
        n_tasks * step <= chunks@.len(),
        first < step,
        forall|t: int|
            0 <= t < n_tasks ==> holds(
                #[trigger] chunks@[first + t * step]@,
                range_start_spec(t, n_tasks as int, m as int, gran as int),
                range_start_spec(t + 1, n_tasks as int, m as int, gran as int),
                value,
            ),
    ensures
        holds(r@, 0, m as int, value),
{
    let mut out: Vec<T> = Vec::with_capacity(m);
    let mut t: usize = 0;
    let len: usize = chunks.len();
    proof {
        law_ranges_tile(0, n_tasks as int, m as int, gran as int);
    }
    while t < n_tasks
        invariant
            t <= n_tasks,
            gran > 0,
            len == chunks@.len(),
            n_tasks * step <= len,
            first < step,
            holds(
                out@,
                0,
                range_start_spec(t as int, n_tasks as int, m as int, gran as int),
                value,
            ),
            forall|t: int|
                0 <= t < n_tasks ==> holds(
                    #[trigger] chunks@[first + t * step]@,
                    range_start_spec(t, n_tasks as int, m as int, gran as int),
                    range_start_spec(t + 1, n_tasks as int, m as int, gran as int),
                    value,
                ),
        decreases n_tasks - t,
    {
        proof {
            assert(0 <= t * step && first + t * step < n_tasks * step) by (nonlinear_arith)
                requires
                    t < n_tasks,
                    first < step,
            ;
            law_ranges_tile(t as int, n_tasks as int, m as int, gran as int);
        }
        let chunk: &Vec<T> = &chunks[first + t * step];
        let ghost start = range_start_spec(t as int, n_tasks as int, m as int, gran as int);
        let mut i: usize = 0;
        while i < chunk.len()
            invariant
                i <= chunk@.len(),
                start >= 0,
                holds(chunk@, start, start + chunk@.len(), value),
                holds(out@, 0, start + i, value),
            decreases chunk@.len() - i,
        {
            out.push(chunk[i]);
            proof {
                assert(chunk@[i as int] == value(start + i));
                assert(0 + (start + i) == start + i);
            }
            i += 1;
        }
        t += 1;
    }
    out
}

/// Empty chunks, to be filled in.
fn empty_chunks<T>(n: usize) -> (r: Vec<Vec<T>>)
    ensures
        r@.len() == n,
{
    let mut out: Vec<Vec<T>> = Vec::with_capacity(n);
    let mut i: usize = 0;
    while i < n
        invariant
            i <= n,
            out@.len() == i,
        decreases n - i,
    {
        out.push(Vec::new());
        i += 1;
    }
    out
}

/// The part of column `j` that row task `tid` computes.
fn row_task<
    Lhs: Copy + Send + Sync,
    Rhs: Copy + Send + Sync,
    Dst: Element,
    Acc: Element,
    S: MixedSimd<Lhs, Rhs, Dst, Acc>,
>(
    axis: SplitAxis,
    simd: S,
    tid: usize,
    n_row_tasks: usize,
    gran: usize,
    m: usize,
    k: usize,
    dst: &[Dst],
    dst_at: Strides,
    lhs: &[Lhs],
    lhs_at: Strides,
    rhs: &[Rhs],
    rhs_at: Strides,
    j: usize,
    alpha: Acc,
    beta: Acc,
) -> (r: Vec<Dst>)
    requires
        gran > 0,
        tid < n_row_tasks,
        kernel_strides(axis, lhs_at, rhs_at),
        m > 0 ==> dst_at.fits(m as int, j + 1, dst@.len() as int),
        m > 0 ==> lhs_at.fits(m as int, k as int, lhs@.len() as int),
        m > 0 ==> rhs_at.fits(k as int, j + 1, rhs@.len() as int),
    ensures
        holds(
            r@,
            range_start_spec(tid as int, n_row_tasks as int, m as int, gran as int),
            range_start_spec(tid + 1, n_row_tasks as int, m as int, gran as int),
            column_of(
                serial_value(
                    axis,
                    simd,
                    k as int,
                    dst@,
                    dst_at,
                    lhs@,
                    lhs_at,
                    rhs@,
                    rhs_at,
                    alpha,
                    beta,
                ),
                j as int,
            ),
        ),
{
    proof {
        law_ranges_tile(tid as int, n_row_tasks as int, m as int, gran as int);
    }
    let r0: usize = range_start(tid, n_row_tasks, m, gran);
    let r1: usize = range_start(tid + 1, n_row_tasks, m, gran);
    if r1 == r0 {
        return Vec::new();
    }
    let col: Vec<Dst> = gather(dst, dst_at, r0, r1, j);
    serial_column(axis, simd, col, r0, 0, k, lhs, lhs_at, rhs, rhs_at, j, alpha, beta)
}

/// The row split: each task owns a run of rows of `dst` and goes through the whole depth for them.
fn gemv_by_rows<
    Lhs: Copy + Send + Sync,
    Rhs: Copy + Send + Sync,
    Dst: Element,
    Acc: Element,
    S: MixedSimd<Lhs, Rhs, Dst, Acc>,
>(
    axis: SplitAxis,
    simd: S,
    n_row_tasks: usize,
    gran: usize,
    m: usize,
    n: usize,
    k: usize,
    dst: &mut [Dst],
    dst_at: Strides,
    lhs: &[Lhs],
    lhs_at: Strides,
    rhs: &[Rhs],
    rhs_at: Strides,
    alpha: Acc,
    beta: Acc,
)
    requires
        gran > 0,
        n_row_tasks > 0,
        kernel_strides(axis, lhs_at, rhs_at),
        operands_fit(
            m as int,
            n as int,
            k as int,
            old(dst)@.len() as int,
            dst_at,
            lhs@.len() as int,
            lhs_at,
            rhs@.len() as int,
            rhs_at,
        ),
    ensures
        rewritten(
            old(dst)@,
            final(dst)@,
            dst_at,
            m as int,
            n as int,
            serial_value(
                axis,
                simd,
                k as int,
                old(dst)@,
                dst_at,
                lhs@,
                lhs_at,
                rhs@,
                rhs_at,
                alpha,
                beta,
            ),
        ),
{
    if m == 0 {
        return;
    }
    let ghost first = dst@;
    let ghost value = serial_value(
        axis,
        simd,
        k as int,
        first,
        dst_at,
        lhs@,
        lhs_at,
        rhs@,
        rhs_at,
        alpha,
        beta,
    );
    let mut j: usize = 0;
    while j < n
        invariant
            j <= n,
            m > 0,
            gran > 0,
            n_row_tasks > 0,
            first.len() == dst@.len(),
            kernel_strides(axis, lhs_at, rhs_at),
            operands_fit(
                m as int,
                n as int,
                k as int,
                first.len() as int,
                dst_at,
                lhs@.len() as int,
                lhs_at,
                rhs@.len() as int,
                rhs_at,
            ),
            value == serial_value(
                axis,
                simd,
                k as int,
                first,
                dst_at,
                lhs@,
                lhs_at,
                rhs@,
                rhs_at,
                alpha,
                beta,
            ),
            rewritten(first, dst@, dst_at, m as int, j as int, value),
        decreases n - j,
    {
        let ghost before = dst@;
        proof {
            lemma_rewritten_rest(first, before, dst_at, m as int, n as int, j as int, value);
        }
        let current: &[Dst] = &*dst;
        let task = |tid: usize| -> (r: Vec<Dst>)
            requires
                gran > 0,
                tid < n_row_tasks,
                kernel_strides(axis, lhs_at, rhs_at),
                dst_at.fits(m as int, j + 1, current@.len() as int),
                lhs_at.fits(m as int, k as int, lhs@.len() as int),
                rhs_at.fits(k as int, j + 1, rhs@.len() as int),
            ensures
                holds(
                    r@,
                    range_start_spec(tid as int, n_row_tasks as int, m as int, gran as int),
                    range_start_spec(tid + 1, n_row_tasks as int, m as int, gran as int),
                    column_of(
                        serial_value(
                            axis,
                            simd,
                            k as int,
                            current@,
                            dst_at,
                            lhs@,
                            lhs_at,
                            rhs@,
                            rhs_at,
                            alpha,
                            beta,
                        ),
                        j as int,
                    ),
                ),
            {
                row_task(
                    axis,
                    simd,
                    tid,
                    n_row_tasks,
                    gran,
                    m,
                    k,
                    current,
                    dst_at,
                    lhs,
                    lhs_at,
                    rhs,
                    rhs_at,
                    j,
                    alpha,
                    beta,
                )
            };
        let mut chunks: Vec<Vec<Dst>> = empty_chunks(n_row_tasks);
        par_fill(chunks.as_mut_slice(), task);
        let ghost now = column_of(
            serial_value(
                axis,
                simd,
                k as int,
                before,
                dst_at,
                lhs@,
                lhs_at,
                rhs@,
                rhs_at,
                alpha,
                beta,
            ),
            j as int,
        );
        proof {
            assert forall|t: int| 0 <= t < n_row_tasks implies holds(
                #[trigger] chunks@[0 + t * 1]@,
                range_start_spec(t, n_row_tasks as int, m as int, gran as int),
                range_start_spec(t + 1, n_row_tasks as int, m as int, gran as int),
                now,
            ) by {
                assert(call_ensures(task, (t as usize,), chunks@[t as usize as int]));
            }
        }
        let out: Vec<Dst> = join(chunks.as_slice(), 0, 1, m, n_row_tasks, gran, Ghost(now));
        scatter(dst, dst_at, 0, j, out.as_slice());
        proof {
            assert forall|i: int| 0 <= i < m implies dst@[#[trigger] dst_at.at(i, j as int)]
                == value(i, j as int) by {
                assert(out@[i - 0] == now(0 + i));
                assert(column(before, dst_at, 0, m as int, j as int)[i] == before[dst_at.at(
                    0 + i,
                    j as int,
                )]);
                assert(column(first, dst_at, 0, m as int, j as int)[i] == first[dst_at.at(
                    0 + i,
                    j as int,
                )]);
            }
            lemma_rewritten_next(
                first,
                before,
                dst@,
                dst_at,
                m as int,
                n as int,
                j as int,
                value,
            );
        }
        j += 1;
    }
}

/// What depth slice `s` of `n_depth` contributes to an entry of `dst`: the kernel's own product of
/// the slice, from a zero `dst` and with a `beta` of one.
pub open spec fn partial_entry<
    Lhs,
    Rhs,
    Dst: Element,
    Acc: Element,
    S: MixedSimd<Lhs, Rhs, Dst, Acc>,
>(axis: SplitAxis, simd: S, x: Seq<Acc>, y: Seq<Acc>, n_depth: int, s: int) -> Dst {
    let d0 = range_start_spec(s, n_depth, x.len() as int, 1);
    let d1 = range_start_spec(s + 1, n_depth, x.len() as int, 1);
    serial_entry(
        axis,
        simd,
        Acc::zero_spec(),
        Acc::one_spec(),
        x.subrange(d0, d1),
        y.subrange(d0, d1),
        Dst::zero_spec(),
    )
}

/// The first `n` slices added up from left to right.
pub open spec fn partial_total<
    Lhs,
    Rhs,
    Dst: Element,
    Acc: Element,
    S: MixedSimd<Lhs, Rhs, Dst, Acc>,
>(axis: SplitAxis, simd: S, x: Seq<Acc>, y: Seq<Acc>, n_depth: int, n: nat) -> Acc
    decreases n,
{
    if n == 0 {
        Acc::zero_spec()
    } else {
        simd.add_spec(
            partial_total(axis, simd, x, y, n_depth, (n - 1) as nat),
            simd.from_dst_spec(partial_entry(axis, simd, x, y, n_depth, n - 1)),
        )
    }
}

/// What an entry of `dst` holds after a product that was cut into `n_depth` depth slices: what
/// the serial kernel leaves where there is one slice, and else the sum of the slices.
pub open spec fn parallel_entry<
    Lhs,
    Rhs,
    Dst: Element,
    Acc: Element,
    S: MixedSimd<Lhs, Rhs, Dst, Acc>,
>(
    axis: SplitAxis,
    simd: S,
    n_depth: int,
    alpha: Acc,
    beta: Acc,
    x: Seq<Acc>,
    y: Seq<Acc>,
    dst: Dst,
) -> Dst {
    if n_depth <= 1 {
        serial_entry(axis, simd, alpha, beta, x, y, dst)
    } else {
        epilogue(
            simd,
            alpha,
            beta,
            partial_total::<Lhs, Rhs, Dst, Acc, S>(axis, simd, x, y, n_depth, n_depth as nat),
            dst,
        )
    }
}

/// What entry `(i, j)` of `dst` holds after a product that was cut into `n_depth` depth slices.
pub open spec fn parallel_value<
    Lhs,
    Rhs,
    Dst: Element,
    Acc: Element,
    S: MixedSimd<Lhs, Rhs, Dst, Acc>,
>(
    axis: SplitAxis,
    simd: S,
    n_depth: int,
    k: int,
    dst: Seq<Dst>,
    dst_at: Strides,
    lhs: Seq<Lhs>,
    lhs_at: Strides,
    rhs: Seq<Rhs>,
    rhs_at: Strides,
    alpha: Acc,
    beta: Acc,
) -> spec_fn(int, int) -> Dst {
    |i: int, j: int|
        parallel_entry(
            axis,
            simd,
            n_depth,
            alpha,
            beta,
            lhs_row(simd, lhs, lhs_at, i, 0, k),
            rhs_column(simd, rhs, rhs_at, j, 0, k),
            dst[dst_at.at(i, j)],
        )
}

/// The column that depth slice `s` of `n_depth` contributes.
pub open spec fn partial_values<
    Lhs,
    Rhs,
    Dst: Element,
    Acc: Element,
    S: MixedSimd<Lhs, Rhs, Dst, Acc>,
>(
    axis: SplitAxis,
    simd: S,
    n_depth: int,
    s: int,
    k: int,
    lhs: Seq<Lhs>,
    lhs_at: Strides,
    rhs: Seq<Rhs>,
    rhs_at: Strides,
) -> spec_fn(int) -> Dst {
    |i: int|
        partial_entry::<Lhs, Rhs, Dst, Acc, S>(
            axis,
            simd,
            lhs_row(simd, lhs, lhs_at, i, 0, k),
            rhs_column(simd, rhs, rhs_at, 0, 0, k),
            n_depth,
            s,
        )
}

/// A column of zeros.
fn zero_column<T: Element>(len: usize) -> (r: Vec<T>)
    ensures
        r@.len() == len,
        forall|i: int| 0 <= i < len ==> #[trigger] r@[i] == T::zero_spec(),
{
    let mut out: Vec<T> = Vec::with_capacity(len);
    let mut i: usize = 0;
    while i < len
        invariant
            i <= len,
            out@.len() == i,
            forall|q: int| 0 <= q < i ==> #[trigger] out@[q] == T::zero_spec(),
        decreases len - i,
    {
        out.push(T::zero());
        i += 1;
    }
    out
}

/// The part of a scratch column that task `tid` computes: the rows of row task `tid / n_depth`,
/// over depth slice `tid % n_depth`.
fn partial_task<
    Lhs: Copy + Send + Sync,
    Rhs: Copy + Send + Sync,
    Dst: Element,
    Acc: Element,
    S: MixedSimd<Lhs, Rhs, Dst, Acc>,
>(
    axis: SplitAxis,
    simd: S,
    tid: usize,
    n_row_tasks: usize,
    n_depth: usize,
    gran: usize,
    m: usize,
    k: usize,
    lhs: &[Lhs],
    lhs_at: Strides,
    rhs: &[Rhs],
    rhs_at: Strides,
) -> (r: Vec<Dst>)
    requires
        gran > 0,
        n_depth > 0,
        tid < n_row_tasks * n_depth,
        kernel_strides(axis, lhs_at, rhs_at),
        m > 0 ==> lhs_at.fits(m as int, k as int, lhs@.len() as int),
        m > 0 ==> rhs_at.fits(k as int, 1, rhs@.len() as int),
    ensures
        holds(
            r@,
            range_start_spec(
                tid as int / n_depth as int,
                n_row_tasks as int,
                m as int,
                gran as int,
            ),
            range_start_spec(
                tid as int / n_depth as int + 1,
                n_row_tasks as int,
                m as int,
                gran as int,
            ),
            partial_values::<Lhs, Rhs, Dst, Acc, S>(
                axis,
                simd,
                n_depth as int,
                tid as int % n_depth as int,
                k as int,
                lhs@,
                lhs_at,
                rhs@,
                rhs_at,
            ),
        ),
{
    let i: usize = tid / n_depth;
    let s: usize = tid % n_depth;
    proof {
        assert(i < n_row_tasks) by (nonlinear_arith)
            requires
                i == tid / n_depth,
                n_depth > 0,
                tid < n_row_tasks * n_depth,
        ;
        law_ranges_tile(i as int, n_row_tasks as int, m as int, gran as int);
        law_ranges_tile(s as int, n_depth as int, k as int, 1);
    }
    let r0: usize = range_start(i, n_row_tasks, m, gran);
    let r1: usize = range_start(i + 1, n_row_tasks, m, gran);
    let d0: usize = range_start(s, n_depth, k, 1);
    let d1: usize = range_start(s + 1, n_depth, k, 1);
    if r1 == r0 {
        return Vec::new();
    }
    let col: Vec<Dst> = zero_column(r1 - r0);
    let out: Vec<Dst> = serial_column(
        axis,
        simd,
        col,
        r0,
        d0,
        d1,
        lhs,
        lhs_at,
        rhs,
        rhs_at,
        0,
        Acc::zero(),
        Acc::one(),
    );
    proof {
        assert forall|q: int| 0 <= q < out@.len() implies #[trigger] out@[q] == partial_values::<
            Lhs,
            Rhs,
            Dst,
            Acc,
            S,
        >(axis, simd, n_depth as int, s as int, k as int, lhs@, lhs_at, rhs@, rhs_at)(
            r0 + q,
        ) by {
            let x = lhs_row::<Lhs, Rhs, Dst, Acc, S>(simd, lhs@, lhs_at, r0 + q, 0, k as int);
            let y = rhs_column::<Lhs, Rhs, Dst, Acc, S>(simd, rhs@, rhs_at, 0, 0, k as int);
            assert(x.subrange(d0 as int, d1 as int) =~= lhs_row::<Lhs, Rhs, Dst, Acc, S>(
                simd,
                lhs@,
                lhs_at,
                r0 + q,
                d0 as int,
                d1 as int,
            ));
            assert(y.subrange(d0 as int, d1 as int) =~= rhs_column::<Lhs, Rhs, Dst, Acc, S>(
                simd,
                rhs@,
                rhs_at,
                0,
                d0 as int,
                d1 as int,
            ));
        }
    }
    out
}

/// The first `n` scratch columns of `partial` added up in `row`.
pub open spec fn column_total<
    Lhs,
    Rhs,
    Dst: Element,
    Acc: Element,
    S: MixedSimd<Lhs, Rhs, Dst, Acc>,
>(simd: S, partial: Seq<Dst>, stride: int, row: int, n: nat) -> Acc
    decreases n,
{
    if n == 0 {
        Acc::zero_spec()
    } else {
        simd.add_spec(
            column_total(simd, partial, stride, row, (n - 1) as nat),
            simd.from_dst_spec(partial[(n - 1) * stride + row]),
        )
    }
}

/// `alpha * dst + beta * (sum of the scratch columns)`, row by row.
pub open spec fn reduced<
    Lhs,
    Rhs,
    Dst: Element,
    Acc: Element,
    S: MixedSimd<Lhs, Rhs, Dst, Acc>,
>(
    simd: S,
    partial: Seq<Dst>,
    stride: int,
    n_depth: int,
    dst: Seq<Dst>,
    dst_at: Strides,
    alpha: Acc,
    beta: Acc,
) -> spec_fn(int) -> Dst {
    |i: int|
        epilogue(
            simd,
            alpha,
            beta,
            column_total::<Lhs, Rhs, Dst, Acc, S>(simd, partial, stride, i, n_depth as nat),
            dst[dst_at.at(i, 0)],
        )
}

/// Rows `r0..r1` can be reduced: each of them lies inside `dst`, and inside the scratch in every
/// scratch column.
pub open spec fn reducible(
    r0: int,
    r1: int,
    dst_len: int,
    dst_at: Strides,
    partial_len: int,
    stride: int,
    n_depth: int,
) -> bool {
    r0 < r1 ==> {
        &&& forall|row: int| r0 <= row < r1 ==> 0 <= #[trigger] dst_at.at(row, 0) < dst_len
        &&& n_depth > 0 ==> (n_depth - 1) * stride + r1 <= partial_len
    }
}

/// Rows `r0..r1` of [`reduced`].
fn reduce_rows<
    Lhs: Copy,
    Rhs: Copy,
    Dst: Element,
    Acc: Element,
    S: MixedSimd<Lhs, Rhs, Dst, Acc>,
>(
    simd: S,
    r0: usize,
    r1: usize,
    dst: &[Dst],
    dst_at: Strides,
    partial: &[Dst],
    partial_stride: usize,
    n_depth_tasks: usize,
    alpha: Acc,
    beta: Acc,
) -> (r: Vec<Dst>)
    requires
        reducible(
            r0 as int,
            r1 as int,
            dst@.len() as int,
            dst_at,
            partial@.len() as int,
            partial_stride as int,
            n_depth_tasks as int,
        ),
    ensures
        holds(
            r@,
            r0 as int,
            max_int(r0 as int, r1 as int),
            reduced(
                simd,
                partial@,
                partial_stride as int,
                n_depth_tasks as int,
                dst@,
                dst_at,
                alpha,
                beta,
            ),
        ),
{
    if r0 >= r1 {
        return Vec::new();
    }
    let len: usize = dst.len();
    let partial_len: usize = partial.len();
    let clear: bool = alpha.is_zero();
    let mut out: Vec<Dst> = Vec::with_capacity(r1 - r0);
    let mut row: usize = r0;
    while row < r1
        invariant
            r0 <= row <= r1,
            len == dst@.len(),
            partial_len == partial@.len(),
            reducible(
                r0 as int,
                r1 as int,
                len as int,
                dst_at,
                partial_len as int,
                partial_stride as int,
                n_depth_tasks as int,
            ),
            clear == alpha.is_zero_spec(),
            holds(
                out@,
                r0 as int,
                row as int,
                reduced(
                    simd,
                    partial@,
                    partial_stride as int,
                    n_depth_tasks as int,
                    dst@,
                    dst_at,
                    alpha,
                    beta,
                ),
            ),
        decreases r1 - row,
    {
        let mut acc: Acc = Acc::zero();
        let mut j: usize = 0;
        while j < n_depth_tasks
            invariant
                j <= n_depth_tasks,
                row < r1,
                partial_len == partial@.len(),
                n_depth_tasks > 0 ==> (n_depth_tasks - 1) * partial_stride + r1 <= partial_len,
                acc == column_total::<Lhs, Rhs, Dst, Acc, S>(
                    simd,
                    partial@,
                    partial_stride as int,
                    row as int,
                    j as nat,
                ),
            decreases n_depth_tasks - j,
        {
            proof {
                assert(0 <= j * partial_stride <= (n_depth_tasks - 1) * partial_stride)
                    by (nonlinear_arith)
                    requires
                        j <= n_depth_tasks - 1,
                        partial_stride >= 0,
                ;
            }
            acc = simd.add(acc, simd.from_dst(partial[j * partial_stride + row]));
            j += 1;
        }
        assert(0 <= dst_at.at(row as int, 0) < len);
        let value: Dst = if clear {
            simd.into_dst(simd.mult(acc, beta))
        } else {
            simd.into_dst(
                simd.add(
                    simd.mult(acc, beta),
                    simd.mult(simd.from_dst(dst[dst_at.index(row, 0)]), alpha),
                ),
            )
        };
        out.push(value);
        row += 1;
    }
    out
}

/// `alpha * dst[row] + beta * sum_j partial[j][row]` for `row in r0..r1`, matching the last step of
/// both serial kernels. Where `r0 >= r1` there is no row, and nothing is answered.
pub fn reduce_partials<
    Lhs: Copy,
    Rhs: Copy,
    Dst: Element,
    Acc: Element,
    S: MixedSimd<Lhs, Rhs, Dst, Acc>,
>(
    simd: S,
    r0: usize,
    r1: usize,
    dst: &[Dst],
    dst_at: Strides,
    partial: &[Dst],
    partial_stride: usize,
    n_depth_tasks: usize,
    alpha: Acc,
    beta: Acc,
) -> (r: Vec<Dst>)
    requires
        reducible(
            r0 as int,
            r1 as int,
            dst@.len() as int,
            dst_at,
            partial@.len() as int,
            partial_stride as int,
            n_depth_tasks as int,
        ),
    ensures
        holds(
            r@,
            r0 as int,
            max_int(r0 as int, r1 as int),
            reduced(
                simd,
                partial@,
                partial_stride as int,
                n_depth_tasks as int,
                dst@,
                dst_at,
                alpha,
                beta,
            ),
        ),
{
    let body = move || -> (r: Vec<Dst>)
        requires
            reducible(
                r0 as int,
                r1 as int,
                dst@.len() as int,
                dst_at,
                partial@.len() as int,
                partial_stride as int,
                n_depth_tasks as int,
            ),
        ensures
            holds(
                r@,
                r0 as int,
                max_int(r0 as int, r1 as int),
                reduced(
                    simd,
                    partial@,
                    partial_stride as int,
                    n_depth_tasks as int,
                    dst@,
                    dst_at,
                    alpha,
                    beta,
                ),
            ),
        {
            reduce_rows(
                simd,
                r0,
                r1,
                dst,
                dst_at,
                partial,
                partial_stride,
                n_depth_tasks,
                alpha,
                beta,
            )
        };
    simd.vectorize(body)
}

/// The whole reduction, row task by row task.
fn reduce_all<
    Lhs: Copy + Send + Sync,
    Rhs: Copy + Send + Sync,
    Dst: Element,
    Acc: Element,
    S: MixedSimd<Lhs, Rhs, Dst, Acc>,
>(
    simd: S,
    m: usize,
    n_row_tasks: usize,
    gran: usize,
    dst: &[Dst],
    dst_at: Strides,
    partial: &[Dst],
    partial_stride: usize,
    n_depth_tasks: usize,
    alpha: Acc,
    beta: Acc,
) -> (r: Vec<Dst>)
    requires
        gran > 0,
        n_row_tasks > 0,
        m <= partial_stride,
        n_depth_tasks * partial_stride <= partial@.len(),
        m > 0 ==> dst_at.fits(m as int, 1, dst@.len() as int),
    ensures
        holds(
            r@,
            0,
            m as int,
            reduced(
                simd,
                partial@,
                partial_stride as int,
                n_depth_tasks as int,
                dst@,
                dst_at,
                alpha,
                beta,
            ),
        ),
{
    let ghost value = reduced(
        simd,
        partial@,
        partial_stride as int,
        n_depth_tasks as int,
        dst@,
        dst_at,
        alpha,
        beta,
    );
    let task = |tid: usize| -> (r: Vec<Dst>)
        requires
            gran > 0,
            tid < n_row_tasks,
            m <= partial_stride,
            n_depth_tasks * partial_stride <= partial@.len(),
            m > 0 ==> dst_at.fits(m as int, 1, dst@.len() as int),
        ensures
            holds(
                r@,
                range_start_spec(tid as int, n_row_tasks as int, m as int, gran as int),
                range_start_spec(tid + 1, n_row_tasks as int, m as int, gran as int),
                reduced(
                    simd,
                    partial@,
                    partial_stride as int,
                    n_depth_tasks as int,
                    dst@,
                    dst_at,
                    alpha,
                    beta,
                ),
            ),
        {
            proof {
                law_ranges_tile(tid as int, n_row_tasks as int, m as int, gran as int);
            }
            let r0: usize = range_start(tid, n_row_tasks, m, gran);
            let r1: usize = range_start(tid + 1, n_row_tasks, m, gran);
            proof {
                let last = n_depth_tasks - 1;
                assert(n_depth_tasks * partial_stride == last * partial_stride + partial_stride)
                    by (nonlinear_arith)
                    requires
                        last == n_depth_tasks - 1,
                ;
            }
            reduce_partials(
                simd,
                r0,
                r1,
                dst,
                dst_at,
                partial,
                partial_stride,
                n_depth_tasks,
                alpha,
                beta,
            )
        };
    let mut chunks: Vec<Vec<Dst>> = empty_chunks(n_row_tasks);
    par_fill(chunks.as_mut_slice(), task);
    proof {
        assert forall|t: int| 0 <= t < n_row_tasks implies holds(
            #[trigger] chunks@[0 + t * 1]@,
            range_start_spec(t, n_row_tasks as int, m as int, gran as int),
            range_start_spec(t + 1, n_row_tasks as int, m as int, gran as int),
            value,
        ) by {
            assert(call_ensures(task, (t as usize,), chunks@[t as usize as int]));
        }
    }
    join(chunks.as_slice(), 0, 1, m, n_row_tasks, gran, Ghost(value))
}

/// Adding up the scratch columns of a row adds up what its slices contributed.
proof fn lemma_column_total<
    Lhs,
    Rhs,
    Dst: Element,
    Acc: Element,
    S: MixedSimd<Lhs, Rhs, Dst, Acc>,
>(
    axis: SplitAxis,
    simd: S,
    partial: Seq<Dst>,
    stride: int,
    row: int,
    x: Seq<Acc>,
    y: Seq<Acc>,
    n_depth: int,
    n: nat,
)
    requires
        n <= n_depth,
        forall|s: int|
            0 <= s < n_depth ==> partial[#[trigger] (s * stride) + row] == partial_entry::<
                Lhs,
                Rhs,
                Dst,
                Acc,
                S,
            >(axis, simd, x, y, n_depth, s),
    ensures
        column_total::<Lhs, Rhs, Dst, Acc, S>(simd, partial, stride, row, n) == partial_total::<
            Lhs,
            Rhs,
            Dst,
            Acc,
            S,
        >(axis, simd, x, y, n_depth, n),
    decreases n,
{
    if n > 0 {
        lemma_column_total::<Lhs, Rhs, Dst, Acc, S>(
            axis,
            simd,
            partial,
            stride,
            row,
            x,
            y,
            n_depth,
            (n - 1) as nat,
        );
        let s = n - 1;
        assert(partial[(s * stride) + row] == partial_entry::<Lhs, Rhs, Dst, Acc, S>(
            axis,
            simd,
            x,
            y,
            n_depth,
            s,
        ));
    }
}

/// An array of `len` elements on a boundary of `align` bytes, element `i` being what `fill`
/// answered for `i`.
///
/// Calls `make_aligned_with` of `dyn_stack::DynStack` on a `dyn_stack::MemBuffer` of the size that
/// `dyn_stack::StackReq::new_aligned` asks for, and copies the array out. The alignment must be a
/// power of two and no less than that of `T`, and the array must be of a size that can be
/// allocated at all. Where the allocator has no memory left the program is aborted, as with any
/// vector.
#[verifier::external_body]
fn scratch_with<T: Copy, F: Fn(usize) -> T>(len: usize, align: usize, fill: F) -> (r: Vec<T>)
    requires
        vstd::layout::align_of::<T>() <= align,
        len * vstd::layout::size_of::<T>() <= usize::MAX,
        vstd::layout::valid_layout((len * vstd::layout::size_of::<T>()) as usize, align),
        forall|i: usize| i < len ==> call_requires(fill, (i,)),
    ensures
        r@.len() == len,
        forall|i: usize| i < len ==> call_ensures(fill, (i,), #[trigger] r@[i as int]),
{
    let mut mem: MemBuffer = MemBuffer::new(StackReq::new_aligned::<T>(len, align));
    let (scratch, _) = DynStack::new(&mut mem).make_aligned_with(len, align, fill);
    scratch.to_vec()
}

/// Row `row` of `column`, or zero past its end.
fn padded<T: Element>(column: &Vec<T>, row: usize) -> (r: T)
    ensures
        row < column@.len() ==> r == column@[row as int],
        row >= column@.len() ==> r == T::zero_spec(),
{
    if row < column.len() {
        column[row]
    } else {
        T::zero()
    }
}

/// The scratch columns, one for each depth slice.
fn partial_columns<
    Lhs: Copy + Send + Sync,
    Rhs: Copy + Send + Sync,
    Dst: Element,
    Acc: Element,
    S: MixedSimd<Lhs, Rhs, Dst, Acc>,
>(
    axis: SplitAxis,
    simd: S,
    n_row_tasks: usize,
    n_depth: usize,
    gran: usize,
    m: usize,
    k: usize,
    lhs: &[Lhs],
    lhs_at: Strides,
    rhs: &[Rhs],
    rhs_at: Strides,
) -> (r: Vec<Vec<Dst>>)
    requires
        gran > 0,
        n_row_tasks > 0,
        n_depth > 0,
        n_row_tasks * n_depth <= usize::MAX,
        kernel_strides(axis, lhs_at, rhs_at),
        m > 0 ==> lhs_at.fits(m as int, k as int, lhs@.len() as int),
        m > 0 ==> rhs_at.fits(k as int, 1, rhs@.len() as int),
    ensures
        r@.len() == n_depth,
        forall|s: int|
            0 <= s < n_depth ==> holds(
                #[trigger] r@[s]@,
                0,
                m as int,
                partial_values::<Lhs, Rhs, Dst, Acc, S>(
                    axis,
                    simd,
                    n_depth as int,
                    s,
                    k as int,
                    lhs@,
                    lhs_at,
                    rhs@,
                    rhs_at,
                ),
            ),
{
    let task = |tid: usize| -> (r: Vec<Dst>)
        requires
            gran > 0,
            n_depth > 0,
            tid < n_row_tasks * n_depth,
            kernel_strides(axis, lhs_at, rhs_at),
            m > 0 ==> lhs_at.fits(m as int, k as int, lhs@.len() as int),
            m > 0 ==> rhs_at.fits(k as int, 1, rhs@.len() as int),
        ensures
            holds(
                r@,
                range_start_spec(
                    tid as int / n_depth as int,
                    n_row_tasks as int,
                    m as int,
                    gran as int,
                ),
                range_start_spec(
                    tid as int / n_depth as int + 1,
                    n_row_tasks as int,
                    m as int,
                    gran as int,
                ),
                partial_values::<Lhs, Rhs, Dst, Acc, S>(
                    axis,
                    simd,
                    n_depth as int,
                    tid as int % n_depth as int,
                    k as int,
                    lhs@,
                    lhs_at,
                    rhs@,
                    rhs_at,
                ),
            ),
        {
            partial_task::<Lhs, Rhs, Dst, Acc, S>(
                axis,
                simd,
                tid,
                n_row_tasks,
                n_depth,
                gran,
                m,
                k,
                lhs,
                lhs_at,
                rhs,
                rhs_at,
            )
        };
    let mut chunks: Vec<Vec<Dst>> = empty_chunks(n_row_tasks * n_depth);
    par_fill(chunks.as_mut_slice(), task);
    let mut columns: Vec<Vec<Dst>> = Vec::with_capacity(n_depth);
    let mut s: usize = 0;
    while s < n_depth
        invariant
            s <= n_depth,
            gran > 0,
            n_row_tasks > 0,
            n_row_tasks * n_depth <= usize::MAX,
            chunks@.len() == n_row_tasks * n_depth,
            forall|i: usize|
                i < n_row_tasks * n_depth ==> call_ensures(task, (i,), #[trigger] chunks@[i as int]),
            forall|i: usize, c: Vec<Dst>|
                #[trigger] call_ensures(task, (i,), c) ==> holds(
                    c@,
                    range_start_spec(
                        i as int / n_depth as int,
                        n_row_tasks as int,
                        m as int,
                        gran as int,
                    ),
                    range_start_spec(
                        i as int / n_depth as int + 1,
                        n_row_tasks as int,
                        m as int,
                        gran as int,
                    ),
                    partial_values::<Lhs, Rhs, Dst, Acc, S>(
                        axis,
                        simd,
                        n_depth as int,
                        i as int % n_depth as int,
                        k as int,
                        lhs@,
                        lhs_at,
                        rhs@,
                        rhs_at,
                    ),
                ),
            columns@.len() == s,
            forall|q: int|
                0 <= q < s ==> holds(
                    #[trigger] columns@[q]@,
                    0,
                    m as int,
                    partial_values::<Lhs, Rhs, Dst, Acc, S>(
                        axis,
                        simd,
                        n_depth as int,
                        q,
                        k as int,
                        lhs@,
                        lhs_at,
                        rhs@,
                        rhs_at,
                    ),
                ),
        decreases n_depth - s,
    {
        let ghost value = partial_values::<Lhs, Rhs, Dst, Acc, S>(
            axis,
            simd,
            n_depth as int,
            s as int,
            k as int,
            lhs@,
            lhs_at,
            rhs@,
            rhs_at,
        );
        proof {
            assert forall|t: int| 0 <= t < n_row_tasks implies holds(
                #[trigger] chunks@[s + t * n_depth]@,
                range_start_spec(t, n_row_tasks as int, m as int, gran as int),
                range_start_spec(t + 1, n_row_tasks as int, m as int, gran as int),
                value,
            ) by {
                let i = s + t * n_depth;
                assert(0 <= t * n_depth && i < n_row_tasks * n_depth) by (nonlinear_arith)
                    requires
                        0 <= t < n_row_tasks,
                        s < n_depth,
                        i == s + t * n_depth,
                ;
                vstd::arithmetic::div_mod::lemma_fundamental_div_mod_converse(
                    i,
                    n_depth as int,
                    t,
                    s as int,
                );
                assert(call_ensures(task, (i as usize,), chunks@[i as usize as int]));
            }
        }
        columns.push(join(chunks.as_slice(), s, n_depth, m, n_row_tasks, gran, Ghost(value)));
        s += 1;
    }
    columns
}

/// `r` is the entry that stands at position `p` when `columns` are laid out `stride` apart.
spec fn picked<T>(columns: Seq<Vec<T>>, stride: int, p: int, r: T) -> bool {
    (p % stride) < columns[p / stride]@.len() ==> r == columns[p / stride]@[p % stride]
}

/// The depth split of a product with one output column: each slice of the depth contributes a
/// scratch column, and a second pass adds the columns up.
fn gemv_by_depth<
    Lhs: Copy + Send + Sync,
    Rhs: Copy + Send + Sync,
    Dst: Element,
    Acc: Element,
    S: MixedSimd<Lhs, Rhs, Dst, Acc>,
>(
    axis: SplitAxis,
    simd: S,
    n_row_tasks: usize,
    n_depth: usize,
    gran: usize,
    partial_stride: usize,
    m: usize,
    k: usize,
    dst: &mut [Dst],
    dst_at: Strides,
    lhs: &[Lhs],
    lhs_at: Strides,
    rhs: &[Rhs],
    rhs_at: Strides,
    alpha: Acc,
    beta: Acc,
)
    requires
        gran > 0,
        n_row_tasks > 0,
        n_depth > 1,
        n_row_tasks * n_depth <= usize::MAX,
        m <= partial_stride,
        n_depth * partial_stride <= usize::MAX,
        n_depth * partial_stride * vstd::layout::size_of::<Dst>() <= MAX_PARTIAL_BYTES,
        vstd::layout::align_of::<Dst>() <= CACHELINE_ALIGN,
        kernel_strides(axis, lhs_at, rhs_at),
        operands_fit(
            m as int,
            1,
            k as int,
            old(dst)@.len() as int,
            dst_at,
            lhs@.len() as int,
            lhs_at,
            rhs@.len() as int,
            rhs_at,
        ),
    ensures
        rewritten(
            old(dst)@,
            final(dst)@,
            dst_at,
            m as int,
            1,
            parallel_value(
                axis,
                simd,
                n_depth as int,
                k as int,
                old(dst)@,
                dst_at,
                lhs@,
                lhs_at,
                rhs@,
                rhs_at,
                alpha,
                beta,
            ),
        ),
{
    let columns: Vec<Vec<Dst>> = partial_columns::<Lhs, Rhs, Dst, Acc, S>(
        axis,
        simd,
        n_row_tasks,
        n_depth,
        gran,
        m,
        k,
        lhs,
        lhs_at,
        rhs,
        rhs_at,
    );
    let pick = |p: usize| -> (r: Dst)
        requires
            columns@.len() == n_depth,
            p < n_depth * partial_stride,
        ensures
            picked(columns@, partial_stride as int, p as int, r),
        {
            proof {
                assert(partial_stride > 0) by (nonlinear_arith)
                    requires
                        p < n_depth * partial_stride,
                        p >= 0,
                ;
                assert(p / partial_stride < n_depth) by (nonlinear_arith)
                    requires
                        p < n_depth * partial_stride,
                        partial_stride > 0,
                ;
            }
            padded(&columns[p / partial_stride], p % partial_stride)
        };
    proof {
        reveal_with_fuel(vstd::arithmetic::power2::is_pow2, 9);
    }
    let partial: Vec<Dst> = scratch_with(n_depth * partial_stride, CACHELINE_ALIGN, pick);
    let out: Vec<Dst> = reduce_all(
        simd,
        m,
        n_row_tasks,
        gran,
        &*dst,
        dst_at,
        partial.as_slice(),
        partial_stride,
        n_depth,
        alpha,
        beta,
    );
    let ghost first = dst@;
    proof {
        let value = parallel_value(
            axis,
            simd,
            n_depth as int,
            k as int,
            first,
            dst_at,
            lhs@,
            lhs_at,
            rhs@,
            rhs_at,
            alpha,
            beta,
        );
        assert forall|i: int| 0 <= i < m implies #[trigger] out@[i] == value(i, 0) by {
            let x = lhs_row::<Lhs, Rhs, Dst, Acc, S>(simd, lhs@, lhs_at, i, 0, k as int);
            let y = rhs_column::<Lhs, Rhs, Dst, Acc, S>(simd, rhs@, rhs_at, 0, 0, k as int);
            assert forall|s: int| 0 <= s < n_depth implies partial@[#[trigger] (s
                * partial_stride) + i] == partial_entry::<Lhs, Rhs, Dst, Acc, S>(
                axis,
                simd,
                x,
                y,
                n_depth as int,
                s,
            ) by {
                let p = s * partial_stride + i;
                assert(0 <= s * partial_stride && p < n_depth * partial_stride)
                    by (nonlinear_arith)
                    requires
                        0 <= s < n_depth,
                        0 <= i < partial_stride,
                        p == s * partial_stride + i,
                ;
                vstd::arithmetic::div_mod::lemma_fundamental_div_mod_converse(
                    p,
                    partial_stride as int,
                    s,
                    i,
                );
                assert(call_ensures(pick, (p as usize,), partial@[p as usize as int]));
                assert(columns@[s]@[i] == partial_values::<Lhs, Rhs, Dst, Acc, S>(
                    axis,
                    simd,
                    n_depth as int,
                    s,
                    k as int,
                    lhs@,
                    lhs_at,
                    rhs@,
                    rhs_at,
                )(0 + i));
            }
            lemma_column_total::<Lhs, Rhs, Dst, Acc, S>(
                axis,
                simd,
                partial@,
                partial_stride as int,
                i,
                x,
                y,
                n_depth as int,
                n_depth as nat,
            );
            assert(out@[i] == reduced(
                simd,
                partial@,
                partial_stride as int,
                n_depth as int,
                first,
                dst_at,
                alpha,
                beta,
            )(0 + i));
        }
    }
    scatter(dst, dst_at, 0, 0, out.as_slice());
    proof {
        let value = parallel_value(
            axis,
            simd,
            n_depth as int,
            k as int,
            first,
            dst_at,
            lhs@,
            lhs_at,
            rhs@,
            rhs_at,
            alpha,
            beta,
        );
        assert forall|i: int| 0 <= i < m implies dst@[#[trigger] dst_at.at(i, 0)] == value(i, 0) by {
            assert(out@[i - 0] == value(i, 0));
        }
        lemma_rewritten_next(first, first, dst@, dst_at, m as int, 1, 0, value);
    }
}

/// The number of elements of type `T` in a cache line.
pub open spec fn line_elements<T>() -> int {
    CACHELINE_ALIGN as int / max_int(1, vstd::layout::size_of::<T>() as int)
}

/// The run of rows that row tasks are made of: a multiple of the vector width keeps every task on
/// the vectorized main loop, and a cache line or more keeps two tasks off one line of `dst`.
pub open spec fn granularity<T>(width: int) -> int {
    max_int(width, line_elements::<T>())
}

/// The distance between scratch columns of `m` rows.
pub open spec fn partial_stride_spec<T>(m: int) -> int {
    round_up(m, max_int(1, line_elements::<T>()))
}

/// How many row tasks and depth tasks a product is cut into on `n_threads` threads.
pub open spec fn task_grid<T>(
    axis: SplitAxis,
    width: int,
    n_threads: int,
    m: int,
    n: int,
    k: int,
) -> (int, int) {
    if n_threads <= 1 {
        (1, 1)
    } else {
        split_tasks_spec(
            axis,
            n_threads,
            m,
            n,
            k,
            granularity::<T>(width),
            min_int(
                partial_stride_spec::<T>(m) * vstd::layout::size_of::<T>(),
                usize::MAX as int,
            ),
        )
    }
}

/// A product can be carried out on `n_threads` threads: the rows can be rounded up to whole cache
/// lines, and a scratch column can be placed on one. Elements without a size take no memory, so
/// nothing else bounds the number of them.
pub open spec fn plan_fits<T>(
    axis: SplitAxis,
    width: int,
    n_threads: int,
    m: int,
    n: int,
    k: int,
) -> bool {
    let n_depth = task_grid::<T>(axis, width, n_threads, m, n, k).1;
    &&& n_threads > 1 ==> partial_stride_spec::<T>(m) <= usize::MAX
    &&& n_depth > 1 ==> vstd::layout::align_of::<T>() <= CACHELINE_ALIGN
    &&& n_depth > 1 && vstd::layout::size_of::<T>() == 0 ==> n_depth * partial_stride_spec::<T>(m)
        <= usize::MAX
}

/// `dst = alpha * dst + beta * lhs * rhs` on `n_threads` threads.
///
/// The product is carved into a grid of row chunks and depth slices, chosen by [`split_tasks`]
/// from `axis`. A row-only split needs no scratch and gives, bit for bit, what the serial kernel
/// gives, since each task owns its own rows of `dst` and runs the whole depth over them. Once the
/// depth is split, each slice is accumulated into a scratch column of its own and a second pass
/// adds the columns up, which reassociates the sum over the depth.
pub fn gemv_on_threads<
    Lhs: Copy + Send + Sync,
    Rhs: Copy + Send + Sync,
    Dst: Element,
    Acc: Element,
    S: MixedSimd<Lhs, Rhs, Dst, Acc>,
>(
    axis: SplitAxis,
    simd: S,
    m: usize,
    n: usize,
    k: usize,
    dst: &mut [Dst],
    dst_at: Strides,
    lhs: &[Lhs],
    lhs_at: Strides,
    rhs: &[Rhs],
    rhs_at: Strides,
    alpha: Acc,
    beta: Acc,
    n_threads: usize,
)
    requires
        kernel_strides(axis, lhs_at, rhs_at),
        operands_fit(
            m as int,
            n as int,
            k as int,
            old(dst)@.len() as int,
            dst_at,
            lhs@.len() as int,
            lhs_at,
            rhs@.len() as int,
            rhs_at,
        ),
        plan_fits::<Dst>(
            axis,
            S::width() as int,
            n_threads as int,
            m as int,
            n as int,
            k as int,
        ),
    ensures
        rewritten(
            old(dst)@,
            final(dst)@,
            dst_at,
            m as int,
            n as int,
            parallel_value(
                axis,
                simd,
                task_grid::<Dst>(
                    axis,
                    S::width() as int,
                    n_threads as int,
                    m as int,
                    n as int,
                    k as int,
                ).1,
                k as int,
                old(dst)@,
                dst_at,
                lhs@,
                lhs_at,
                rhs@,
                rhs_at,
                alpha,
                beta,
            ),
        ),
{
    let ghost first = dst@;
    let ghost grid = task_grid::<Dst>(
        axis,
        S::width() as int,
        n_threads as int,
        m as int,
        n as int,
        k as int,
    );
    let ghost serial = serial_value(
        axis,
        simd,
        k as int,
        first,
        dst_at,
        lhs@,
        lhs_at,
        rhs@,
        rhs_at,
        alpha,
        beta,
    );
    let ghost value = parallel_value(
        axis,
        simd,
        grid.1,
        k as int,
        first,
        dst_at,
        lhs@,
        lhs_at,
        rhs@,
        rhs_at,
        alpha,
        beta,
    );
    if n_threads <= 1 {
        serial_gemv(
            axis,
            simd,
            m,
            n,
            k,
            dst,
            dst_at,
            lhs,
            lhs_at,
            rhs,
            rhs_at,
            alpha,
            beta,
        );
        proof {
            assert forall|i: int, j: int|
                0 <= i < m && 0 <= j < n implies dst@[#[trigger] dst_at.at(i, j)] == value(
                i,
                j,
            ) by {
                assert(dst@[dst_at.at(i, j)] == serial(i, j));
            }
        }
        return;
    }
    let size: usize = core::mem::size_of::<Dst>();
    let line: usize = CACHELINE_ALIGN / max_usize(1, size);
    let width: usize = S::simd_width();
    let gran: usize = max_usize(width, line);
    let partial_stride: usize = next_multiple_of(m, max_usize(1, line));
    let partial_bytes: usize = saturating_mul(partial_stride, size);
    let (n_row_tasks, n_depth) = split_tasks(axis, n_threads, m, n, k, gran, partial_bytes);
    proof {
        law_split_fills_threads(
            axis,
            n_threads as int,
            m as int,
            n as int,
            k as int,
            gran as int,
            partial_bytes as int,
        );
    }
    if n_depth == 1 {
        gemv_by_rows(
            axis,
            simd,
            n_row_tasks,
            gran,
            m,
            n,
            k,
            dst,
            dst_at,
            lhs,
            lhs_at,
            rhs,
            rhs_at,
            alpha,
            beta,
        );
        proof {
            assert forall|i: int, j: int|
                0 <= i < m && 0 <= j < n implies dst@[#[trigger] dst_at.at(i, j)] == value(
                i,
                j,
            ) by {
                assert(dst@[dst_at.at(i, j)] == serial(i, j));
            }
        }
        return;
    }
    proof {
        law_depth_split_is_bounded(
            axis,
            n_threads as int,
            m as int,
            n as int,
            k as int,
            gran as int,
            partial_bytes as int,
        );
        let pad = max_int(1, line as int);
        assert(round_up(m as int, pad) >= m) by (nonlinear_arith)
            requires
                round_up(m as int, pad) == ((m + pad - 1) / pad) * pad,
                pad >= 1,
        ;
        assert(partial_bytes <= n_depth * partial_bytes) by (nonlinear_arith)
            requires
                n_depth >= 1,
                partial_bytes >= 0,
        ;
        assert(partial_bytes == partial_stride * size);
        assert(n_depth * partial_stride * size == n_depth * (partial_stride * size))
            by (nonlinear_arith);
        if size > 0 {
            assert(n_depth * partial_stride <= n_depth * partial_stride * size)
                by (nonlinear_arith)
                requires
                    size >= 1,
                    n_depth * partial_stride >= 0,
            ;
        }
    }
    gemv_by_depth(
        axis,
        simd,
        n_row_tasks,
        n_depth,
        gran,
        partial_stride,
        m,
        k,
        dst,
        dst_at,
        lhs,
        lhs_at,
        rhs,
        rhs_at,
        alpha,
        beta,
    );
}

/// The number of multiplications in a product, or the largest `usize` where it does not fit.
pub open spec fn total_work(m: int, n: int, k: int) -> int {
    min_int(min_int(m * n, usize::MAX as int) * k, usize::MAX as int)
}

/// `t` is a number of threads that a product may be given: one below the threading threshold, as
/// many as asked for above it, and whatever the pool has where no number was asked for.
pub open spec fn may_use(
    parallelism: Parallelism,
    threading_threshold: int,
    m: int,
    n: int,
    k: int,
    t: int,
) -> bool {
    match parallelism {
        Parallelism::Serial => t == 1,
        Parallelism::Rayon(n_threads) => if total_work(m, n, k) < threading_threshold {
            t == 1
        } else if n_threads == 0 {
            0 <= t <= usize::MAX
        } else {
            t == n_threads
        },
    }
}

/// The number of threads of the current `rayon` pool: `rayon::current_num_threads`. It depends on
/// the machine and on how the pool was set up, so nothing is said of it.
#[verifier::external_body]
fn pool_threads() -> (r: usize) {
    rayon::current_num_threads()
}

/// The number of threads that a product is given.
pub fn threads_for(
    parallelism: Parallelism,
    threading_threshold: usize,
    m: usize,
    n: usize,
    k: usize,
) -> (r: usize)
    ensures
        may_use(
            parallelism,
            threading_threshold as int,
            m as int,
            n as int,
            k as int,
            r as int,
        ),
{
    match parallelism {
        Parallelism::Serial => 1,
        Parallelism::Rayon(n_threads) => {
            if saturating_mul(saturating_mul(m, n), k) < threading_threshold {
                1
            } else if n_threads == 0 {
                pool_threads()
            } else {
                n_threads
            }
        },
    }
}

/// `new` is what a product leaves of `old`, for a number of threads that it may have been given.
pub open spec fn parallel_outcome<
    Lhs,
    Rhs,
    Dst: Element,
    Acc: Element,
    S: MixedSimd<Lhs, Rhs, Dst, Acc>,
>(
    axis: SplitAxis,
    simd: S,
    m: int,
    n: int,
    k: int,
    old_dst: Seq<Dst>,
    new_dst: Seq<Dst>,
    dst_at: Strides,
    lhs: Seq<Lhs>,
    lhs_at: Strides,
    rhs: Seq<Rhs>,
    rhs_at: Strides,
    alpha: Acc,
    beta: Acc,
    parallelism: Parallelism,
    threading_threshold: int,
) -> bool {
    exists|t: int|
        #[trigger] may_use(parallelism, threading_threshold, m, n, k, t) && rewritten(
            old_dst,
            new_dst,
            dst_at,
            m,
            n,
            parallel_value(
                axis,
                simd,
                task_grid::<Dst>(axis, S::width() as int, t, m, n, k).1,
                k,
                old_dst,
                dst_at,
                lhs,
                lhs_at,
                rhs,
                rhs_at,
                alpha,
                beta,
            ),
        )
}

/// Whether a product can be carried out on `n_threads` threads, with vectors of `width` lanes.
pub fn plan_is_possible<T>(
    axis: SplitAxis,
    width: usize,
    n_threads: usize,
    m: usize,
    n: usize,
    k: usize,
) -> (r: bool)
    requires
        width > 0,
    ensures
        r == plan_fits::<T>(
            axis,
            width as int,
            n_threads as int,
            m as int,
            n as int,
            k as int,
        ),
{
    if n_threads <= 1 {
        return true;
    }
    let size: usize = core::mem::size_of::<T>();
    let line: usize = CACHELINE_ALIGN / max_usize(1, size);
    let pad: usize = max_usize(1, line);
    match div_ceil(m, pad).checked_mul(pad) {
        None => false,
        Some(partial_stride) => {
            let partial_bytes: usize = saturating_mul(partial_stride, size);
            let (n_row_tasks, n_depth) = split_tasks(
                axis,
                n_threads,
                m,
                n,
                k,
                max_usize(width, line),
                partial_bytes,
            );
            if n_depth <= 1 {
                return true;
            }
            core::mem::align_of::<T>() <= CACHELINE_ALIGN && (size > 0 || n_depth.checked_mul(
                partial_stride,
            ).is_some())
        },
    }
}

/// `dst = alpha * dst + beta * lhs * rhs`, with the work split across `parallelism` where there is
/// at least `threading_threshold` of it.
///
/// What is left in `dst` is what [`gemv_on_threads`] leaves there, for the number of threads that
/// was put to work.
pub fn gemv_parallel<
    Lhs: Copy + Send + Sync,
    Rhs: Copy + Send + Sync,
    Dst: Element,
    Acc: Element,
    S: MixedSimd<Lhs, Rhs, Dst, Acc>,
>(
    axis: SplitAxis,
    simd: S,
    m: usize,
    n: usize,
    k: usize,
    dst: &mut [Dst],
    dst_at: Strides,
    lhs: &[Lhs],
    lhs_at: Strides,
    rhs: &[Rhs],
    rhs_at: Strides,
    alpha: Acc,
    beta: Acc,
    parallelism: Parallelism,
    threading_threshold: usize,
)
    requires
        kernel_strides(axis, lhs_at, rhs_at),
        operands_fit(
            m as int,
            n as int,
            k as int,
            old(dst)@.len() as int,
            dst_at,
            lhs@.len() as int,
            lhs_at,
            rhs@.len() as int,
            rhs_at,
        ),
        forall|t: int|
            #[trigger] may_use(
                parallelism,
                threading_threshold as int,
                m as int,
                n as int,
                k as int,
                t,
            ) ==> plan_fits::<Dst>(
                axis,
                S::width() as int,
                t,
                m as int,
                n as int,
                k as int,
            ),
    ensures
        parallel_outcome(
            axis,
            simd,
            m as int,
            n as int,
            k as int,
            old(dst)@,
            final(dst)@,
            dst_at,
            lhs@,
            lhs_at,
            rhs@,
            rhs_at,
            alpha,
            beta,
            parallelism,
            threading_threshold as int,
        ),
{
    let n_threads: usize = threads_for(parallelism, threading_threshold, m, n, k);
    gemv_on_threads(
        axis,
        simd,
        m,
        n,
        k,
        dst,
        dst_at,
        lhs,
        lhs_at,
        rhs,
        rhs_at,
        alpha,
        beta,
        n_threads,
    )
}

/// [`gemv_parallel`] where the plan of the threads that are put to work can be carried out. Where
/// it cannot, the answer is `false` and nothing is touched.
pub fn try_gemv_parallel<
    Lhs: Copy + Send + Sync,
    Rhs: Copy + Send + Sync,
    Dst: Element,
    Acc: Element,
    S: MixedSimd<Lhs, Rhs, Dst, Acc>,
>(
    axis: SplitAxis,
    simd: S,
    m: usize,
    n: usize,
    k: usize,
    dst: &mut [Dst],
    dst_at: Strides,
    lhs: &[Lhs],
    lhs_at: Strides,
    rhs: &[Rhs],
    rhs_at: Strides,
    alpha: Acc,
    beta: Acc,
    parallelism: Parallelism,
    threading_threshold: usize,
) -> (r: bool)
    requires
        kernel_strides(axis, lhs_at, rhs_at),
        operands_fit(
            m as int,
            n as int,
            k as int,
            old(dst)@.len() as int,
            dst_at,
            lhs@.len() as int,
            lhs_at,
            rhs@.len() as int,
            rhs_at,
        ),
    ensures
        r ==> parallel_outcome(
            axis,
            simd,
            m as int,
            n as int,
            k as int,
            old(dst)@,
            final(dst)@,
            dst_at,
            lhs@,
            lhs_at,
            rhs@,
            rhs_at,
            alpha,
            beta,
            parallelism,
            threading_threshold as int,
        ),
        !r ==> final(dst)@ == old(dst)@,
        exists|t: int|
            #[trigger] may_use(
                parallelism,
                threading_threshold as int,
                m as int,
                n as int,
                k as int,
                t,
            ) && r == plan_fits::<Dst>(
                axis,
                S::width() as int,
                t,
                m as int,
                n as int,
                k as int,
            ),
{
    let n_threads: usize = threads_for(parallelism, threading_threshold, m, n, k);
    if !plan_is_possible::<Dst>(axis, S::simd_width(), n_threads, m, n, k) {
        return false;
    }
    gemv_on_threads(
        axis,
        simd,
        m,
        n,
        k,
        dst,
        dst_at,
        lhs,
        lhs_at,
        rhs,
        rhs_at,
        alpha,
        beta,
        n_threads,
    );
    true
}

/// [`mixed_gemv_colmajor`](crate::gemv::mixed_gemv_colmajor), with the work split across
/// `parallelism`.
pub fn mixed_gemv_colmajor_parallel<
    Lhs: Copy + Send + Sync,
    Rhs: Copy + Send + Sync,
    Dst: Element,
    Acc: Element,
    S: MixedSimd<Lhs, Rhs, Dst, Acc>,
>(
    simd: S,
    m: usize,
    n: usize,
    k: usize,
    dst: &mut [Dst],
    dst_at: Strides,
    lhs: &[Lhs],
    lhs_at: Strides,
    rhs: &[Rhs],
    rhs_at: Strides,
    alpha: Acc,
    beta: Acc,
    parallelism: Parallelism,
    threading_threshold: usize,
)
    requires
        lhs_at.rs == 1,
        dst_at.rs == 1,
        operands_fit(
            m as int,
            n as int,
            k as int,
            old(dst)@.len() as int,
            dst_at,
            lhs@.len() as int,
            lhs_at,
            rhs@.len() as int,
            rhs_at,
        ),
        forall|t: int|
            #[trigger] may_use(
                parallelism,
                threading_threshold as int,
                m as int,
                n as int,
                k as int,
                t,
            ) ==> plan_fits::<Dst>(
                SplitAxis::Depth,
                S::width() as int,
                t,
                m as int,
                n as int,
                k as int,
            ),
    ensures
        parallel_outcome(
            SplitAxis::Depth,
            simd,
            m as int,
            n as int,
            k as int,
            old(dst)@,
            final(dst)@,
            dst_at,
            lhs@,
            lhs_at,
            rhs@,
            rhs_at,
            alpha,
            beta,
            parallelism,
            threading_threshold as int,
        ),
{
    gemv_parallel(
        SplitAxis::Depth,
        simd,
        m,
        n,
        k,
        dst,
        dst_at,
        lhs,
        lhs_at,
        rhs,
        rhs_at,
        alpha,
        beta,
        parallelism,
        threading_threshold,
    )
}

/// [`mixed_gemv_rowmajor`](crate::gemv::mixed_gemv_rowmajor), with the work split across
/// `parallelism`.
pub fn mixed_gemv_rowmajor_parallel<
    Lhs: Copy + Send + Sync,
    Rhs: Copy + Send + Sync,
    Dst: Element,
    Acc: Element,
    S: MixedSimd<Lhs, Rhs, Dst, Acc>,
>(
    simd: S,
    m: usize,
    n: usize,
    k: usize,
    dst: &mut [Dst],
    dst_at: Strides,
    lhs: &[Lhs],
    lhs_at: Strides,
    rhs: &[Rhs],
    rhs_at: Strides,
    alpha: Acc,
    beta: Acc,
    parallelism: Parallelism,
    threading_threshold: usize,
)
    requires
        lhs_at.cs == 1,
        rhs_at.rs == 1,
        operands_fit(
            m as int,
            n as int,
            k as int,
            old(dst)@.len() as int,
            dst_at,
            lhs@.len() as int,
            lhs_at,
            rhs@.len() as int,
            rhs_at,
        ),
        forall|t: int|
            #[trigger] may_use(
                parallelism,
                threading_threshold as int,
                m as int,
                n as int,
                k as int,
                t,
            ) ==> plan_fits::<Dst>(
                SplitAxis::Rows,
                S::width() as int,
                t,
                m as int,
                n as int,
                k as int,
            ),
    ensures
        parallel_outcome(
            SplitAxis::Rows,
            simd,
            m as int,
            n as int,
            k as int,
            old(dst)@,
            final(dst)@,
            dst_at,
            lhs@,
            lhs_at,
            rhs@,
            rhs_at,
            alpha,
            beta,
            parallelism,
            threading_threshold as int,
        ),
{
    gemv_parallel(
        SplitAxis::Rows,
        simd,
        m,
        n,
        k,
        dst,
        dst_at,
        lhs,
        lhs_at,
        rhs,
        rhs_at,
        alpha,
        beta,
        parallelism,
        threading_threshold,
    )
}

/// A product that can only be cut into rows leaves, bit for bit, what the serial kernel leaves,
/// whatever the arithmetic.
pub proof fn law_row_split_is_serial<
    Lhs,
    Rhs,
    Dst: Element,
    Acc: Element,
    S: MixedSimd<Lhs, Rhs, Dst, Acc>,
>(
    axis: SplitAxis,
    simd: S,
    m: int,
    n: int,
    k: int,
    dst: Seq<Dst>,
    serial: Seq<Dst>,
    parallel: Seq<Dst>,
    dst_at: Strides,
    lhs: Seq<Lhs>,
    lhs_at: Strides,
    rhs: Seq<Rhs>,
    rhs_at: Strides,
    alpha: Acc,
    beta: Acc,
    parallelism: Parallelism,
    threading_threshold: int,
)
    requires
        forall|t: int|
            #[trigger] may_use(parallelism, threading_threshold, m, n, k, t) ==> task_grid::<Dst>(
                axis,
                S::width() as int,
                t,
                m,
                n,
                k,
            ).1 <= 1,
        rewritten(
            dst,
            serial,
            dst_at,
            m,
            n,
            serial_value(axis, simd, k, dst, dst_at, lhs, lhs_at, rhs, rhs_at, alpha, beta),
        ),
        parallel_outcome(
            axis,
            simd,
            m,
            n,
            k,
            dst,
            parallel,
            dst_at,
            lhs,
            lhs_at,
            rhs,
            rhs_at,
            alpha,
            beta,
            parallelism,
            threading_threshold,
        ),
    ensures
        parallel == serial,
{
    assert forall|p: int| 0 <= p < dst.len() implies parallel[p] == serial[p] by {
        if dst_at.covers(m, n, p) {
            let (i, j) = choose|i: int, j: int|
                0 <= i < m && 0 <= j < n && #[trigger] dst_at.at(i, j) == p;
            assert(parallel[dst_at.at(i, j)] == serial[dst_at.at(i, j)]);
        }
    }
    assert(parallel =~= serial);
}

/// A task works on a product of its own: with rows from `r0` on, and depths from `d0` on, it reads
/// what the kernel reads of operands that start at `lhs + r0 * lhs_rs + d0 * lhs_cs` and at
/// `rhs + d0 * rhs_rs`, and it leaves in row `i` of a `dst` that starts at `dst + r0 * dst_rs` what
/// the whole product, over the same depths, leaves in row `r0 + i`.
pub proof fn law_task_is_a_product<
    Lhs,
    Rhs,
    Dst: Element,
    Acc: Element,
    S: MixedSimd<Lhs, Rhs, Dst, Acc>,
>(
    axis: SplitAxis,
    simd: S,
    r0: int,
    d0: int,
    d1: int,
    i: int,
    j: int,
    dst: Seq<Dst>,
    dst_at: Strides,
    lhs: Seq<Lhs>,
    lhs_at: Strides,
    rhs: Seq<Rhs>,
    rhs_at: Strides,
    alpha: Acc,
    beta: Acc,
)
    requires
        d0 <= d1,
        0 <= dst_at.at(r0, 0) <= usize::MAX,
        0 <= lhs_at.at(r0, d0) <= usize::MAX,
        0 <= rhs_at.at(d0, 0) <= usize::MAX,
    ensures
        serial_value(
            axis,
            simd,
            d1 - d0,
            dst,
            dst_at.moved(r0, 0),
            lhs,
            lhs_at.moved(r0, d0),
            rhs,
            rhs_at.moved(d0, 0),
            alpha,
            beta,
        )(i, j) == serial_entry(
            axis,
            simd,
            alpha,
            beta,
            lhs_row(simd, lhs, lhs_at, r0 + i, d0, d1),
            rhs_column(simd, rhs, rhs_at, j, d0, d1),
            dst[dst_at.at(r0 + i, j)],
        ),
{
    dst_at.lemma_moved(r0, 0, i, j);
    let moved_lhs = lhs_at.moved(r0, d0);
    let moved_rhs = rhs_at.moved(d0, 0);
    let x = lhs_row::<Lhs, Rhs, Dst, Acc, S>(simd, lhs, lhs_at, r0 + i, d0, d1);
    let y = rhs_column::<Lhs, Rhs, Dst, Acc, S>(simd, rhs, rhs_at, j, d0, d1);
    let moved_x = lhs_row::<Lhs, Rhs, Dst, Acc, S>(simd, lhs, moved_lhs, i, 0, d1 - d0);
    let moved_y = rhs_column::<Lhs, Rhs, Dst, Acc, S>(simd, rhs, moved_rhs, j, 0, d1 - d0);
    assert forall|d: int| 0 <= d < d1 - d0 implies moved_x[d] == x[d] && moved_y[d] == y[d] by {
        lhs_at.lemma_moved(r0, d0, i, 0 + d);
        rhs_at.lemma_moved(d0, 0, 0 + d, j);
    }
    assert(moved_x =~= x);
    assert(moved_y =~= y);
}

/// The depth is cut only where there is one output column and a depth of two useful slices.
pub proof fn law_depth_split_is_rare<T>(
    axis: SplitAxis,
    width: int,
    n_threads: int,
    m: int,
    n: int,
    k: int,
)
    requires
        0 < width,
        0 <= m,
        0 <= k,
        n != 1 || k < 2 * MIN_DEPTH_PER_TASK,
    ensures
        task_grid::<T>(axis, width, n_threads, m, n, k).1 == 1,
{
}

/// A zero `alpha` clears `dst` on any number of threads: whatever the arithmetic, what a product or
/// a reduction leaves does not depend on what `dst` held.
pub proof fn law_zero_alpha_ignores_dst_on_threads<
    Lhs,
    Rhs,
    Dst: Element,
    Acc: Element,
    S: MixedSimd<Lhs, Rhs, Dst, Acc>,
>(
    axis: SplitAxis,
    simd: S,
    n_depth: int,
    alpha: Acc,
    beta: Acc,
    x: Seq<Acc>,
    y: Seq<Acc>,
    dst1: Dst,
    dst2: Dst,
    partial: Seq<Dst>,
    stride: int,
    old1: Seq<Dst>,
    old2: Seq<Dst>,
    dst_at: Strides,
    row: int,
)
    requires
        alpha.is_zero_spec(),
        !alpha.is_one_spec(),
    ensures
        parallel_entry(axis, simd, n_depth, alpha, beta, x, y, dst1) == parallel_entry(
            axis,
            simd,
            n_depth,
            alpha,
            beta,
            x,
            y,
            dst2,
        ),
        reduced(simd, partial, stride, n_depth, old1, dst_at, alpha, beta)(row) == reduced(
            simd,
            partial,
            stride,
            n_depth,
            old2,
            dst_at,
            alpha,
            beta,
        )(row),
{
    law_zero_alpha_ignores_dst(axis, simd, alpha, beta, x, y, dst1, dst2);
}

/// The work of a product is the number of its multiplications, counted up to `usize::MAX`.
pub proof fn law_total_work_counts_multiplications(m: usize, n: usize, k: usize)
    ensures
        m * n * k <= usize::MAX ==> total_work(m as int, n as int, k as int) == m * n * k,
        m * n * k > usize::MAX ==> total_work(m as int, n as int, k as int) == usize::MAX,
{
    let p = m * n;
    let top = usize::MAX as int;
    assert(p >= 0) by (nonlinear_arith)
        requires
            p == m * n,
    ;
    if p > top {
        if k == 0 {
            assert(p * k == 0 && top * k == 0) by (nonlinear_arith)
                requires
                    k == 0,
            ;
        } else {
            assert(p * k >= p && top * k >= top) by (nonlinear_arith)
                requires
                    k >= 1,
                    p >= 0,
                    top >= 0,
            ;
        }
    }
}

/// A product stays on one thread below the threshold, and above it gets as many threads as were
/// asked for.
pub proof fn law_threads_follow_the_threshold(
    n_threads: usize,
    threading_threshold: usize,
    m: usize,
    n: usize,
    k: usize,
    t: int,
)
    requires
        m * n * k <= usize::MAX,
    ensures
        may_use(
            Parallelism::Serial,
            threading_threshold as int,
            m as int,
            n as int,
            k as int,
            t,
        ) <==> t == 1,
        m * n * k < threading_threshold ==> (may_use(
            Parallelism::Rayon(n_threads),
            threading_threshold as int,
            m as int,
            n as int,
            k as int,
            t,
        ) <==> t == 1),
        m * n * k >= threading_threshold && n_threads > 0 ==> (may_use(
            Parallelism::Rayon(n_threads),
            threading_threshold as int,
            m as int,
            n as int,
            k as int,
            t,
        ) <==> t == n_threads),
{
    law_total_work_counts_multiplications(m, n, k);
}

/// Row tasks and scratch columns keep to cache lines of 128 bytes: a row task is made of runs no
/// shorter than a vector and no shorter than the elements that a line holds, and scratch columns
/// start a whole number of lines' elements apart, with room for every row and less than one line
/// to spare.
pub proof fn law_tasks_keep_to_cache_lines<T>(width: int, m: int)
    requires
        0 < width,
        0 <= m,
        0 < vstd::layout::size_of::<T>() <= 128,
    ensures
        granularity::<T>(width) >= width,
        (granularity::<T>(width) + 1) * vstd::layout::size_of::<T>() > 128,
        ({
            let line = 128int / vstd::layout::size_of::<T>() as int;
            let stride = partial_stride_spec::<T>(m);
            &&& m <= stride < m + line
            &&& stride % line == 0
        }),
{
    let size = vstd::layout::size_of::<T>() as int;
    let line = 128int / size;
    let gran = granularity::<T>(width);
    assert((line + 1) * size > 128 && line >= 1) by (nonlinear_arith)
        requires
            0 < size <= 128,
            line == 128int / size,
    ;
    assert(line_elements::<T>() == line);
    assert((gran + 1) * size >= (line + 1) * size) by (nonlinear_arith)
        requires
            gran >= line,
            size > 0,
    ;
    let q = (m + line - 1) / line;
    assert(m <= q * line < m + line && (q * line) % line == 0) by (nonlinear_arith)
        requires
            q == (m + line - 1) / line,
            line >= 1,
            m >= 0,
    ;
}

} // verus!
