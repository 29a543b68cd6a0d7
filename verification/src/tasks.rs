//! How a product is cut into tasks.
use crate::gemv::SplitAxis;
use vstd::prelude::*;

verus! {

/// The alignment, in bytes, that keeps two buffers off each other's cache lines.
pub const CACHELINE_ALIGN: usize = 128;

/// The smallest depth slice worth handing to its own task.
pub const MIN_DEPTH_PER_TASK: usize = 128;

/// Below this many bytes per row chunk, a column-major row split reads too short a run from each
/// column to stream well, and a depth split wins although it needs a reduction.
pub const MIN_ROW_RUN_BYTES: usize = 65536;

/// The ceiling on the scratch that a depth split may allocate. Large outputs hit this and fall
/// back to the row split, which suits them: their row chunks are already long.
pub const MAX_PARTIAL_BYTES: usize = 4194304;

/// The smaller of two integers.
pub open spec fn min_int(a: int, b: int) -> int {
    if a <= b {
        a
    } else {
        b
    }
}

/// The larger of two integers.
pub open spec fn max_int(a: int, b: int) -> int {
    if a >= b {
        a
    } else {
        b
    }
}

/// `a / b`, rounded up.
pub open spec fn ceil_div(a: int, b: int) -> int {
    (a + b - 1) / b
}

/// The smallest multiple of `b` that is not below `a`.
pub open spec fn round_up(a: int, b: int) -> int {
    ceil_div(a, b) * b
}

/// `a / b`, rounded up.
pub fn div_ceil(a: usize, b: usize) -> (r: usize)
    requires
        b > 0,
    ensures
        r == ceil_div(a as int, b as int),
{
    let d: usize = a / b;
    let r: usize = a % b;
    proof {
        let (ai, bi) = (a as int, b as int);
        vstd::arithmetic::div_mod::lemma_fundamental_div_mod(ai, bi);
        if r > 0 {
            assert(ceil_div(ai, bi) == d + 1 && d < ai) by (nonlinear_arith)
                requires
                    ai == bi * d + r,
                    0 < r < bi,
                    d >= 0,
            ;
        } else {
            assert(ceil_div(ai, bi) == d) by (nonlinear_arith)
                requires
                    ai == bi * d,
                    bi > 0,
            ;
        }
    }
    if r > 0 {
        d + 1
    } else {
        d
    }
}

/// The smallest multiple of `b` that is not below `a`.
pub fn next_multiple_of(a: usize, b: usize) -> (r: usize)
    requires
        b > 0,
        round_up(a as int, b as int) <= usize::MAX,
    ensures
        r == round_up(a as int, b as int),
{
    div_ceil(a, b) * b
}

/// The product, or the largest `usize` where it does not fit.
pub fn saturating_mul(a: usize, b: usize) -> (r: usize)
    ensures
        r == min_int(a * b, usize::MAX as int),
{
    match a.checked_mul(b) {
        Some(r) => r,
        None => usize::MAX,
    }
}

/// The number of granules that come before range `tid` when `n_granules` are dealt out to
/// `n_tasks` ranges, the first few of which take one more than the others.
pub open spec fn granule_start(tid: int, n_tasks: int, n_granules: int) -> int {
    tid * (n_granules / n_tasks) + min_int(tid, n_granules % n_tasks)
}

/// Where range `tid` starts when `n_items`, in runs of `granularity`, are dealt out to `n_tasks`
/// ranges.
pub open spec fn range_start_spec(
    tid: int,
    n_tasks: int,
    n_items: int,
    granularity: int,
) -> int {
    if tid >= n_tasks {
        n_items
    } else {
        min_int(
            granule_start(tid, n_tasks, ceil_div(n_items, granularity)) * granularity,
            n_items,
        )
    }
}

/// Splits `n_items` into `n_tasks` evenly sized ranges and returns the start of the range owned
/// by `tid`. `tid == n_tasks` returns `n_items`, so a range is
/// `(range_start(tid), range_start(tid + 1))`.
pub fn range_start(tid: usize, n_tasks: usize, n_items: usize, granularity: usize) -> (r: usize)
    requires
        tid < n_tasks ==> granularity > 0,
    ensures
        r == range_start_spec(tid as int, n_tasks as int, n_items as int, granularity as int),
{
    if tid >= n_tasks {
        return n_items;
    }
    let n_granules: usize = div_ceil(n_items, granularity);
    let base: usize = n_granules / n_tasks;
    let rem: usize = n_granules % n_tasks;
    proof {
        vstd::arithmetic::div_mod::lemma_fundamental_div_mod(n_granules as int, n_tasks as int);
        if tid < rem {
            assert(tid * (base + 1) == tid * base + tid && tid * (base + 1) <= n_granules && base
                < n_granules)
                by (nonlinear_arith)
                requires
                    n_granules == n_tasks * base + rem,
                    tid < rem,
                    tid < n_tasks,
            ;
        } else {
            assert(0 <= tid * base && rem + tid * base <= n_granules) by (nonlinear_arith)
                requires
                    n_granules == n_tasks * base + rem,
                    tid < n_tasks,
                    base >= 0,
                    tid >= 0,
            ;
        }
    }
    let granule: usize = if tid < rem {
        tid * (base + 1)
    } else {
        rem + tid * base
    };
    match granule.checked_mul(granularity) {
        Some(start) => if start < n_items {
            start
        } else {
            n_items
        },
        None => n_items,
    }
}

proof fn lemma_granule_step(tid: int, n_tasks: int, n_granules: int)
    requires
        0 <= tid < n_tasks,
        0 <= n_granules,
    ensures
        0 <= granule_start(tid, n_tasks, n_granules),
        n_granules / n_tasks <= granule_start(tid + 1, n_tasks, n_granules) - granule_start(
            tid,
            n_tasks,
            n_granules,
        ) <= n_granules / n_tasks + 1,
        granule_start(n_tasks, n_tasks, n_granules) == n_granules,
{
    let base = n_granules / n_tasks;
    let rem = n_granules % n_tasks;
    vstd::arithmetic::div_mod::lemma_fundamental_div_mod(n_granules, n_tasks);
    assert((tid + 1) * base == tid * base + base && base >= 0 && tid * base >= 0) by (nonlinear_arith)
        requires
            base == n_granules / n_tasks,
            n_granules >= 0,
            n_tasks > 0,
            tid >= 0,
    ;
    assert(n_tasks * base == base * n_tasks) by (nonlinear_arith);
}

/// The ranges of [`range_start`] follow one another without a gap: the first starts at zero, each
/// ends where the next starts and not before its own start, and the last ends at `n_items`.
pub proof fn law_ranges_tile(tid: int, n_tasks: int, n_items: int, granularity: int)
    requires
        0 <= tid < n_tasks,
        0 <= n_items,
        0 < granularity,
    ensures
        range_start_spec(0, n_tasks, n_items, granularity) == 0,
        0 <= range_start_spec(tid, n_tasks, n_items, granularity) <= range_start_spec(
            tid + 1,
            n_tasks,
            n_items,
            granularity,
        ) <= n_items,
        range_start_spec(n_tasks, n_tasks, n_items, granularity) == n_items,
{
    let g = ceil_div(n_items, granularity);
    assert(g >= 0 && g * granularity >= n_items) by (nonlinear_arith)
        requires
            n_items >= 0,
            granularity > 0,
            g == (n_items + granularity - 1) / granularity,
    ;
    lemma_granule_step(tid, n_tasks, g);
    lemma_granule_step(0, n_tasks, g);
    assert(g / n_tasks >= 0) by (nonlinear_arith)
        requires
            g >= 0,
            n_tasks > 0,
    ;
    let a = granule_start(tid, n_tasks, g);
    let b = granule_start(tid + 1, n_tasks, g);
    assert(0 <= a * granularity <= b * granularity) by (nonlinear_arith)
        requires
            0 <= a <= b,
            granularity > 0,
    ;
}

/// Every range starts on a multiple of the granularity, or past the last item.
pub proof fn law_ranges_aligned(tid: int, n_tasks: int, n_items: int, granularity: int)
    requires
        0 <= tid <= n_tasks,
        0 <= n_items,
        0 < granularity,
    ensures
        range_start_spec(tid, n_tasks, n_items, granularity) % granularity == 0
            || range_start_spec(tid, n_tasks, n_items, granularity) == n_items,
{
    let a = granule_start(tid, n_tasks, ceil_div(n_items, granularity));
    assert((a * granularity) % granularity == 0) by (nonlinear_arith)
        requires
            granularity > 0,
    ;
}

/// The number of items in range `tid`.
pub open spec fn range_len(tid: int, n_tasks: int, n_items: int, granularity: int) -> int {
    range_start_spec(tid + 1, n_tasks, n_items, granularity) - range_start_spec(
        tid,
        n_tasks,
        n_items,
        granularity,
    )
}

/// The items are dealt out evenly: any two ranges hold the same number of granules, give or take
/// one; no range has fewer items than a later one; and none is empty where there are as many
/// granules as ranges.
pub proof fn law_ranges_even(tid1: int, tid2: int, n_tasks: int, n_items: int, granularity: int)
    requires
        0 <= tid1 <= tid2 < n_tasks,
        0 <= n_items,
        0 < granularity,
    ensures
        ({
            let g = ceil_div(n_items, granularity);
            let first = granule_start(tid1 + 1, n_tasks, g) - granule_start(tid1, n_tasks, g);
            let second = granule_start(tid2 + 1, n_tasks, g) - granule_start(tid2, n_tasks, g);
            0 <= first - second <= 1
        }),
        range_len(tid1, n_tasks, n_items, granularity) >= range_len(
            tid2,
            n_tasks,
            n_items,
            granularity,
        ),
        ceil_div(n_items, granularity) >= n_tasks ==> range_len(
            tid1,
            n_tasks,
            n_items,
            granularity,
        ) > 0,
{
    let g = ceil_div(n_items, granularity);
    let base = g / n_tasks;
    let rem = g % n_tasks;
    assert(g >= 0 && g * granularity >= n_items && (g - 1) * granularity < n_items)
        by (nonlinear_arith)
        requires
            n_items >= 0,
            granularity > 0,
            g == (n_items + granularity - 1) / granularity,
    ;
    vstd::arithmetic::div_mod::lemma_fundamental_div_mod(g, n_tasks);
    assert((tid1 + 1) * base == tid1 * base + base && (tid2 + 1) * base == tid2 * base + base
        && base >= 0) by (nonlinear_arith)
        requires
            base == g / n_tasks,
            g >= 0,
            n_tasks > 0,
    ;
    lemma_granule_step(tid1, n_tasks, g);
    lemma_granule_step(tid2, n_tasks, g);
    if tid1 < tid2 {
        lemma_granules_ascend(tid1 + 1, tid2, n_tasks, g);
    }
    lemma_granules_ascend(tid1 + 1, n_tasks, n_tasks, g);
    let (a1, b1) = (granule_start(tid1, n_tasks, g), granule_start(tid1 + 1, n_tasks, g));
    let (a2, b2) = (granule_start(tid2, n_tasks, g), granule_start(tid2 + 1, n_tasks, g));
    lemma_clipped(a1, b1, a2, b2, n_items, granularity);
    if g >= n_tasks {
        assert(base >= 1) by (nonlinear_arith)
            requires
                base == g / n_tasks,
                g >= n_tasks,
                n_tasks > 0,
        ;
        assert(a1 * granularity <= (g - 1) * granularity && a1 * granularity < b1 * granularity)
            by (nonlinear_arith)
            requires
                a1 <= g - 1,
                a1 < b1,
                granularity > 0,
        ;
    }
}

/// Granules are dealt out in order.
proof fn lemma_granules_ascend(tid1: int, tid2: int, n_tasks: int, n_granules: int)
    requires
        0 <= tid1 <= tid2 <= n_tasks,
        0 < n_tasks,
        0 <= n_granules,
    ensures
        granule_start(tid1, n_tasks, n_granules) <= granule_start(tid2, n_tasks, n_granules),
{
    let base = n_granules / n_tasks;
    assert(tid1 * base <= tid2 * base) by (nonlinear_arith)
        requires
            tid1 <= tid2,
            base == n_granules / n_tasks,
            n_granules >= 0,
            n_tasks > 0,
    ;
}

/// Clipping two runs of granules at the last item leaves the earlier one no shorter.
proof fn lemma_clipped(a1: int, b1: int, a2: int, b2: int, n_items: int, granularity: int)
    requires
        0 <= a1 <= b1,
        a1 == a2 && b1 == b2 || b1 <= a2,
        a2 <= b2,
        b1 - a1 >= b2 - a2,
        granularity > 0,
    ensures
        min_int(b1 * granularity, n_items) - min_int(a1 * granularity, n_items) >= min_int(
            b2 * granularity,
            n_items,
        ) - min_int(a2 * granularity, n_items),
{
    assert((b1 - a1) * granularity >= (b2 - a2) * granularity && (b1 - a1) * granularity == b1
        * granularity - a1 * granularity && (b2 - a2) * granularity == b2 * granularity - a2
        * granularity && a1 * granularity <= b1 * granularity && a2 * granularity <= b2
        * granularity) by (nonlinear_arith)
        requires
            b1 - a1 >= b2 - a2,
            a1 <= b1,
            a2 <= b2,
            granularity > 0,
    ;
    if b1 <= a2 {
        assert(b1 * granularity <= a2 * granularity) by (nonlinear_arith)
            requires
                b1 <= a2,
                granularity > 0,
        ;
    }
}

/// The most depth slices that a product may be cut into: one slice per thread, each of a useful
/// depth, with all their scratch columns inside [`MAX_PARTIAL_BYTES`]; and no cut where there is
/// more than one output column.
pub open spec fn max_depth_tasks(n_threads: int, n: int, k: int, partial_bytes: int) -> int {
    if n == 1 {
        min_int(
            min_int(n_threads, k / MIN_DEPTH_PER_TASK as int),
            if partial_bytes == 0 {
                n_threads
            } else {
                MAX_PARTIAL_BYTES as int / partial_bytes
            },
        )
    } else {
        1
    }
}

/// The most row chunks that a product may be cut into: one chunk per thread, each of a granule or
/// more.
pub open spec fn max_row_tasks(n_threads: int, m: int, gran: int) -> int {
    max_int(1, min_int(n_threads, ceil_div(m, gran)))
}

/// How many row tasks and depth tasks [`split_tasks`] picks. Column-major prefers depth slices
/// while its row chunks would be short; otherwise rows are cut first, and depth only where the
/// rows leave threads idle.
pub open spec fn split_tasks_spec(
    axis: SplitAxis,
    n_threads: int,
    m: int,
    n: int,
    k: int,
    gran: int,
    partial_bytes: int,
) -> (int, int) {
    let depth = max_depth_tasks(n_threads, n, k, partial_bytes);
    let rows = max_row_tasks(n_threads, m, gran);
    let short_runs = partial_bytes < min_int(
        n_threads * MIN_ROW_RUN_BYTES,
        usize::MAX as int,
    );
    if axis == SplitAxis::Depth && short_runs && depth > 1 {
        (max_int(1, min_int(n_threads / depth, rows)), depth)
    } else if rows < n_threads && depth > 1 {
        (rows, max_int(1, min_int(n_threads / rows, depth)))
    } else {
        (rows, 1)
    }
}

fn min_usize(a: usize, b: usize) -> (r: usize)
    ensures
        r == min_int(a as int, b as int),
{
    if a <= b {
        a
    } else {
        b
    }
}

/// The larger of two numbers.
pub(crate) fn max_usize(a: usize, b: usize) -> (r: usize)
    ensures
        r == max_int(a as int, b as int),
{
    if a >= b {
        a
    } else {
        b
    }
}

/// Picks how many row tasks and depth tasks to carve the work into.
///
/// A depth split needs one scratch column of `partial_bytes` per slice and a reduction pass, so it
/// is bounded both by memory and by a smallest useful slice of `k`. It also reassociates the sum
/// over `k`, and the reduction assumes one output column, so it is taken only where `n == 1`.
pub fn split_tasks(
    axis: SplitAxis,
    n_threads: usize,
    m: usize,
    n: usize,
    k: usize,
    gran: usize,
    partial_bytes: usize,
) -> (r: (usize, usize))
    requires
        gran > 0,
    ensures
        (r.0 as int, r.1 as int) == split_tasks_spec(
            axis,
            n_threads as int,
            m as int,
            n as int,
            k as int,
            gran as int,
            partial_bytes as int,
        ),
{
    let max_depth: usize = if n == 1 {
        let by_mem: usize = if partial_bytes == 0 {
            n_threads
        } else {
            MAX_PARTIAL_BYTES / partial_bytes
        };
        min_usize(min_usize(n_threads, k / MIN_DEPTH_PER_TASK), by_mem)
    } else {
        1
    };
    let max_row: usize = max_usize(1, min_usize(n_threads, div_ceil(m, gran)));
    // A row split of a column-major product leaves every task reading only a short run out of
    // each column, a full column apart. Once those runs get short, the lost locality costs more
    // than the reduction does, so the depth is split instead and each task gets one contiguous
    // slab. Row-major rows are independent dot products: their split needs no scratch at all, and
    // depth is only a fallback for an `m` too short to fill the threads.
    let prefer_depth: bool = match axis {
        SplitAxis::Depth => partial_bytes < saturating_mul(n_threads, MIN_ROW_RUN_BYTES),
        SplitAxis::Rows => false,
    };
    if prefer_depth && max_depth > 1 {
        (max_usize(1, min_usize(n_threads / max_depth, max_row)), max_depth)
    } else if max_row < n_threads && max_depth > 1 {
        (max_row, max_usize(1, min_usize(n_threads / max_row, max_depth)))
    } else {
        (max_row, 1)
    }
}

/// [`split_tasks`] never asks for more tasks than there are threads, and never for none.
pub proof fn law_split_fills_threads(
    axis: SplitAxis,
    n_threads: int,
    m: int,
    n: int,
    k: int,
    gran: int,
    partial_bytes: int,
)
    requires
        0 <= n_threads,
        0 <= m,
        0 < gran,
        0 <= k,
        0 <= partial_bytes,
    ensures
        ({
            let (rows, depth) = split_tasks_spec(axis, n_threads, m, n, k, gran, partial_bytes);
            1 <= rows && 1 <= depth && rows * depth <= max_int(1, n_threads)
        }),
{
    let (rows, depth) = split_tasks_spec(axis, n_threads, m, n, k, gran, partial_bytes);
    let d = max_depth_tasks(n_threads, n, k, partial_bytes);
    if depth == 1 {
        assert(rows * depth == rows) by (nonlinear_arith)
            requires
                depth == 1,
        ;
    } else if rows == 1 {
        assert(rows * depth == depth) by (nonlinear_arith)
            requires
                rows == 1,
        ;
        assert(n_threads / rows == n_threads) by (nonlinear_arith)
            requires
                rows == 1,
        ;
        assert(depth <= d);
    } else if depth == d && rows <= n_threads / d {
        assert(rows * d <= n_threads) by (nonlinear_arith)
            requires
                rows <= n_threads / d,
                d > 1,
        ;
    } else {
        assert(rows * depth <= n_threads) by (nonlinear_arith)
            requires
                depth <= n_threads / rows,
                rows > 1,
        ;
    }
}

/// [`split_tasks`] splits the depth only for a single output column, only into slices of
/// [`MIN_DEPTH_PER_TASK`] or more, and only while their scratch columns together stay within
/// [`MAX_PARTIAL_BYTES`].
pub proof fn law_depth_split_is_bounded(
    axis: SplitAxis,
    n_threads: int,
    m: int,
    n: int,
    k: int,
    gran: int,
    partial_bytes: int,
)
    requires
        0 <= n_threads,
        0 <= m,
        0 < gran,
        0 <= k,
        0 <= partial_bytes,
        split_tasks_spec(axis, n_threads, m, n, k, gran, partial_bytes).1 > 1,
    ensures
        n == 1,
        split_tasks_spec(axis, n_threads, m, n, k, gran, partial_bytes).1 * MIN_DEPTH_PER_TASK <= k,
        split_tasks_spec(axis, n_threads, m, n, k, gran, partial_bytes).1 * partial_bytes
            <= MAX_PARTIAL_BYTES,
{
    let depth = split_tasks_spec(axis, n_threads, m, n, k, gran, partial_bytes).1;
    let d = max_depth_tasks(n_threads, n, k, partial_bytes);
    assert(depth <= d);
    if partial_bytes > 0 {
        assert(depth * partial_bytes <= MAX_PARTIAL_BYTES) by (nonlinear_arith)
            requires
                depth <= MAX_PARTIAL_BYTES as int / partial_bytes,
                partial_bytes > 0,
        ;
    }
}

/// Row-major products are split along their rows alone wherever the rows can fill the threads.
pub proof fn law_rowmajor_prefers_rows(
    n_threads: int,
    m: int,
    n: int,
    k: int,
    gran: int,
    partial_bytes: int,
)
    requires
        1 <= n_threads,
        0 < gran,
        n_threads <= ceil_div(m, gran),
    ensures
        split_tasks_spec(SplitAxis::Rows, n_threads, m, n, k, gran, partial_bytes) == (
            n_threads,
            1int,
        ),
{
}

/// Column-major splits the depth while its rows are short: where a column has fewer than 64 KiB for
/// each thread, and two slices of a useful depth fit into the scratch, the depth is cut, and into
/// so many slices that one more would be too many for the threads, the depth or the scratch.
pub proof fn law_short_columns_split_the_depth(
    n_threads: int,
    m: int,
    k: int,
    gran: int,
    partial_bytes: int,
)
    requires
        2 <= n_threads,
        0 <= m,
        0 < gran,
        256 <= k,
        0 < partial_bytes,
        2 * partial_bytes <= 4194304,
        partial_bytes < n_threads * 65536,
        n_threads * 65536 <= usize::MAX,
    ensures
        ({
            let (rows, depth) = split_tasks_spec(
                SplitAxis::Depth,
                n_threads,
                m,
                1,
                k,
                gran,
                partial_bytes,
            );
            &&& depth >= 2
            &&& rows * depth <= n_threads
            &&& depth * 128 <= k
            &&& depth * partial_bytes <= 4194304
            &&& depth + 1 > n_threads || (depth + 1) * 128 > k || (depth + 1) * partial_bytes
                > 4194304
        }),
{
    let by_mem = 4194304int / partial_bytes;
    assert(by_mem >= 2 && by_mem * partial_bytes <= 4194304 && (by_mem + 1) * partial_bytes
        > 4194304) by (nonlinear_arith)
        requires
            0 < partial_bytes,
            2 * partial_bytes <= 4194304,
            by_mem == 4194304int / partial_bytes,
    ;
    law_split_fills_threads(SplitAxis::Depth, n_threads, m, 1, k, gran, partial_bytes);
    law_depth_split_is_bounded(SplitAxis::Depth, n_threads, m, 1, k, gran, partial_bytes);
}

/// Column-major stays on the row split where its columns are long enough for every thread and the
/// rows fill the threads.
pub proof fn law_long_columns_split_the_rows(
    n_threads: int,
    m: int,
    n: int,
    k: int,
    gran: int,
    partial_bytes: int,
)
    requires
        1 <= n_threads,
        0 <= m,
        0 < gran,
        n_threads * 65536 <= partial_bytes <= usize::MAX,
        n_threads <= ceil_div(m, gran),
    ensures
        split_tasks_spec(SplitAxis::Depth, n_threads, m, n, k, gran, partial_bytes) == (
            n_threads,
            1int,
        ),
{
}

/// Threads that the rows leave idle are given the depth: where there are at most half as many row
/// tasks as threads, and two slices of a useful depth fit into the scratch, the depth is cut along
/// either axis.
pub proof fn law_idle_threads_split_the_depth(
    axis: SplitAxis,
    n_threads: int,
    m: int,
    k: int,
    gran: int,
    partial_bytes: int,
)
    requires
        2 <= n_threads,
        0 <= m,
        0 < gran,
        2 * max_int(1, ceil_div(m, gran)) <= n_threads,
        256 <= k,
        0 <= partial_bytes,
        2 * partial_bytes <= 4194304,
    ensures
        split_tasks_spec(axis, n_threads, m, 1, k, gran, partial_bytes).1 >= 2,
{
    let rows = max_row_tasks(n_threads, m, gran);
    assert(n_threads / rows >= 2) by (nonlinear_arith)
        requires
            1 <= rows,
            2 * rows <= n_threads,
    ;
    if partial_bytes > 0 {
        let by_mem = 4194304int / partial_bytes;
        assert(by_mem >= 2) by (nonlinear_arith)
            requires
                0 < partial_bytes,
                2 * partial_bytes <= 4194304,
                by_mem == 4194304int / partial_bytes,
        ;
    }
}

/// Rows are cut into as many tasks as there are threads or runs, whichever is fewer, where the depth
/// is not cut: no thread stays idle that a run of rows is left for.
pub proof fn law_row_split_uses_every_thread(
    axis: SplitAxis,
    n_threads: int,
    m: int,
    n: int,
    k: int,
    gran: int,
    partial_bytes: int,
)
    requires
        1 <= n_threads,
        0 <= m,
        0 < gran,
        n != 1,
    ensures
        split_tasks_spec(axis, n_threads, m, n, k, gran, partial_bytes) == (
            max_int(1, min_int(n_threads, (m + gran - 1) / gran)),
            1int,
        ),
{
}

} // verus!
