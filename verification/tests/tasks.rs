use gemm_common::gemv::SplitAxis;
use gemm_common::tasks::{
    div_ceil, next_multiple_of, range_start, saturating_mul, split_tasks, CACHELINE_ALIGN,
};

// exercises the real decision function, so the strategy per variant stays pinned down.
// sizes below are f16 llm-decode shapes on an 8-thread machine.
#[test]
fn split_strategy() {
    let gran = Ord::max(8, CACHELINE_ALIGN / 2);
    let bytes = |m: usize, sz: usize| {
        let pad = Ord::max(1, CACHELINE_ALIGN / sz);
        next_multiple_of(m, pad) * sz
    };

    // colmajor, 14336x4096 f16: a row split would leave each task ~3.5 KiB per column, so
    // this must take the depth split - one contiguous slab per task, no row split at all.
    assert_eq!(
        split_tasks(SplitAxis::Depth, 8, 14336, 1, 4096, gran, bytes(14336, 2)),
        (1, 8),
    );

    // rowmajor, same shape: rows are independent dot products, so split rows only.
    assert_eq!(
        split_tasks(SplitAxis::Rows, 8, 14336, 1, 4096, gran, bytes(14336, 2)),
        (8, 1),
    );

    // rowmajor with an `m` too short to fill the threads falls back to a depth split.
    let (rows, depth) = split_tasks(SplitAxis::Rows, 8, 128, 1, 16384, gran, bytes(128, 2));
    assert!(depth > 1, "expected a depth fallback, got {rows}x{depth}");
    assert!(rows * depth <= 8, "oversubscribed: {rows}x{depth}");

    // a long output already has long row chunks, so colmajor stays on the row split rather
    // than allocating a scratch column per depth slice.
    assert_eq!(
        split_tasks(SplitAxis::Depth, 8, 1 << 22, 1, 4096, gran, bytes(1 << 22, 2)),
        (8, 1),
    );

    // `n > 1` can never take a depth split: the reduction assumes one output column.
    // and a short `k` is never worth slicing.
    for axis in [SplitAxis::Rows, SplitAxis::Depth] {
        assert_eq!(split_tasks(axis, 8, 128, 2, 16384, gran, bytes(128, 2)).1, 1);
        assert_eq!(split_tasks(axis, 8, 64, 1, 100, gran, bytes(64, 2)).1, 1);
    }
}

#[test]
fn rounding() {
    assert_eq!(div_ceil(0, 8), 0);
    assert_eq!(div_ceil(1, 8), 1);
    assert_eq!(div_ceil(16, 8), 2);
    assert_eq!(div_ceil(usize::MAX, 2), usize::MAX / 2 + 1);
    assert_eq!(next_multiple_of(0, 64), 0);
    assert_eq!(next_multiple_of(65, 64), 128);
    assert_eq!(saturating_mul(6, 7), 42);
    assert_eq!(saturating_mul(usize::MAX, 2), usize::MAX);
}

#[test]
fn ranges_tile_in_granules() {
    // 100 rows in runs of 8 are 13 granules: three tasks of 5, 4 and 4.
    let starts: Vec<usize> = (0..4).map(|tid| range_start(tid, 3, 100, 8)).collect();
    assert_eq!(starts, vec![0, 40, 72, 100]);

    // more tasks than items leave the last ranges empty.
    let starts: Vec<usize> = (0..6).map(|tid| range_start(tid, 5, 2, 1)).collect();
    assert_eq!(starts, vec![0, 1, 2, 2, 2, 2]);

    assert_eq!(range_start(7, 5, 2, 1), 2);
    assert_eq!(range_start(0, 1, 0, 4), 0);
}

#[test]
fn split_never_oversubscribes() {
    for axis in [SplitAxis::Rows, SplitAxis::Depth] {
        for n_threads in [0usize, 1, 2, 7, 8, 64] {
            for m in [0usize, 1, 63, 64, 1000, 1 << 20] {
                for k in [0usize, 127, 256, 4096, 1 << 16] {
                    for n in [0usize, 1, 3] {
                        let (rows, depth) = split_tasks(axis, n_threads, m, n, k, 64, m * 4);
                        assert!(rows >= 1 && depth >= 1);
                        assert!(rows * depth <= Ord::max(1, n_threads));
                        if depth > 1 {
                            assert!(n == 1 && k / depth >= 128 && depth * m * 4 <= 4 << 20);
                        }
                    }
                }
            }
        }
    }
}

#[test]
fn ranges_never_grow() {
    for n_items in [0usize, 1, 7, 64, 100, 1000] {
        for granularity in [1usize, 8, 64] {
            for n_tasks in [1usize, 2, 3, 8, 20] {
                let lens: Vec<usize> = (0..n_tasks)
                    .map(|tid| {
                        range_start(tid + 1, n_tasks, n_items, granularity)
                            - range_start(tid, n_tasks, n_items, granularity)
                    })
                    .collect();
                assert!(lens.windows(2).all(|w| w[0] >= w[1]));
                if div_ceil(n_items, granularity) >= n_tasks {
                    assert!(lens.iter().all(|&len| len > 0));
                }
            }
        }
    }
}
