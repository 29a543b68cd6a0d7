use gemm_common::element::Element;
use gemm_common::gemv::{gemv, mixed_gemv_colmajor, mixed_gemv_rowmajor, SplitAxis};
use gemm_common::parallel::{
    gemv_on_threads, gemv_parallel, mixed_gemv_colmajor_parallel, mixed_gemv_rowmajor_parallel,
    plan_is_possible, reduce_partials, threads_for, try_gemv_parallel, Parallelism,
};
use gemm_common::simd::{MixedSimd, Scalar, Simd};
use gemm_common::strides::{gather, scatter, Strides};

fn at(base: usize, cs: isize, rs: isize) -> Strides {
    Strides { base, cs, rs }
}

fn numbers(len: usize, seed: i64) -> Vec<i64> {
    (0..len as i64).map(|i| (i * 37 + seed) % 101 - 50).collect()
}

/// `i32` operands, `i64` sums, four lanes.
#[derive(Clone, Copy)]
struct Four;

impl Simd for Four {
    fn vectorize<R, F: FnOnce() -> R>(self, f: F) -> R {
        f()
    }
}

impl MixedSimd<i32, i16, i64, i64> for Four {
    type LhsN = [i32; 4];
    type RhsN = [i16; 4];
    type DstN = [i64; 4];
    type AccN = [i64; 4];

    fn simd_width() -> usize {
        4
    }

    fn mult(self, lhs: i64, rhs: i64) -> i64 {
        lhs * rhs
    }

    fn add(self, lhs: i64, rhs: i64) -> i64 {
        lhs + rhs
    }

    fn mult_add(self, lhs: i64, rhs: i64, acc: i64) -> i64 {
        lhs * rhs + acc
    }

    fn from_lhs(self, lhs: i32) -> i64 {
        lhs as i64
    }

    fn from_rhs(self, rhs: i16) -> i64 {
        rhs as i64
    }

    fn from_dst(self, dst: i64) -> i64 {
        dst
    }

    fn into_dst(self, acc: i64) -> i64 {
        acc
    }

    fn load_lhs(self, s: &[i32], at: usize) -> [i32; 4] {
        [s[at], s[at + 1], s[at + 2], s[at + 3]]
    }

    fn load_rhs(self, s: &[i16], at: usize) -> [i16; 4] {
        [s[at], s[at + 1], s[at + 2], s[at + 3]]
    }

    fn load_dst(self, s: &[i64], at: usize) -> [i64; 4] {
        [s[at], s[at + 1], s[at + 2], s[at + 3]]
    }

    fn store_dst(self, s: &mut [i64], at: usize, v: [i64; 4]) {
        s[at..at + 4].copy_from_slice(&v);
    }

    fn acc_lane(self, v: [i64; 4], lane: usize) -> i64 {
        v[lane]
    }

    fn simd_splat(self, v: i64) -> [i64; 4] {
        [v; 4]
    }

    fn simd_from_lhs(self, v: [i32; 4]) -> [i64; 4] {
        v.map(|x| x as i64)
    }

    fn simd_from_rhs(self, v: [i16; 4]) -> [i64; 4] {
        v.map(|x| x as i64)
    }

    fn simd_from_dst(self, v: [i64; 4]) -> [i64; 4] {
        v
    }

    fn simd_into_dst(self, v: [i64; 4]) -> [i64; 4] {
        v
    }

    fn simd_mul(self, lhs: [i64; 4], rhs: [i64; 4]) -> [i64; 4] {
        core::array::from_fn(|l| lhs[l] * rhs[l])
    }

    fn simd_add(self, lhs: [i64; 4], rhs: [i64; 4]) -> [i64; 4] {
        core::array::from_fn(|l| lhs[l] + rhs[l])
    }

    fn simd_mult_add(self, lhs: [i64; 4], rhs: [i64; 4], acc: [i64; 4]) -> [i64; 4] {
        core::array::from_fn(|l| lhs[l] * rhs[l] + acc[l])
    }
}

#[test]
fn small_products() {
    // [1 2; 3 4; 5 6] * [10; 100], column-major.
    let lhs = [1i64, 3, 5, 2, 4, 6];
    let rhs = [10i64, 100];
    for (alpha, beta, expected) in [
        (0i64, 1i64, [210i64, 430, 650]),
        (1, 1, [217, 438, 659]),
        (2, 3, [644, 1306, 1968]),
        (2, 0, [14, 16, 18]),
        (0, 0, [0, 0, 0]),
    ] {
        let mut dst = [7i64, 8, 9];
        mixed_gemv_colmajor(
            Scalar, 3, 1, 2, &mut dst, at(0, 3, 1), &lhs, at(0, 3, 1), &rhs, at(0, 2, 1), alpha,
            beta,
        );
        assert_eq!(dst, expected);

        // the same matrix, row-major.
        let rows = [1i64, 2, 3, 4, 5, 6];
        let mut dst = [7i64, 8, 9];
        mixed_gemv_rowmajor(
            Scalar, 3, 1, 2, &mut dst, at(0, 3, 1), &rows, at(0, 1, 2), &rhs, at(0, 2, 1), alpha,
            beta,
        );
        assert_eq!(dst, expected);

        let mut dst = [7i64, 8, 9];
        gemv(
            Scalar, 3, 1, 2, &mut dst, at(0, 3, 1), &rows, at(0, 1, 2), &rhs, at(0, 2, 1), alpha,
            beta, |a: i64, b: i64, c: i64| a * b + c,
        );
        assert_eq!(dst, expected);
    }
}

#[test]
fn empty_depth_only_scales() {
    for (alpha, expected) in [(0i64, [0i64, 0]), (1, [5, -6]), (3, [15, -18])] {
        let mut dst = [5i64, -6];
        let none: [i64; 0] = [];
        mixed_gemv_colmajor(
            Scalar, 2, 1, 0, &mut dst, at(0, 2, 1), &none, at(0, 2, 1), &none, at(0, 0, 1), alpha,
            9,
        );
        assert_eq!(dst, expected);

        let mut dst = [5i64, -6];
        mixed_gemv_rowmajor(
            Scalar, 2, 1, 0, &mut dst, at(0, 2, 1), &none, at(0, 1, 0), &none, at(0, 0, 1), alpha,
            9,
        );
        assert_eq!(dst, expected);
    }

    let mut nothing: [i64; 0] = [];
    mixed_gemv_colmajor(
        Scalar, 0, 1, 3, &mut nothing, at(0, 0, 1), &[], at(0, 0, 1), &[1, 2, 3], at(0, 3, 1), 1,
        1,
    );
}

#[test]
fn sums_wrap() {
    let mut dst = [i64::MAX];
    mixed_gemv_rowmajor(
        Scalar, 1, 1, 1, &mut dst, at(0, 1, 1), &[1i64], at(0, 1, 1), &[1i64], at(0, 1, 1), 1, 1,
    );
    assert_eq!(dst, [i64::MIN]);
    assert_eq!(<i64 as Element>::zero(), 0);
    assert_eq!(<i64 as Element>::one(), 1);
    assert!(Element::is_zero(&0i64) && !Element::is_zero(&1i64));
    assert!(Element::is_one(&1i64) && !Element::is_one(&-1i64));
}

#[test]
fn several_columns_and_gaps() {
    // two output columns inside a larger slice, the second one first, with unused entries between.
    let mut dst = [100i64; 10];
    let lhs = [1i64, 2, 3, 4];
    let rhs = [1i64, 0, 0, 1];
    mixed_gemv_rowmajor(
        Scalar, 2, 2, 2, &mut dst, at(6, -5, 2), &lhs, at(0, 1, 2), &rhs, at(0, 2, 1), 0, 1,
    );
    assert_eq!(dst, [100, 2, 100, 4, 100, 100, 1, 100, 3, 100]);
}

fn reference(
    m: usize,
    k: usize,
    dst: &[i64],
    lhs: &[i32],
    rhs: &[i16],
    alpha: i64,
    beta: i64,
) -> Vec<i64> {
    (0..m)
        .map(|i| {
            let sum: i64 = (0..k).map(|d| lhs[i * k + d] as i64 * rhs[d] as i64).sum();
            alpha * dst[i] + beta * sum
        })
        .collect()
}

#[test]
fn lanes_and_threads_do_not_change_exact_products() {
    for &(m, k) in &[(0, 300), (1, 31), (3, 32), (7, 33), (9, 95), (40, 700), (129, 1024)] {
        let rows: Vec<i32> = numbers(m * k, 3).iter().map(|&x| x as i32).collect();
        let cols: Vec<i32> =
            (0..m * k).map(|p| rows[(p % Ord::max(m, 1)) * k + p / Ord::max(m, 1)]).collect();
        let rhs: Vec<i16> = numbers(k, 11).iter().map(|&x| x as i16).collect();
        let init = numbers(m, 29);
        for alpha in [0, 1, -3] {
            for beta in [0, 1, 5] {
                let want = reference(m, k, &init, &rows, &rhs, alpha, beta);
                let whole = at(0, m as isize, 1);
                let vector = at(0, k as isize, 1);
                let by_row = at(0, 1, k as isize);

                let mut dst = init.clone();
                mixed_gemv_rowmajor(
                    Four, m, 1, k, &mut dst, whole, &rows, by_row, &rhs, vector, alpha, beta,
                );
                assert_eq!(dst, want);
                let mut dst = init.clone();
                mixed_gemv_colmajor(
                    Four, m, 1, k, &mut dst, whole, &cols, whole, &rhs, vector, alpha, beta,
                );
                assert_eq!(dst, want);

                for n_threads in [0, 1, 2, 3, 8, 40] {
                    for (axis, lhs, lhs_at) in
                        [(SplitAxis::Rows, &rows, by_row), (SplitAxis::Depth, &cols, whole)]
                    {
                        let mut dst = init.clone();
                        gemv_on_threads(
                            axis, Four, m, 1, k, &mut dst, whole, lhs, lhs_at, &rhs, vector, alpha,
                            beta, n_threads,
                        );
                        assert_eq!(dst, want);
                        for parallelism in [Parallelism::Serial, Parallelism::Rayon(n_threads)] {
                            let mut dst = init.clone();
                            gemv_parallel(
                                axis, Four, m, 1, k, &mut dst, whole, lhs, lhs_at, &rhs, vector,
                                alpha, beta, parallelism, 1000,
                            );
                            assert_eq!(dst, want);
                        }
                    }
                }
            }
        }
    }
}

/// A scalar whose sums are rounded, so that their order shows.
#[derive(Clone, Copy, Debug, PartialEq)]
struct Odd(f64);

impl Element for Odd {
    fn zero() -> Odd {
        Odd(0.0)
    }

    fn one() -> Odd {
        Odd(1.0)
    }

    fn is_zero(&self) -> bool {
        self.0 == 0.0
    }

    fn is_one(&self) -> bool {
        self.0 == 1.0
    }

    fn plus(self, rhs: Odd) -> Odd {
        Odd(self.0 + rhs.0)
    }

    fn times(self, rhs: Odd) -> Odd {
        Odd(self.0 * rhs.0)
    }
}

fn rough(len: usize) -> Vec<Odd> {
    (0..len).map(|i| Odd(1.0 / (i as f64 + 1.5))).collect()
}

#[test]
fn rounding_follows_the_stated_order() {
    let k = 21;
    let (x, y) = (rough(k), rough(2 * k)[k..].to_vec());
    let (alpha, beta, init) = (0.3, 0.7, 0.1);

    // row-major: eight running sums, added pairwise, then what is left over.
    let mut part = [0.0f64; 8];
    for d in 0..16 {
        part[d % 8] = x[d].0 * y[d].0 + part[d % 8];
    }
    let mut sum = ((part[0] + part[1]) + (part[2] + part[3]))
        + ((part[4] + part[5]) + (part[6] + part[7]));
    for d in 16..k {
        sum = x[d].0 * y[d].0 + sum;
    }
    let mut dst = [Odd(init)];
    mixed_gemv_rowmajor(
        Scalar, 1, 1, k, &mut dst, at(0, 1, 1), &x, at(0, 1, k as isize), &y,
        at(0, k as isize, 1), Odd(alpha), Odd(beta),
    );
    assert_eq!(dst[0].0, sum * beta + init * alpha);

    // column-major: one depth after the other, `dst` weighed in the first.
    let mut value = x[0].0 * (beta * y[0].0) + alpha * init;
    for d in 1..k {
        value = x[d].0 * (beta * y[d].0) + value;
    }
    let mut dst = [Odd(init)];
    mixed_gemv_colmajor(
        Scalar, 1, 1, k, &mut dst, at(0, 1, 1), &x, at(0, 1, 1), &y, at(0, k as isize, 1),
        Odd(alpha), Odd(beta),
    );
    assert_eq!(dst[0].0, value);

    // generic: `dst` scaled first.
    let mut value = alpha * init;
    for d in 0..k {
        value = (beta * y[d].0).mul_add(x[d].0, value);
    }
    let mut dst = [Odd(init)];
    gemv(
        Scalar, 1, 1, k, &mut dst, at(0, 1, 1), &x, at(0, 1, 1), &y, at(0, k as isize, 1),
        Odd(alpha), Odd(beta), |a: Odd, b: Odd, c: Odd| Odd(a.0.mul_add(b.0, c.0)),
    );
    assert_eq!(dst[0].0, value);
}

#[test]
fn depth_slices_are_summed_left_to_right() {
    // one row, a depth of 600: four threads cut it into four slices of 150.
    let k = 600;
    let (x, y) = (rough(k), rough(2 * k)[k..].to_vec());
    let slice = |d0: usize, d1: usize| {
        let mut dst = [Odd(f64::NAN)];
        mixed_gemv_colmajor(
            Scalar, 1, 1, d1 - d0, &mut dst, at(0, 1, 1), &x[d0..d1], at(0, 1, 1), &y[d0..d1],
            at(0, 0, 1), Odd(0.0), Odd(1.0),
        );
        dst[0].0
    };
    let sum = (((0.0 + slice(0, 150)) + slice(150, 300)) + slice(300, 450)) + slice(450, 600);
    let mut dst = [Odd(0.1)];
    mixed_gemv_colmajor_parallel(
        Scalar, 1, 1, k, &mut dst, at(0, 1, 1), &x, at(0, 1, 1), &y, at(0, k as isize, 1),
        Odd(0.3), Odd(0.7), Parallelism::Rayon(4), 0,
    );
    assert_eq!(dst[0].0, sum * 0.7 + 0.1 * 0.3);

    // below the threshold it stays on one thread, and the serial kernel is run.
    let mut serial = [Odd(0.1)];
    mixed_gemv_colmajor(
        Scalar, 1, 1, k, &mut serial, at(0, 1, 1), &x, at(0, 1, 1), &y, at(0, k as isize, 1),
        Odd(0.3), Odd(0.7),
    );
    let mut dst = [Odd(0.1)];
    mixed_gemv_colmajor_parallel(
        Scalar, 1, 1, k, &mut dst, at(0, 1, 1), &x, at(0, 1, 1), &y, at(0, k as isize, 1),
        Odd(0.3), Odd(0.7), Parallelism::Rayon(4), 601,
    );
    assert_eq!(dst, serial);
}

#[test]
fn row_split_is_bit_identical() {
    let (m, n, k) = (500, 3, 40);
    let (lhs, rhs) = (rough(m * k), rough(k * n));
    let init = rough(m * n);
    let mut serial = init.clone();
    let whole = at(0, m as isize, 1);
    mixed_gemv_rowmajor(
        Scalar, m, n, k, &mut serial, whole, &lhs, at(0, 1, k as isize), &rhs,
        at(0, k as isize, 1), Odd(0.3), Odd(0.7),
    );
    for n_threads in [0, 1, 2, 3, 5, 64] {
        let mut dst = init.clone();
        mixed_gemv_rowmajor_parallel(
            Scalar, m, n, k, &mut dst, whole, &lhs, at(0, 1, k as isize), &rhs,
            at(0, k as isize, 1), Odd(0.3), Odd(0.7), Parallelism::Rayon(n_threads), 0,
        );
        assert_eq!(dst, serial);
    }
}

#[test]
fn partials_are_reduced() {
    // three scratch columns, two rows and padding in each.
    let partial = [1i64, 2, 99, 10, 20, 99, 100, 200, 99];
    let dst = [5i64, 0, 7];
    let at = at(0, 3, 2);
    let r = reduce_partials::<i64, i64, i64, i64, Scalar>(
        Scalar, 0, 2, &dst, at, &partial, 3, 3, 2, 3,
    );
    assert_eq!(r, vec![343, 680]);
    let r = reduce_partials::<i64, i64, i64, i64, Scalar>(
        Scalar, 1, 2, &dst, at, &partial, 3, 3, 0, 1,
    );
    assert_eq!(r, vec![222]);
    let r = reduce_partials::<i64, i64, i64, i64, Scalar>(
        Scalar, 1, 1, &dst, at, &partial, 3, 3, 0, 1,
    );
    assert!(r.is_empty());
    // no rows the other way round either, whatever the slices hold.
    let r = reduce_partials::<i64, i64, i64, i64, Scalar>(Scalar, 5, 1, &[], at, &[], 3, 3, 0, 1);
    assert!(r.is_empty());
    // rows past the stride reach into the next scratch column.
    let r = reduce_partials::<i64, i64, i64, i64, Scalar>(
        Scalar, 1, 2, &dst, at, &partial, 1, 3, 0, 1,
    );
    assert_eq!(r, vec![2 + 99 + 10]);
    // no scratch column at all leaves the scaled entry.
    let r = reduce_partials::<i64, i64, i64, i64, Scalar>(Scalar, 0, 2, &dst, at, &[], 3, 0, 2, 3);
    assert_eq!(r, vec![10, 14]);
}

#[test]
fn closures_need_not_be_total() {
    // fails on anything but what this product hands to it.
    let fused = |a: i64, b: i64, c: i64| {
        assert!(matches!((a, b, c), (20, 3, 14) | (200, 4, 74)));
        a * b + c
    };
    let mut dst = [7i64];
    gemv(
        Scalar, 1, 1, 2, &mut dst, at(0, 1, 1), &[3i64, 4], at(0, 1, 1), &[10i64, 100],
        at(0, 2, 1), 2, 2, fused,
    );
    assert_eq!(dst, [874]);
}

#[test]
fn impossible_plans_are_refused() {
    assert!(plan_is_possible::<i64>(SplitAxis::Depth, 1, 2, 8, 1, 4096));
    assert!(plan_is_possible::<()>(SplitAxis::Depth, 1, 2, 8, 1, 4096));
    // more rows than can be rounded up to whole cache lines; one thread does not round.
    assert!(!plan_is_possible::<i64>(SplitAxis::Rows, 1, 2, usize::MAX, 1, 1));
    assert!(plan_is_possible::<i64>(SplitAxis::Rows, 1, 1, usize::MAX, 1, 1));
    // more scratch rows than can be counted, of elements that take no memory.
    let many = usize::MAX - 127;
    assert!(plan_is_possible::<()>(SplitAxis::Depth, 1, 2, many, 1, 1));
    assert!(!plan_is_possible::<()>(SplitAxis::Depth, 1, 2, many, 1, 4096));

    let mut none: [i64; 0] = [];
    for (parallelism, done) in [(Parallelism::Serial, true), (Parallelism::Rayon(4), false)] {
        let r = try_gemv_parallel(
            SplitAxis::Rows, Scalar, usize::MAX, 0, 0, &mut none, at(0, 1, 1), &[], at(0, 1, 1),
            &[], at(0, 1, 1), 1i64, 1i64, parallelism, 0,
        );
        assert_eq!(r, done);
    }

    let lhs = numbers(512, 2);
    let rhs = numbers(512, 3);
    let sum: i64 = lhs.iter().zip(&rhs).map(|(x, y)| x * y).sum();
    let mut dst = [7i64];
    assert!(try_gemv_parallel(
        SplitAxis::Depth, Scalar, 1, 1, 512, &mut dst, at(0, 1, 1), &lhs, at(0, 1, 1), &rhs,
        at(0, 512, 1), 1, 1, Parallelism::Rayon(4), 0,
    ));
    assert_eq!(dst, [7 + sum]);
}

#[test]
fn threads_follow_the_threshold() {
    assert_eq!(threads_for(Parallelism::Serial, 0, 100, 1, 100), 1);
    assert_eq!(threads_for(Parallelism::Rayon(6), 10000, 100, 1, 100), 6);
    assert_eq!(threads_for(Parallelism::Rayon(6), 10001, 100, 1, 100), 1);
    assert_eq!(threads_for(Parallelism::Rayon(6), usize::MAX, usize::MAX, 2, 3), 6);
    assert!(threads_for(Parallelism::Rayon(0), 0, 1, 1, 1) > 0);
}

#[test]
fn a_task_is_a_product_of_its_own() {
    // rows 1.. and depths 1.. of a 3 by 3 column-major product, by moved strides.
    let lhs = numbers(9, 5);
    let rhs = numbers(3, 8);
    let mut whole = [0i64; 3];
    mixed_gemv_colmajor(
        Scalar, 3, 1, 2, &mut whole, at(0, 3, 1), &lhs, at(3, 3, 1), &rhs, at(1, 3, 1), 0, 1,
    );
    let mut part = [0i64; 3];
    mixed_gemv_colmajor(
        Scalar, 2, 1, 2, &mut part, at(1, 3, 1), &lhs, at(4, 3, 1), &rhs, at(1, 3, 1), 0, 1,
    );
    assert_eq!(part, [0, whole[1], whole[2]]);
}

#[test]
fn strides_reach_every_entry() {
    let back = at(5, -2, -1);
    assert_eq!(back.index(0, 0), 5);
    assert_eq!(back.index(1, 2), 0);
    let s = [10, 11, 12, 13, 14, 15];
    assert_eq!(gather(&s, back, 0, 2, 1), vec![13, 12]);
    let mut s = s;
    scatter(&mut s, back, 1, 0, &[77]);
    assert_eq!(s, [10, 11, 12, 13, 77, 15]);
}

#[test]
fn vectorize_runs_the_closure() {
    assert_eq!(Scalar.vectorize(|| 6 * 7), 42);
}
