use gemm_common::element::Element;
use gemm_common::gemv::{mixed_gemv_colmajor, mixed_gemv_rowmajor};
use gemm_common::parallel::{
    mixed_gemv_colmajor_parallel, mixed_gemv_rowmajor_parallel, Parallelism,
};
use gemm_common::simd::Scalar;
use gemm_common::strides::Strides;

#[derive(Clone, Copy, Debug, PartialEq)]
struct F32(f32);

impl Element for F32 {
    fn zero() -> F32 {
        F32(0.0)
    }

    fn one() -> F32 {
        F32(1.0)
    }

    fn is_zero(&self) -> bool {
        self.0 == 0.0
    }

    fn is_one(&self) -> bool {
        self.0 == 1.0
    }

    fn plus(self, rhs: F32) -> F32 {
        F32(self.0 + rhs.0)
    }

    fn times(self, rhs: F32) -> F32 {
        F32(self.0 * rhs.0)
    }
}

// deterministic data, so a failing case is reproducible.
struct Lcg(u64);

impl Lcg {
    fn next(&mut self) -> f32 {
        self.0 = self
            .0
            .wrapping_mul(6364136223846793005)
            .wrapping_add(1442695040888963407);
        ((self.0 >> 40) as f32) / ((1u64 << 24) as f32) - 0.5
    }
}

fn data(len: usize, seed: u64) -> Vec<F32> {
    let mut lcg = Lcg(seed);
    (0..len).map(|_| F32(lcg.next())).collect()
}

fn at(cs: usize, rs: usize) -> Strides {
    Strides { base: 0, cs: cs as isize, rs: rs as isize }
}

fn assert_close(actual: &[F32], expected: &[F32], what: &str) {
    assert_eq!(actual.len(), expected.len());
    for (i, (&a, &e)) in actual.iter().zip(expected.iter()).enumerate() {
        // the row split is bit-exact; the depth split reassociates the sum over k.
        let (a, e) = (a.0, e.0);
        let tol = 1e-4 * f32::max(1.0, e.abs());
        assert!((a - e).abs() <= tol, "{what}: mismatch at {i}: {a} vs {e}");
    }
}

// (m, k) covering: pure row split, m not a multiple of the chunk granularity, short m with long k
// (forces the depth split), and the degenerate m == 0 / k == 0 cases.
const SHAPES: &[(usize, usize)] = &[
    (0, 100),
    // m == 0 with a long depth: the depth split with a zero-sized scratch buffer.
    (0, 4096),
    (100, 0),
    (1, 4096),
    (5, 1000),
    (33, 4096),
    (64, 4096),
    (63, 517),
    (1000, 65),
    (1024, 64),
    (2048, 512),
];

const N_THREADS: &[usize] = &[1, 2, 3, 5, 8, 16, 128];
const ALPHAS: &[f32] = &[0.0, 1.0, 2.5];
const BETAS: &[f32] = &[0.0, 1.0, 2.5];

#[test]
fn gemv_colmajor_parallel_matches_serial() {
    for &(m, k) in SHAPES {
        // lhs is colmajor (rs == 1), dst is colmajor (rs == 1).
        let lhs = data(m * k, 0x1234);
        let rhs = data(k, 0x5678);
        let dst_init = data(m, 0x9abc);

        for &alpha in ALPHAS {
            for &beta in BETAS {
                let mut expected = dst_init.clone();
                mixed_gemv_colmajor(
                    Scalar,
                    m,
                    1,
                    k,
                    &mut expected,
                    at(m, 1),
                    &lhs,
                    at(m, 1),
                    &rhs,
                    at(k, 1),
                    F32(alpha),
                    F32(beta),
                );

                for &n_threads in N_THREADS {
                    let mut actual = dst_init.clone();
                    mixed_gemv_colmajor_parallel(
                        Scalar,
                        m,
                        1,
                        k,
                        &mut actual,
                        at(m, 1),
                        &lhs,
                        at(m, 1),
                        &rhs,
                        at(k, 1),
                        F32(alpha),
                        F32(beta),
                        Parallelism::Rayon(n_threads),
                        0,
                    );

                    assert_close(
                        &actual,
                        &expected,
                        &format!(
                            "colmajor m={m} k={k} alpha={alpha} beta={beta} threads={n_threads}"
                        ),
                    );
                }
            }
        }
    }
}

#[test]
fn gemv_rowmajor_parallel_matches_serial() {
    for &(m, k) in SHAPES {
        // lhs is rowmajor (cs == 1), rhs is colmajor (rs == 1).
        let lhs = data(m * k, 0x1234);
        let rhs = data(k, 0x5678);

        // also cover a strided dst, which the rowmajor kernel allows.
        for &dst_rs in &[1usize, 3] {
            let dst_init = data(m * dst_rs, 0x9abc);

            for &alpha in ALPHAS {
                for &beta in BETAS {
                    let mut expected = dst_init.clone();
                    mixed_gemv_rowmajor(
                        Scalar,
                        m,
                        1,
                        k,
                        &mut expected,
                        at(m * dst_rs, dst_rs),
                        &lhs,
                        at(1, k),
                        &rhs,
                        at(k, 1),
                        F32(alpha),
                        F32(beta),
                    );

                    for &n_threads in N_THREADS {
                        let mut actual = dst_init.clone();
                        mixed_gemv_rowmajor_parallel(
                            Scalar,
                            m,
                            1,
                            k,
                            &mut actual,
                            at(m * dst_rs, dst_rs),
                            &lhs,
                            at(1, k),
                            &rhs,
                            at(k, 1),
                            F32(alpha),
                            F32(beta),
                            Parallelism::Rayon(n_threads),
                            0,
                        );

                        assert_close(
                            &actual,
                            &expected,
                            &format!(
                                "rowmajor m={m} k={k} dst_rs={dst_rs} alpha={alpha} beta={beta} threads={n_threads}"
                            ),
                        );
                    }
                }
            }
        }
    }
}
