use core::any::TypeId;
use gemm_common::element::Element;
use gemm_common::gemv::mixed_gemv_rowmajor;
use gemm_common::packed_cache::{
    self, Key, PackedCache, Panel, Settings, MAX_ENTRIES, MAX_PROBES,
};
use gemm_common::parallel::{
    mixed_gemv_colmajor_parallel, mixed_gemv_rowmajor_parallel, Parallelism,
};
use gemm_common::simd::Scalar;
use gemm_common::strides::Strides;
use std::cell::RefCell;

#[derive(Clone, Copy, Debug, PartialEq)]
struct F32(f32);

impl Element for F32 {
    fn zero() -> F32 {
        F32(0.0)
    }

    fn one() -> F32 {
        F32(1.0)
    }

    fn is_zero(&self) -> bool {
        self.0 == 0.0
    }

    fn is_one(&self) -> bool {
        self.0 == 1.0
    }

    fn plus(self, rhs: F32) -> F32 {
        F32(self.0 + rhs.0)
    }

    fn times(self, rhs: F32) -> F32 {
        F32(self.0 * rhs.0)
    }
}

type Buffer = RefCell<Vec<F32>>;

fn bytes_of(s: &[F32]) -> Vec<u8> {
    s.iter().flat_map(|x| x.0.to_ne_bytes()).collect()
}

/// `dst = lhs * rhs`, with a column-major dst and a column-major rhs. An lhs with a panel is packed
/// into it, row after row, and read from there.
fn matmul_f32(
    settings: &Settings,
    cache: &mut PackedCache<Buffer>,
    m: usize,
    n: usize,
    k: usize,
    (lhs_rs, lhs_cs): (isize, isize),
    lhs: &[F32],
    lhs_bytes: &[u8],
    rhs: &[F32],
    parallelism: Parallelism,
) -> Vec<F32> {
    let mut dst = vec![F32(0.0); m * n];
    let dst_at = Strides { base: 0, cs: m as isize, rs: 1 };
    let lhs_at = Strides { base: 0, cs: lhs_cs, rs: lhs_rs };
    let rhs_at = Strides { base: 0, cs: k as isize, rs: 1 };
    let packed_at = Strides { base: 0, cs: 1, rs: k as isize };

    let panel: Option<Panel<Buffer>> = packed_cache::get(
        settings,
        cache,
        TypeId::of::<f32>(),
        lhs.as_ptr() as usize,
        lhs_bytes,
        4,
        lhs_at,
        m,
        k,
        k,
        1,
        m * k * 4,
        128,
        |bytes, _| Some(RefCell::new(vec![F32(f32::NAN); bytes / 4])),
    );
    match panel {
        Some(panel) => {
            if !panel.filled {
                let mut packed = panel.ptr.borrow_mut();
                for i in 0..m {
                    for d in 0..k {
                        packed[i * k + d] =
                            lhs[(i as isize * lhs_rs + d as isize * lhs_cs) as usize];
                    }
                }
                panel.mark_filled(cache);
            }
            let packed = panel.ptr.borrow();
            mixed_gemv_rowmajor_parallel(
                Scalar, m, n, k, &mut dst, dst_at, &packed, packed_at, rhs, rhs_at, F32(0.0),
                F32(1.0), parallelism, 48 * 48 * 256,
            );
        }
        None if lhs_cs == 1 => mixed_gemv_rowmajor_parallel(
            Scalar, m, n, k, &mut dst, dst_at, lhs, lhs_at, rhs, rhs_at, F32(0.0), F32(1.0),
            parallelism, 48 * 48 * 256,
        ),
        None => mixed_gemv_colmajor_parallel(
            Scalar, m, n, k, &mut dst, dst_at, lhs, lhs_at, rhs, rhs_at, F32(0.0), F32(1.0),
            parallelism, 48 * 48 * 256,
        ),
    }
    dst
}

/// A cached lhs panel must give the same answer as packing per call.
#[test]
fn test_packed_lhs_cache_hit_matches_miss() {
    let mut settings = Settings::none();
    let mut cache: PackedCache<Buffer> = PackedCache::new();

    // (m, n, k, row_major_lhs). The row-major cases cover the widened path: uncached,
    // a row-contiguous lhs is read in place rather than packed.
    let cases = [
        (64, 16, 128, false),
        (96, 33, 100, false), // m not a multiple of MR, ragged n
        (37, 5, 71, false),
        (512, 16, 384, true),
        (1536, 16, 512, true), // m > 2 * mc, so never prepacked before
        (512, 128, 300, true), // several column chunks
    ];

    for (m, n, k, row_major) in cases {
        let strides = if row_major { (k as isize, 1) } else { (1, m as isize) };
        let lhs: Vec<F32> =
            (0..m * k).map(|i| F32(((i * 37 % 101) as f32) / 101.0 - 0.5)).collect();
        let rhs: Vec<F32> =
            (0..k * n).map(|i| F32(((i * 53 % 97) as f32) / 97.0 - 0.5)).collect();
        let bytes = bytes_of(&lhs);

        packed_cache::set_enabled(&mut settings, false);
        let want = matmul_f32(
            &settings, &mut cache, m, n, k, strides, &lhs, &bytes, &rhs, Parallelism::Serial,
        );

        packed_cache::set_enabled(&mut settings, true);
        packed_cache::set_budget_mb(&mut settings, 1024);
        packed_cache::clear(&mut cache);
        // Three rounds: the probe, the call that packs, then the calls that hit.
        for round in 0..3 {
            for parallelism in [Parallelism::Serial, Parallelism::Rayon(0)] {
                let got = matmul_f32(
                    &settings, &mut cache, m, n, k, strides, &lhs, &bytes, &rhs, parallelism,
                );
                let worst = got
                    .iter()
                    .zip(&want)
                    .map(|(a, b)| (a.0 - b.0).abs())
                    .fold(0f32, f32::max);
                assert!(
                    worst < 1e-4,
                    "{m}x{k} * {k}x{n} row_major={row_major} round={round} \
                     {parallelism:?}: max error {worst}"
                );
            }
        }
        assert!(packed_cache::stats(&cache).1 > 0, "the cached path was never taken");
    }

    packed_cache::clear(&mut cache);
    packed_cache::set_enabled(&mut settings, false);
    assert_eq!(packed_cache::stats(&cache), (0, 0));
    assert!(!packed_cache::enabled(&settings));
}

fn on(budget: usize) -> Settings {
    Settings { enabled: true, budget }
}

fn key(ptr: usize, bytes: usize) -> Key {
    Key {
        type_id: TypeId::of::<u8>(),
        ptr,
        m: 4,
        k: 4,
        lhs_rs: 4,
        lhs_cs: 1,
        kc: 4,
        mr: 2,
        bytes,
        fingerprint: 7,
    }
}

fn lookup(settings: &Settings, cache: &mut PackedCache<usize>, key: Key) -> Option<Panel<usize>> {
    packed_cache::lookup(settings, cache, key, 64, |bytes, align| {
        assert_eq!((bytes, align), (key.bytes, 64));
        Some(key.ptr)
    })
}

#[test]
fn settings_are_read() {
    let read = Settings::read(Some("1"), Some("3"));
    assert!(read.enabled);
    assert_eq!(read.budget, 3 << 20);

    for off in [None, Some(""), Some("0"), Some("11"), Some("true"), Some(" 1")] {
        assert!(!Settings::read(off, None).enabled);
    }
    assert_eq!(Settings::read(None, None).budget, 256 << 20);
    assert_eq!(packed_cache::budget_bytes(Some("+8")), 8 << 20);
    assert_eq!(packed_cache::budget_bytes(Some("008")), 8 << 20);
    assert_eq!(packed_cache::budget_bytes(Some("0")), 0);
    assert_eq!(packed_cache::budget_bytes(Some("18446744073709551615")), usize::MAX);
    for bad in ["", "+", "-1", "8 ", "1_0", "8.0", "x", "99999999999999999999999"] {
        assert_eq!(packed_cache::budget_bytes(Some(bad)), 256 << 20, "{bad}");
    }

    let none = Settings::none();
    assert!(!none.enabled);
    assert_eq!(none.budget, 0);

    let mut settings = Settings::none();
    packed_cache::set_budget_mb(&mut settings, usize::MAX);
    assert_eq!(settings.budget, usize::MAX);
    assert!(!packed_cache::enabled(&settings));
    packed_cache::set_enabled(&mut settings, true);
    assert!(packed_cache::enabled(&settings));
    assert_eq!(settings.budget, usize::MAX);
}

#[test]
fn probe_then_panel_then_hit() {
    let settings = on(1000);
    let mut cache: PackedCache<usize> = PackedCache::new();
    let a = key(16, 100);

    assert!(lookup(&settings, &mut cache, a).is_none());
    assert_eq!(packed_cache::probe_count(&cache), 1);
    assert_eq!(packed_cache::stats(&cache), (0, 0));

    let panel = lookup(&settings, &mut cache, a).unwrap();
    assert_eq!((*panel.ptr, panel.filled), (16, false));
    assert_eq!(packed_cache::probe_count(&cache), 0);
    assert_eq!(packed_cache::stats(&cache), (100, 1));

    // an unfinished panel is not mistaken for a complete one.
    assert!(!lookup(&settings, &mut cache, a).unwrap().filled);

    panel.mark_filled(&mut cache);
    let hit = lookup(&settings, &mut cache, a).unwrap();
    assert_eq!((*hit.ptr, hit.filled), (16, true));
    assert_eq!(packed_cache::stats(&cache), (100, 1));

    // a panel whose entry is gone marks nothing.
    packed_cache::clear(&mut cache);
    panel.mark_filled(&mut cache);
    assert_eq!(packed_cache::stats(&cache), (0, 0));
    assert!(lookup(&settings, &mut cache, a).is_none());
}

#[test]
fn every_parameter_is_part_of_the_key() {
    let settings = on(1000);
    let a = key(16, 100);
    let mut others = vec![a; 10];
    others[0].type_id = TypeId::of::<f32>();
    others[1].ptr = 17;
    others[2].m = 5;
    others[3].k = 5;
    others[4].lhs_rs = -4;
    others[5].lhs_cs = 2;
    others[6].kc = 2;
    others[7].mr = 4;
    others[8].bytes = 101;
    others[9].fingerprint = 8;
    assert!(a.same(&a));
    for other in others {
        assert!(!a.same(&other));
        let mut cache: PackedCache<usize> = PackedCache::new();
        assert!(lookup(&settings, &mut cache, a).is_none());
        assert!(lookup(&settings, &mut cache, other).is_none());
        assert_eq!(packed_cache::probe_count(&cache), 2);
        assert!(lookup(&settings, &mut cache, a).is_some());
        assert!(lookup(&settings, &mut cache, other).is_some());
    }
}

#[test]
fn budget_and_allocator_can_refuse() {
    let mut cache: PackedCache<usize> = PackedCache::new();
    let a = key(16, 100);
    let b = key(32, 60);
    for k in [a, b] {
        assert!(lookup(&on(150), &mut cache, k).is_none());
    }
    assert!(lookup(&on(99), &mut cache, a).is_none());
    assert!(lookup(&on(100), &mut cache, a).is_some());
    assert!(lookup(&on(159), &mut cache, b).is_none());
    assert_eq!(packed_cache::stats(&cache), (100, 1));
    assert_eq!(packed_cache::probe_count(&cache), 1);

    // nothing is accounted for where the allocator has nothing to give.
    let refused = packed_cache::lookup(&on(160), &mut cache, b, 64, |_, _| None);
    assert!(refused.is_none());
    assert_eq!(packed_cache::stats(&cache), (100, 1));

    // three is no alignment, so the allocator is not even asked; zero stands for one.
    let odd = packed_cache::lookup(&on(160), &mut cache, b, 3, |_, _| panic!("asked"));
    assert!(odd.is_none());
    let byte = packed_cache::lookup(&on(160), &mut cache, b, 0, |bytes, align| {
        assert_eq!((bytes, align), (60, 1));
        Some(5)
    });
    assert_eq!(*byte.unwrap().ptr, 5);
    assert_eq!(packed_cache::stats(&cache), (160, 2));

    // a size that no allocation can have.
    let huge = key(48, usize::MAX);
    assert!(lookup(&on(usize::MAX), &mut cache, huge).is_none());
    assert!(lookup(&on(usize::MAX), &mut cache, huge).is_none());
    assert_eq!(packed_cache::stats(&cache), (160, 2));

    // a panel keeps answering once the budget is lowered.
    assert!(lookup(&on(0), &mut cache, a).is_some());
}

#[test]
fn probes_leave_oldest_first() {
    let settings = on(usize::MAX);
    let mut cache: PackedCache<usize> = PackedCache::new();
    let first = key(1, 1);
    assert!(lookup(&settings, &mut cache, first).is_none());
    for ptr in 2..=MAX_PROBES {
        assert!(lookup(&settings, &mut cache, key(ptr, 1)).is_none());
    }
    assert_eq!(packed_cache::probe_count(&cache), MAX_PROBES);

    // one more drops the first, which then starts over and drops the second.
    assert!(lookup(&settings, &mut cache, key(1000, 1)).is_none());
    assert_eq!(packed_cache::probe_count(&cache), MAX_PROBES);
    assert!(lookup(&settings, &mut cache, key(2, 1)).is_some());
    assert!(lookup(&settings, &mut cache, first).is_none());
    assert!(lookup(&settings, &mut cache, first).is_some());
    assert!(lookup(&settings, &mut cache, key(3, 1)).is_some());

    // panels do not count as probes, and stay.
    for ptr in 2000..3000 {
        assert!(lookup(&settings, &mut cache, key(ptr, 1)).is_none());
    }
    assert_eq!(packed_cache::probe_count(&cache), MAX_PROBES);
    assert!(lookup(&settings, &mut cache, first).is_some());
    assert_eq!(packed_cache::stats(&cache), (3, 3));
}

#[test]
fn panels_are_capped() {
    let settings = on(usize::MAX);
    let mut cache: PackedCache<usize> = PackedCache::new();
    for ptr in 1..=MAX_ENTRIES {
        assert!(lookup(&settings, &mut cache, key(ptr, 2)).is_none());
        assert!(lookup(&settings, &mut cache, key(ptr, 2)).is_some());
    }
    assert_eq!(packed_cache::stats(&cache), (2 * MAX_ENTRIES, MAX_ENTRIES));
    let late = key(5000, 2);
    assert!(lookup(&settings, &mut cache, late).is_none());
    assert!(lookup(&settings, &mut cache, late).is_none());
    assert_eq!(packed_cache::panel_count(&cache), MAX_ENTRIES);
}

#[test]
fn samples_are_spread_over_the_operand() {
    let rows: Vec<(usize, usize)> = (0..8).map(|step| packed_cache::sample(step, 16, 3)).collect();
    assert_eq!(
        rows,
        vec![(0, 0), (2, 0), (4, 0), (6, 1), (8, 1), (10, 1), (12, 2), (14, 2)],
    );
    assert_eq!(packed_cache::sample(7, 1, 1), (0, 0));
    assert_eq!(packed_cache::sample(7, usize::MAX, 8).0, usize::MAX / 8 * 7 + 6);
}

#[test]
fn fingerprint_is_position_dependent() {
    // no bytes: only the shape is hashed.
    assert_eq!(packed_cache::fingerprint_of(2, 3, &[]), 0xcbf2_9ce4_8422_2325 ^ (2 << 32) ^ 3);
    // one byte: exclusive or, then the prime.
    assert_eq!(
        packed_cache::fingerprint_of(0, 0, &[0x61]),
        (0xcbf2_9ce4_8422_2325u64 ^ 0x61).wrapping_mul(0x100_0000_01b3),
    );
    assert_eq!(packed_cache::fingerprint_of(0, 0, b"a"), 0xaf63_dc4c_8601_ec8c);
    assert_eq!(packed_cache::fingerprint_of(0, 0, b"foobar"), 0x8594_4171_f739_67e8);
    assert_ne!(
        packed_cache::fingerprint_of(0, 0, b"ab"),
        packed_cache::fingerprint_of(0, 0, b"ba"),
    );

    // an 8 by 8 operand of bytes is sampled along its diagonal.
    let at = Strides { base: 0, cs: 1, rs: 8 };
    let operand: Vec<u8> = (0..64).collect();
    let diagonal: Vec<u8> = (0..8).map(|i| i * 9).collect();
    let print = packed_cache::fingerprint(&operand, 1, at, 8, 8);
    assert_eq!(print, packed_cache::fingerprint_of(8, 8, &diagonal));
    for i in 0..64usize {
        let mut changed = operand.clone();
        changed[i] ^= 0x80;
        let other = packed_cache::fingerprint(&changed, 1, at, 8, 8);
        assert_eq!(other != print, i % 9 == 0);
    }

    // backwards rows of two-byte elements.
    let back = Strides { base: 24, cs: 1, rs: -8 };
    let words: Vec<u8> = (0..64).collect();
    let sampled: Vec<u8> = (0..8usize)
        .flat_map(|s| {
            let p = 24 - 8 * (s * 4 / 8) + s;
            [2 * p as u8, 2 * p as u8 + 1]
        })
        .collect();
    assert_eq!(
        packed_cache::fingerprint(&words, 2, back, 4, 8),
        packed_cache::fingerprint_of(4, 8, &sampled),
    );
}

#[test]
fn unsuitable_operands_are_left_alone() {
    let mut cache: PackedCache<usize> = PackedCache::new();
    let at = Strides { base: 0, cs: 2, rs: 1 };
    let lhs = [1u8, 2, 3, 4];
    let mut get = |settings: &Settings, ptr: usize, m: usize, k: usize, bytes: usize| {
        packed_cache::get(
            settings,
            &mut cache,
            TypeId::of::<u8>(),
            ptr,
            &lhs,
            1,
            at,
            m,
            k,
            2,
            2,
            bytes,
            64,
            |_, _| Some(9),
        )
        .is_some()
    };
    for _ in 0..3 {
        assert!(!get(&Settings { enabled: false, budget: 100 }, 8, 2, 2, 4));
        assert!(!get(&on(100), 0, 2, 2, 4));
        assert!(!get(&on(100), 8, 0, 2, 4));
        assert!(!get(&on(100), 8, 2, 0, 4));
        assert!(!get(&on(100), 8, 2, 2, 0));
    }
    assert!(!get(&on(100), 8, 2, 2, 4));
    assert!(get(&on(100), 8, 2, 2, 4));
    assert_eq!(packed_cache::stats(&cache), (4, 1));
    assert!(packed_cache::suitable(&on(0), 8, 2, 2, 4));
    assert!(!packed_cache::suitable(&on(0), 8, 2, 2, 0));
}

#[test]
fn changed_contents_miss() {
    let mut cache: PackedCache<usize> = PackedCache::new();
    let at = Strides { base: 0, cs: 2, rs: 1 };
    let mut look = |lhs: &[u8]| {
        packed_cache::get(
            &on(100),
            &mut cache,
            TypeId::of::<u8>(),
            8,
            lhs,
            1,
            at,
            2,
            2,
            2,
            2,
            4,
            64,
            |_, _| Some(9),
        )
        .is_some()
    };
    assert!(!look(&[1, 2, 3, 4]));
    assert!(look(&[1, 2, 3, 4]));
    assert!(!look(&[1, 2, 3, 5]));
    assert!(look(&[1, 2, 3, 4]));
}

#[test]
fn settling_takes_what_is_offered() {
    let settings = on(100);
    let mut cache: PackedCache<usize> = PackedCache::new();
    let a = key(16, 10);
    assert!(!packed_cache::wants_buffer(&settings, &cache, &a, 64));
    assert!(packed_cache::settle(&settings, &mut cache, a, 64, Some(1)).is_none());
    assert!(packed_cache::wants_buffer(&settings, &cache, &a, 64));
    assert!(packed_cache::settle(&settings, &mut cache, a, 64, None).is_none());
    let panel = packed_cache::settle(&settings, &mut cache, a, 64, Some(2)).unwrap();
    assert_eq!(*panel.ptr, 2);
    assert!(!packed_cache::wants_buffer(&settings, &cache, &a, 64));
    let again = packed_cache::settle(&settings, &mut cache, a, 64, Some(3)).unwrap();
    assert_eq!(*again.ptr, 2);
}

#[test]
fn samples_can_be_read_beforehand() {
    let mut cache: PackedCache<usize> = PackedCache::new();
    let at = Strides { base: 0, cs: 2, rs: 1 };
    let lhs = [1u8, 2, 3, 4];
    let samples = packed_cache::sample_bytes(&lhs, 1, at, 2, 2);
    assert_eq!(samples, vec![1, 1, 1, 1, 4, 4, 4, 4]);
    let by_samples = |cache: &mut PackedCache<usize>, settings: &Settings| {
        packed_cache::get_sampled(
            settings,
            cache,
            TypeId::of::<u8>(),
            8,
            &samples,
            2,
            2,
            1,
            2,
            2,
            2,
            4,
            64,
            |_, _| Some(9),
        )
        .is_some()
    };
    assert!(!by_samples(&mut cache, &Settings { enabled: false, budget: 100 }));
    assert_eq!(packed_cache::probe_count(&cache), 0);
    assert!(!by_samples(&mut cache, &on(100)));
    // the operand itself is known by then.
    let hit = packed_cache::get(
        &on(100),
        &mut cache,
        TypeId::of::<u8>(),
        8,
        &lhs,
        1,
        at,
        2,
        2,
        2,
        2,
        4,
        64,
        |_, _| Some(9),
    );
    assert!(hit.is_some());
    assert!(by_samples(&mut cache, &on(100)));
}

#[test]
fn stats_count_what_was_answered() {
    let mut cache: PackedCache<usize> = PackedCache::new();
    let mut answered: Vec<usize> = Vec::new();
    let mut before = (0, 0);
    for step in 0..500usize {
        let ptr = 1 + step * step % 37;
        let budget = if step % 3 == 0 { 200 } else { 90 };
        let panel = lookup(&on(budget), &mut cache, key(ptr, ptr));
        if let Some(panel) = panel {
            if step % 2 == 0 {
                panel.mark_filled(&mut cache);
            }
            if !answered.contains(&ptr) {
                answered.push(ptr);
            }
        }
        let stats = packed_cache::stats(&cache);
        assert_eq!(stats, (answered.iter().sum(), answered.len()));
        assert!(stats.0 <= 200 && stats.0 >= before.0 && stats.1 >= before.1);
        before = stats;
    }
    assert!(before.1 > 0);
}
