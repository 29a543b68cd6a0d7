//! A per-thread cache of packed left-hand-side panels, keyed on the operand itself.
//!
//! # Why
//!
//! Packing a left-hand side into a kernel-friendly layout costs time proportional to the operand,
//! however many output columns it is then used for. That is wasted when the operand is a weight,
//! which does not change from call to call, so its panel is kept.
//!
//! # What it assumes
//!
//! The bytes behind a given address do not change while the process runs. That holds of weights
//! that are loaded once and then only read; it does not hold where a matrix is changed in place,
//! so caching is off unless it is asked for.
//!
//! Two things guard against a wrong hit: the key holds a fingerprint sampled from the operand, so
//! that an address freed and reused for other contents misses, and it holds every parameter that
//! the packed layout depends on.
//!
//! Panels are never evicted, so the cache converges on one packed copy of each weight. A budget
//! bounds the total; past it, callers pack per call.
//!
//! # Telling a weight from an activation
//!
//! An operand is not cached the first time it is seen. The first sighting records a probe: the key
//! only, no allocation. A panel is allocated on the second sighting of the same key, which for a
//! weight is the next call and for an activation never comes, since its fingerprint moves. Probes
//! are capped and evicted oldest first, so a stream of operands that never repeat costs a bounded
//! ring of keys and nothing else.
use crate::strides::Strides;
use crate::tasks::{min_int, saturating_mul};
use core::any::TypeId;
use std::rc::Rc;
use vstd::layout::valid_layout;
use vstd::prelude::*;

verus! {

/// Distinct operands that one thread will hold panels for. A model has a few dozen weights; well
/// past that, the operand is evidently not a weight.
pub const MAX_ENTRIES: usize = 256;

/// Keys held awaiting a second sighting: enough that a weight's probe survives the other operands
/// of one step, few enough that operands that never repeat cost little.
pub const MAX_PROBES: usize = 128;

/// The budget in megabytes where none is given.
pub const DEFAULT_BUDGET_MB: usize = 256;

/// Bytes in a megabyte.
pub const MEGABYTE: usize = 1048576;

/// Where the fingerprint of an empty operand would start.
pub const FINGERPRINT_SEED: u64 = 0xcbf2_9ce4_8422_2325;

/// What each step of a fingerprint multiplies by.
pub const FINGERPRINT_PRIME: u64 = 0x100_0000_01b3;

/// An identifier of a type, the same for two types exactly where they are one type.
#[verifier::external_type_specification]
#[verifier::external_body]
pub struct ExTypeId(TypeId);

/// Compares two `core::any::TypeId` with their `==`, which holds where they identify one type.
#[verifier::external_body]
fn same_type(a: &TypeId, b: &TypeId) -> (r: bool)
    ensures
        r == (*a == *b),
{
    *a == *b
}

/// A second handle on one value: `clone` of `std::rc::Rc`.
#[verifier::external_body]
fn share<B>(b: &Rc<B>) -> (r: Rc<B>)
    ensures
        r == *b,
{
    Rc::clone(b)
}

/// The number that a run of decimal digits writes.
pub open spec fn digits_value(s: Seq<char>) -> int
    decreases s.len(),
{
    if s.len() == 0 {
        0
    } else {
        digits_value(s.drop_last()) * 10 + (s.last() as int - '0' as int)
    }
}

/// The number that `s` writes: an optional plus sign, then one or more decimal digits and nothing
/// else, for a number that a `usize` can hold.
pub open spec fn number(s: Seq<char>) -> Option<usize> {
    let digits = if s.len() > 0 && s[0] == '+' {
        s.skip(1)
    } else {
        s
    };
    if digits.len() > 0 && (forall|i: int|
        0 <= i < digits.len() ==> '0' <= #[trigger] digits[i] && digits[i] <= '9')
        && digits_value(digits) <= usize::MAX {
        Some(digits_value(digits) as usize)
    } else {
        None
    }
}

/// Parses a number with `str::parse` for `usize`, which takes an optional plus sign and decimal
/// digits and refuses everything else, a number too large for a `usize` included.
#[verifier::external_body]
fn parse_usize(s: &str) -> (r: Option<usize>)
    ensures
        r == number(s@),
{
    s.parse::<usize>().ok()
}

/// Whether an allocation of `size` bytes on a boundary of `align` can be asked for at all:
/// `core::alloc::Layout::from_size_align` accepts it, which it does where `align` is a power of
/// two and `size`, rounded up to a multiple of it, is no more than `isize::MAX`.
#[verifier::external_body]
fn layout_exists(size: usize, align: usize) -> (r: bool)
    ensures
        r == valid_layout(size, align),
{
    core::alloc::Layout::from_size_align(size, align).is_ok()
}

/// What is set for the whole process.
#[derive(Clone, Copy, Debug)]
pub struct Settings {
    /// Whether operands are cached at all.
    pub enabled: bool,
    /// The most bytes that one thread's panels may take together.
    pub budget: usize,
}

/// The bytes that `mb` megabytes come to, or as many as a `usize` can count.
pub open spec fn megabytes(mb: int) -> int {
    min_int(mb * MEGABYTE, usize::MAX as int)
}

/// The bytes that the setting `mb` allows: the number that it writes, in megabytes, or
/// [`DEFAULT_BUDGET_MB`] where it is missing or writes none.
pub open spec fn budget_spec(mb: Option<Seq<char>>) -> int {
    match mb {
        Some(s) => match number(s) {
            Some(n) => megabytes(n as int),
            None => megabytes(DEFAULT_BUDGET_MB as int),
        },
        None => megabytes(DEFAULT_BUDGET_MB as int),
    }
}

/// The text of an optional setting.
pub open spec fn text(s: Option<&str>) -> Option<Seq<char>> {
    match s {
        Some(s) => Some(s@),
        None => None,
    }
}

/// The bytes that the setting `mb` allows one thread's panels.
pub fn budget_bytes(mb: Option<&str>) -> (r: usize)
    ensures
        r == budget_spec(text(mb)),
{
    let parsed: Option<usize> = match mb {
        Some(s) => parse_usize(s),
        None => None,
    };
    match parsed {
        Some(n) => saturating_mul(n, MEGABYTE),
        None => saturating_mul(DEFAULT_BUDGET_MB, MEGABYTE),
    }
}

impl Settings {
    /// What the settings of a process say: caching is on where `cache` is exactly `1`, and `mb` is
    /// the budget in megabytes.
    pub fn read(cache: Option<&str>, mb: Option<&str>) -> (r: Settings)
        ensures
            r.enabled == (text(cache) == Some(seq!['1'])),
            r.budget == budget_spec(text(mb)),
    {
        let enabled: bool = match cache {
            Some(s) => s.unicode_len() == 1 && s.get_char(0) == '1',
            None => false,
        };
        proof {
            if let Some(s) = cache {
                assert(s@.len() == 1 && s@[0] == '1' ==> s@ =~= seq!['1']);
            }
        }
        Settings { enabled, budget: budget_bytes(mb) }
    }

    /// The settings of a host where a process has none: no caching, and no room for it.
    pub fn none() -> (r: Settings)
        ensures
            !r.enabled,
            r.budget == 0,
    {
        Settings { enabled: false, budget: 0 }
    }
}

/// Whether caching is on.
pub fn enabled(settings: &Settings) -> (r: bool)
    ensures
        r == settings.enabled,
{
    settings.enabled
}

/// Switches caching on or off. The budget stays.
pub fn set_enabled(settings: &mut Settings, on: bool)
    ensures
        final(settings).enabled == on,
        final(settings).budget == old(settings).budget,
{
    settings.enabled = on;
}

/// Sets the budget, in megabytes. Caching stays on or off.
pub fn set_budget_mb(settings: &mut Settings, mb: usize)
    ensures
        final(settings).enabled == old(settings).enabled,
        final(settings).budget == megabytes(mb as int),
{
    settings.budget = saturating_mul(mb, MEGABYTE);
}

/// The row and the column of sample `step` out of eight, spread evenly over an `m` by `k` operand.
pub open spec fn sample_spec(step: int, m: int, k: int) -> (int, int) {
    (min_int(m - 1, step * m / 8), min_int(k - 1, step * k / 8))
}

/// The row and the column of sample `step` out of eight.
pub fn sample(step: usize, m: usize, k: usize) -> (r: (usize, usize))
    requires
        step < 8,
        m > 0,
        k > 0,
    ensures
        (r.0 as int, r.1 as int) == sample_spec(step as int, m as int, k as int),
        r.0 < m,
        r.1 < k,
        8 * r.0 <= step * m < 8 * r.0 + 8,
        8 * r.1 <= step * k < 8 * r.1 + 8,
{
    proof {
        law_samples_are_spread_evenly(step as int, m as int, k as int);
        assert(step * m / 8 <= m && step * k / 8 <= k && step * m >= 0 && step * k >= 0
            && step * m <= 8 * m && step * k <= 8 * k) by (nonlinear_arith)
            requires
                step < 8,
        ;
    }
    let i: usize = (step as u128 * m as u128 / 8) as usize;
    let j: usize = (step as u128 * k as u128 / 8) as usize;
    (
        if m - 1 <= i {
            m - 1
        } else {
            i
        },
        if k - 1 <= j {
            k - 1
        } else {
            j
        },
    )
}

/// `h` after every byte in turn was mixed in: first by exclusive or, then by a wrapping product
/// with [`FINGERPRINT_PRIME`].
pub open spec fn mixed(h: u64, bytes: Seq<u8>) -> u64
    decreases bytes.len(),
{
    if bytes.len() == 0 {
        h
    } else {
        vstd::wrapping::u64_specs::wrapping_mul(
            mixed(h, bytes.drop_last()) ^ (bytes.last() as u64),
            FINGERPRINT_PRIME,
        )
    }
}

/// The fingerprint of an `m` by `k` operand whose samples hold these bytes.
pub open spec fn fingerprint_spec(m: usize, k: usize, samples: Seq<u8>) -> u64 {
    mixed(FINGERPRINT_SEED ^ ((m as u64) << 32u64) ^ (k as u64), samples)
}

/// The bytes of the first `n` samples of an operand of `size`-byte elements, one after the other.
pub open spec fn sampled(lhs: Seq<u8>, size: int, at: Strides, m: int, k: int, n: nat) -> Seq<u8>
    decreases n,
{
    if n == 0 {
        Seq::empty()
    } else {
        let (i, j) = sample_spec(n - 1, m, k);
        let p = at.at(i, j) * size;
        sampled(lhs, size, at, m, k, (n - 1) as nat) + lhs.subrange(p, p + size)
    }
}

/// Every element of an `m` by `k` operand of `size`-byte elements lies inside `len` bytes.
pub open spec fn operand_fits(at: Strides, size: int, m: int, k: int, len: int) -> bool {
    forall|i: int, j: int|
        0 <= i < m && 0 <= j < k ==> 0 <= #[trigger] at.at(i, j) && at.at(i, j) <= usize::MAX && (
        at.at(i, j) + 1) * size <= len
}

/// The fingerprint of an operand, from the bytes that its samples hold.
pub fn fingerprint_of(m: usize, k: usize, samples: &[u8]) -> (r: u64)
    ensures
        r == fingerprint_spec(m, k, samples@),
{
    let seed: u64 = FINGERPRINT_SEED ^ ((m as u64) << 32u64) ^ (k as u64);
    let mut h: u64 = seed;
    let mut b: usize = 0;
    while b < samples.len()
        invariant
            b <= samples@.len(),
            h == mixed(seed, samples@.take(b as int)),
        decreases samples@.len() - b,
    {
        h = (h ^ (samples[b] as u64)).wrapping_mul(FINGERPRINT_PRIME);
        b += 1;
        assert(samples@.take(b as int).drop_last() =~= samples@.take(b - 1));
    }
    assert(samples@.take(b as int) =~= samples@);
    h
}

/// The bytes of the eight samples of an operand, one after the other.
///
/// `lhs` holds the operand: element `(i, j)` takes the `size` bytes from `at.at(i, j) * size` on.
pub fn sample_bytes(lhs: &[u8], size: usize, at: Strides, m: usize, k: usize) -> (r: Vec<u8>)
    requires
        m > 0,
        k > 0,
        operand_fits(at, size as int, m as int, k as int, lhs@.len() as int),
    ensures
        r@ == sampled(lhs@, size as int, at, m as int, k as int, 8),
{
    let len: usize = lhs.len();
    let mut samples: Vec<u8> = Vec::new();
    let mut step: usize = 0;
    while step < 8
        invariant
            step <= 8,
            m > 0,
            k > 0,
            len == lhs@.len(),
            operand_fits(at, size as int, m as int, k as int, len as int),
            samples@ == sampled(lhs@, size as int, at, m as int, k as int, step as nat),
        decreases 8 - step,
    {
        let (i, j) = sample(step, m, k);
        assert(0 <= at.at(i as int, 0) <= usize::MAX);
        assert(0 <= at.at(i as int, j as int) <= usize::MAX);
        let p: usize = at.index(i, j);
        let ghost before = samples@;
        if size > 0 {
            proof {
                assert(p * size + size == (p + 1) * size) by (nonlinear_arith);
                assert(0 <= p * size) by (nonlinear_arith);
            }
            let first: usize = p * size;
            let mut b: usize = 0;
            while b < size
                invariant
                    b <= size,
                    first + size <= len,
                    len == lhs@.len(),
                    samples@ =~= before + lhs@.subrange(first as int, first + b),
                decreases size - b,
            {
                samples.push(lhs[first + b]);
                b += 1;
            }
        } else {
            assert(p * size == 0) by (nonlinear_arith)
                requires
                    size == 0,
            ;
            assert(samples@ =~= before + lhs@.subrange(0, 0));
        }
        step += 1;
    }
    samples
}

/// Cheap, position-dependent hash of a few elements, so that a recycled address with different
/// contents does not hit. Constant work regardless of the operand's size. The operand is laid out
/// as for [`sample_bytes`].
pub fn fingerprint(lhs: &[u8], size: usize, at: Strides, m: usize, k: usize) -> (r: u64)
    requires
        m > 0,
        k > 0,
        operand_fits(at, size as int, m as int, k as int, lhs@.len() as int),
    ensures
        r == fingerprint_spec(
            m,
            k,
            sampled(lhs@, size as int, at, m as int, k as int, 8),
        ),
{
    fingerprint_of(m, k, sample_bytes(lhs, size, at, m, k).as_slice())
}

/// Everything that the packed layout depends on, and enough of the operand to tell it apart from a
/// different one that happens to land at the same address.
#[derive(Clone, Copy)]
pub struct Key {
    /// The type of the elements.
    pub type_id: TypeId,
    /// The address of the operand.
    pub ptr: usize,
    /// Rows.
    pub m: usize,
    /// Columns.
    pub k: usize,
    /// Distance from one row to the next.
    pub lhs_rs: isize,
    /// Distance from one column to the next.
    pub lhs_cs: isize,
    /// Depth of a packed chunk.
    pub kc: usize,
    /// Rows of a packed strip.
    pub mr: usize,
    /// Bytes of the packed panel.
    pub bytes: usize,
    /// See [`fingerprint`].
    pub fingerprint: u64,
}

impl Key {
    /// Compares every field.
    pub fn same(&self, other: &Key) -> (r: bool)
        ensures
            r == (*self == *other),
    {
        same_type(&self.type_id, &other.type_id) && self.ptr == other.ptr && self.m == other.m
            && self.k == other.k && self.lhs_rs == other.lhs_rs && self.lhs_cs == other.lhs_cs
            && self.kc == other.kc && self.mr == other.mr && self.bytes == other.bytes
            && self.fingerprint == other.fingerprint
    }
}

/// A key seen once (`Probe`), or one seen again and given storage (`Panel`).
pub enum Slot<B> {
    /// Nothing is stored.
    Probe,
    /// The packed operand goes here.
    Panel(Rc<B>),
}

/// One operand that was seen.
pub struct Entry<B> {
    /// What it was.
    pub key: Key,
    /// Whether it has storage.
    pub slot: Slot<B>,
    /// Set once every chunk has been packed, so that a panel left half filled by an interrupted
    /// call is not mistaken for a complete one.
    pub filled: bool,
}

/// The operands that one thread has seen, oldest first. A short linear scan beats hashing here: a
/// model touches a few dozen distinct weights, and the comparison is a handful of words.
pub struct PackedCache<B> {
    entries: Vec<Entry<B>>,
    used: usize,
}

/// The position of the entry with this key, or the number of entries where there is none.
pub open spec fn find<B>(entries: Seq<Entry<B>>, key: Key) -> int
    decreases entries.len(),
{
    if entries.len() == 0 {
        0
    } else {
        let before = find(entries.drop_last(), key);
        if before < entries.len() - 1 || entries.last().key == key {
            before
        } else {
            entries.len() as int
        }
    }
}

/// The position of the oldest probe, or the number of entries where there is none.
pub open spec fn oldest_probe<B>(entries: Seq<Entry<B>>) -> int
    decreases entries.len(),
{
    if entries.len() == 0 {
        0
    } else {
        let before = oldest_probe(entries.drop_last());
        if before < entries.len() - 1 || entries.last().slot is Probe {
            before
        } else {
            entries.len() as int
        }
    }
}

/// How many entries are probes.
pub open spec fn probes<B>(entries: Seq<Entry<B>>) -> nat
    decreases entries.len(),
{
    if entries.len() == 0 {
        0
    } else {
        probes(entries.drop_last()) + if entries.last().slot is Probe {
            1nat
        } else {
            0nat
        }
    }
}

/// How many entries are panels.
pub open spec fn panels<B>(entries: Seq<Entry<B>>) -> nat
    decreases entries.len(),
{
    if entries.len() == 0 {
        0
    } else {
        panels(entries.drop_last()) + if entries.last().slot is Panel {
            1nat
        } else {
            0nat
        }
    }
}

/// The bytes of all panels together.
pub open spec fn panel_bytes<B>(entries: Seq<Entry<B>>) -> nat
    decreases entries.len(),
{
    if entries.len() == 0 {
        0
    } else {
        panel_bytes(entries.drop_last()) + if entries.last().slot is Panel {
            entries.last().key.bytes as nat
        } else {
            0nat
        }
    }
}

/// No two entries share a key.
pub open spec fn distinct_keys<B>(entries: Seq<Entry<B>>) -> bool {
    forall|i: int, j: int|
        #![trigger entries[i], entries[j]]
        0 <= i < entries.len() && 0 <= j < entries.len() && entries[i].key == entries[j].key ==> i
            == j
}

impl<B> View for PackedCache<B> {
    type V = Seq<Entry<B>>;

    /// The entries, oldest first.
    closed spec fn view(&self) -> Seq<Entry<B>> {
        self.entries@
    }
}

impl<B> PackedCache<B> {
    /// The bytes that the cache accounts for.
    pub closed spec fn used_bytes(&self) -> usize {
        self.used
    }

    /// No two entries share a key, a probe is never filled, the probes and the panels stay inside
    /// their limits, and every byte of every panel is accounted for.
    pub open spec fn wf(&self) -> bool {
        &&& distinct_keys(self@)
        &&& forall|i: int|
            0 <= i < self@.len() && (#[trigger] self@[i]).slot is Probe ==> !self@[i].filled
        &&& probes(self@) <= MAX_PROBES
        &&& panels(self@) <= MAX_ENTRIES
        &&& self.used_bytes() == min_int(panel_bytes(self@) as int, usize::MAX as int)
    }

    /// A cache that has seen nothing.
    pub fn new() -> (r: PackedCache<B>)
        ensures
            r.wf(),
            r@ == Seq::<Entry<B>>::empty(),
    {
        PackedCache { entries: Vec::new(), used: 0 }
    }
}

/// What [`find`] finds.
pub proof fn lemma_find<B>(entries: Seq<Entry<B>>, key: Key)
    ensures
        0 <= find(entries, key) <= entries.len(),
        find(entries, key) < entries.len() ==> entries[find(entries, key)].key == key,
        forall|i: int|
            0 <= i < find(entries, key) ==> (#[trigger] entries[i]).key != key,
    decreases entries.len(),
{
    if entries.len() > 0 {
        let front = entries.drop_last();
        lemma_find(front, key);
        assert forall|i: int| 0 <= i < find(entries, key) implies (#[trigger] entries[i]).key
            != key by {
            if i < front.len() {
                assert(front[i].key != key);
            }
        }
    }
}

/// What [`oldest_probe`] finds.
pub proof fn lemma_oldest_probe<B>(entries: Seq<Entry<B>>)
    ensures
        0 <= oldest_probe(entries) <= entries.len(),
        oldest_probe(entries) < entries.len() ==> entries[oldest_probe(entries)].slot is Probe,
        forall|i: int|
            0 <= i < oldest_probe(entries) ==> (#[trigger] entries[i]).slot is Panel,
        oldest_probe(entries) == entries.len() <==> probes(entries) == 0,
    decreases entries.len(),
{
    if entries.len() > 0 {
        let front = entries.drop_last();
        lemma_oldest_probe(front);
        assert forall|i: int| 0 <= i < oldest_probe(entries) implies (#[trigger] entries[i]).slot is Panel by {
            if i < front.len() {
                assert(front[i].slot is Panel);
            }
        }
    }
}

/// What replacing one entry does to the counts.
pub proof fn lemma_counts_update<B>(entries: Seq<Entry<B>>, i: int, e: Entry<B>)
    requires
        0 <= i < entries.len(),
    ensures
        ({
            let o = entries[i];
            let new = entries.update(i, e);
            &&& probes(new) + (if o.slot is Probe { 1int } else { 0 }) == probes(entries) + (
            if e.slot is Probe { 1int } else { 0 })
            &&& panels(new) + (if o.slot is Panel { 1int } else { 0 }) == panels(entries) + (
            if e.slot is Panel { 1int } else { 0 })
            &&& panel_bytes(new) + (if o.slot is Panel { o.key.bytes as int } else { 0 })
                == panel_bytes(entries) + (if e.slot is Panel { e.key.bytes as int } else { 0 })
        }),
    decreases entries.len(),
{
    let new = entries.update(i, e);
    if i == entries.len() - 1 {
        assert(new.drop_last() =~= entries.drop_last());
    } else {
        lemma_counts_update(entries.drop_last(), i, e);
        assert(new.drop_last() =~= entries.drop_last().update(i, e));
    }
}

/// What removing one entry does to the counts.
pub proof fn lemma_counts_remove<B>(entries: Seq<Entry<B>>, i: int)
    requires
        0 <= i < entries.len(),
    ensures
        ({
            let o = entries[i];
            let new = entries.remove(i);
            &&& probes(new) + (if o.slot is Probe { 1int } else { 0 }) == probes(entries)
            &&& panels(new) + (if o.slot is Panel { 1int } else { 0 }) == panels(entries)
            &&& panel_bytes(new) + (if o.slot is Panel { o.key.bytes as int } else { 0 })
                == panel_bytes(entries)
        }),
    decreases entries.len(),
{
    let new = entries.remove(i);
    if i == entries.len() - 1 {
        assert(new =~= entries.drop_last());
    } else {
        lemma_counts_remove(entries.drop_last(), i);
        assert(new.drop_last() =~= entries.drop_last().remove(i));
    }
}

/// How many operands have a panel.
pub fn panel_count<B>(cache: &PackedCache<B>) -> (r: usize)
    ensures
        r == panels(cache@),
{
    let mut n: usize = 0;
    let mut i: usize = 0;
    while i < cache.entries.len()
        invariant
            i <= cache.entries@.len(),
            n <= i,
            n == panels(cache.entries@.take(i as int)),
        decreases cache.entries@.len() - i,
    {
        if matches!(cache.entries[i].slot, Slot::Panel(_)) {
            n += 1;
        }
        i += 1;
        assert(cache.entries@.take(i as int).drop_last() =~= cache.entries@.take(i - 1));
    }
    assert(cache.entries@.take(i as int) =~= cache.entries@);
    n
}

/// How many operands await a second sighting.
pub fn probe_count<B>(cache: &PackedCache<B>) -> (r: usize)
    ensures
        r == probes(cache@),
{
    let mut n: usize = 0;
    let mut i: usize = 0;
    while i < cache.entries.len()
        invariant
            i <= cache.entries@.len(),
            n <= i,
            n == probes(cache.entries@.take(i as int)),
        decreases cache.entries@.len() - i,
    {
        if matches!(cache.entries[i].slot, Slot::Probe) {
            n += 1;
        }
        i += 1;
        assert(cache.entries@.take(i as int).drop_last() =~= cache.entries@.take(i - 1));
    }
    assert(cache.entries@.take(i as int) =~= cache.entries@);
    n
}

/// Packed bytes that the cache holds, and how many operands have a panel.
pub fn stats<B>(cache: &PackedCache<B>) -> (r: (usize, usize))
    ensures
        r.0 == cache.used_bytes(),
        r.1 == panels(cache@),
        cache.wf() ==> r.0 == min_int(panel_bytes(cache@) as int, usize::MAX as int),
{
    (cache.used, panel_count(cache))
}

/// Forgets every operand and gives its storage back.
pub fn clear<B>(cache: &mut PackedCache<B>)
    ensures
        final(cache).wf(),
        final(cache)@ == Seq::<Entry<B>>::empty(),
        final(cache).used_bytes() == 0,
{
    cache.entries.clear();
    cache.used = 0;
}

/// The position of the entry with this key.
fn position<B>(cache: &PackedCache<B>, key: &Key) -> (r: usize)
    ensures
        r == find(cache@, *key),
{
    let mut i: usize = 0;
    while i < cache.entries.len()
        invariant
            i <= cache.entries@.len(),
            forall|q: int| 0 <= q < i ==> (#[trigger] cache.entries@[q]).key != *key,
        decreases cache.entries@.len() - i,
    {
        if cache.entries[i].key.same(key) {
            proof {
                lemma_find(cache.entries@, *key);
                lemma_find_is(cache.entries@, *key, i as int);
            }
            return i;
        }
        i += 1;
    }
    proof {
        lemma_find(cache.entries@, *key);
    }
    i
}

/// The first entry with the key is the one found.
proof fn lemma_find_is<B>(entries: Seq<Entry<B>>, key: Key, i: int)
    requires
        0 <= i < entries.len(),
        entries[i].key == key,
        forall|q: int| 0 <= q < i ==> (#[trigger] entries[q]).key != key,
    ensures
        find(entries, key) == i,
{
    lemma_find(entries, key);
    if find(entries, key) < i {
        assert(entries[find(entries, key)].key != key);
    }
}

/// The position of the oldest probe.
fn first_probe<B>(cache: &PackedCache<B>) -> (r: usize)
    ensures
        r == oldest_probe(cache@),
{
    let mut i: usize = 0;
    proof {
        lemma_oldest_probe(cache.entries@);
    }
    while i < cache.entries.len()
        invariant
            i <= cache.entries@.len(),
            i <= oldest_probe(cache.entries@) <= cache.entries@.len(),
            oldest_probe(cache.entries@) < cache.entries@.len() ==> cache.entries@[oldest_probe(
                cache.entries@,
            )].slot is Probe,
            forall|q: int|
                0 <= q < oldest_probe(cache.entries@) ==> (#[trigger] cache.entries@[q]).slot is Panel,
        decreases cache.entries@.len() - i,
    {
        if matches!(cache.entries[i].slot, Slot::Probe) {
            return i;
        }
        i += 1;
    }
    i
}

/// A cached panel: where to write it, and whether it already holds valid data.
pub struct Panel<B> {
    /// The whole buffer, spanning every chunk.
    pub ptr: Rc<B>,
    /// True if a previous call already packed this operand, so that packing can be skipped.
    pub filled: bool,
    /// The operand that the panel is for, by which [`Panel::mark_filled`] finds its entry.
    pub key: Key,
}

/// An operand that can be cached: caching is on, and there is something to cache.
pub open spec fn suitable_spec(
    settings: Settings,
    ptr: usize,
    m: usize,
    k: usize,
    bytes: usize,
) -> bool {
    settings.enabled && bytes != 0 && m != 0 && k != 0 && ptr != 0
}

/// Whether an operand can be cached.
pub fn suitable(settings: &Settings, ptr: usize, m: usize, k: usize, bytes: usize) -> (r: bool)
    ensures
        r == suitable_spec(*settings, ptr, m, k, bytes),
{
    enabled(settings) && bytes != 0 && m != 0 && k != 0 && ptr != 0
}

/// The bytes in use once a panel for `key` is added, or as many as a `usize` can count.
pub open spec fn would_use(used: usize, key: Key) -> int {
    min_int(used + key.bytes, usize::MAX as int)
}

/// The boundary that a buffer is placed on: `align` bytes, or one where none is asked for.
pub open spec fn boundary(align: usize) -> usize {
    if align == 0 {
        1
    } else {
        align
    }
}

/// `key` is due for a buffer: it was seen before without one, the budget and the number of panels
/// leave room for it, and a buffer of its size can be allocated at all.
pub open spec fn due<B>(
    settings: Settings,
    entries: Seq<Entry<B>>,
    used: usize,
    key: Key,
    align: usize,
) -> bool {
    let i = find(entries, key);
    &&& i < entries.len()
    &&& entries[i].slot is Probe
    &&& would_use(used, key) <= settings.budget
    &&& panels(entries) < MAX_ENTRIES
    &&& valid_layout(key.bytes, boundary(align))
}

/// The entries after a first sighting of `key`: a probe is added, and where there is no room for
/// one more, the oldest probe leaves.
pub open spec fn with_probe<B>(entries: Seq<Entry<B>>, key: Key) -> Seq<Entry<B>> {
    let kept = if probes(entries) >= MAX_PROBES {
        entries.remove(oldest_probe(entries))
    } else {
        entries
    };
    kept.push(Entry { key, slot: Slot::Probe, filled: false })
}

/// The entries after `key` was looked up and `offered` was there for it if it was due.
pub open spec fn settled<B>(
    settings: Settings,
    entries: Seq<Entry<B>>,
    used: usize,
    key: Key,
    align: usize,
    offered: Option<B>,
) -> Seq<Entry<B>> {
    let i = find(entries, key);
    if i == entries.len() {
        with_probe(entries, key)
    } else {
        match offered {
            Some(buf) if due(settings, entries, used, key, align) => entries.update(
                i,
                Entry { key, slot: Slot::Panel(Rc::new(buf)), filled: false },
            ),
            _ => entries,
        }
    }
}

/// The bytes in use after such a lookup.
pub open spec fn settled_used<B>(
    settings: Settings,
    entries: Seq<Entry<B>>,
    used: usize,
    key: Key,
    align: usize,
    offered: Option<B>,
) -> int {
    if offered is Some && due(settings, entries, used, key, align) {
        would_use(used, key)
    } else {
        used as int
    }
}

/// What such a lookup answers: the panel of `key`, where it has one by then and was seen before.
pub open spec fn answer<B>(
    settings: Settings,
    entries: Seq<Entry<B>>,
    used: usize,
    key: Key,
    align: usize,
    offered: Option<B>,
) -> Option<Panel<B>> {
    let i = find(entries, key);
    let after = settled(settings, entries, used, key, align, offered);
    if i == entries.len() {
        None
    } else {
        match after[i].slot {
            Slot::Probe => None,
            Slot::Panel(ptr) => Some(Panel { ptr, filled: after[i].filled, key }),
        }
    }
}

/// Whether the key of an operand is due for a buffer.
pub fn wants_buffer<B>(
    settings: &Settings,
    cache: &PackedCache<B>,
    key: &Key,
    align: usize,
) -> (r: bool)
    ensures
        r == due(*settings, cache@, cache.used_bytes(), *key, align),
{
    let i: usize = position(cache, key);
    let at_least: usize = if align == 0 {
        1
    } else {
        align
    };
    i < cache.entries.len() && matches!(cache.entries[i].slot, Slot::Probe)
        && cache.used.saturating_add(key.bytes) <= settings.budget && panel_count(cache)
        < MAX_ENTRIES && layout_exists(key.bytes, at_least)
}

/// Looks up the panel of `key`, where `offered` is what the allocator gave for it, and `None`
/// where nothing was asked of the allocator or it had nothing to give.
///
/// The first sighting of a key records a probe, allocates nothing, and lets the call pack as it
/// would have without a cache. A later one turns the probe into a panel, if it is due for a buffer
/// and one is offered. From then on the panel is answered as it is.
pub fn settle<B>(
    settings: &Settings,
    cache: &mut PackedCache<B>,
    key: Key,
    align: usize,
    offered: Option<B>,
) -> (r: Option<Panel<B>>)
    requires
        old(cache).wf(),
    ensures
        final(cache).wf(),
        final(cache)@ == settled(
            *settings,
            old(cache)@,
            old(cache).used_bytes(),
            key,
            align,
            offered,
        ),
        final(cache).used_bytes() == settled_used(
            *settings,
            old(cache)@,
            old(cache).used_bytes(),
            key,
            align,
            offered,
        ),
        r == answer(*settings, old(cache)@, old(cache).used_bytes(), key, align, offered),
{
    let ghost entries = cache@;
    let ghost used = cache.used;
    let wanted: bool = wants_buffer(settings, &*cache, &key, align);
    let i: usize = position(&*cache, &key);
    proof {
        lemma_find(entries, key);
        lemma_oldest_probe(entries);
    }
    if i == cache.entries.len() {
        if probe_count(&*cache) >= MAX_PROBES {
            let oldest: usize = first_probe(&*cache);
            proof {
                lemma_counts_remove(entries, oldest as int);
            }
            cache.entries.remove(oldest);
        }
        let ghost kept = cache.entries@;
        cache.entries.push(Entry { key, slot: Slot::Probe, filled: false });
        proof {
            assert(cache.entries@.drop_last() =~= kept);
            assert(forall|q: int|
                0 <= q < kept.len() ==> (#[trigger] kept[q]).key != key);
        }
        return None;
    }
    if wanted {
        if let Some(buf) = offered {
            let ptr: Rc<B> = Rc::new(buf);
            proof {
                lemma_counts_update(
                    entries,
                    i as int,
                    Entry { key, slot: Slot::Panel(ptr), filled: false },
                );
            }
            cache.used = cache.used.saturating_add(key.bytes);
            let handle: Rc<B> = share(&ptr);
            cache.entries.set(i, Entry { key, slot: Slot::Panel(ptr), filled: false });
            return Some(Panel { ptr: handle, filled: false, key });
        }
    }
    let entry: &Entry<B> = &cache.entries[i];
    match &entry.slot {
        Slot::Probe => None,
        Slot::Panel(ptr) => Some(Panel { ptr: share(ptr), filled: entry.filled, key }),
    }
}

/// Looks up, or reserves, the panel of `key`. Where the key is due for a buffer, `alloc` is asked
/// for one, of this many bytes and on this boundary; it answers `None` if it has none to give.
pub fn lookup<B, F: FnOnce(usize, usize) -> Option<B>>(
    settings: &Settings,
    cache: &mut PackedCache<B>,
    key: Key,
    align: usize,
    alloc: F,
) -> (r: Option<Panel<B>>)
    requires
        old(cache).wf(),
        due(*settings, old(cache)@, old(cache).used_bytes(), key, align) ==> call_requires(
            alloc,
            (key.bytes, boundary(align)),
        ),
    ensures
        final(cache).wf(),
        exists|offered: Option<B>|
            looked_up(*settings, *old(cache), *final(cache), key, align, alloc, offered, r),
{
    let at_least: usize = if align == 0 {
        1
    } else {
        align
    };
    let offered: Option<B> = if wants_buffer(settings, &*cache, &key, align) {
        alloc(key.bytes, at_least)
    } else {
        None
    };
    let ghost given = offered;
    let r = settle(settings, cache, key, align, offered);
    assert(looked_up(*settings, *old(cache), *cache, key, align, alloc, given, r));
    r
}

/// What a lookup leaves and answers where the allocator, if it was asked, gave `offered`.
pub open spec fn looked_up<B, F: FnOnce(usize, usize) -> Option<B>>(
    settings: Settings,
    before: PackedCache<B>,
    after: PackedCache<B>,
    key: Key,
    align: usize,
    alloc: F,
    offered: Option<B>,
    r: Option<Panel<B>>,
) -> bool {
    let (entries, used) = (before@, before.used_bytes());
    &&& due(settings, entries, used, key, align) ==> call_ensures(
        alloc,
        (key.bytes, boundary(align)),
        offered,
    )
    &&& !due(settings, entries, used, key, align) ==> offered is None
    &&& after@ == settled(settings, entries, used, key, align, offered)
    &&& after.used_bytes() == settled_used(settings, entries, used, key, align, offered)
    &&& r == answer(settings, entries, used, key, align, offered)
}

/// The key of an operand whose samples hold these bytes.
pub open spec fn key_spec(
    type_id: TypeId,
    ptr: usize,
    samples: Seq<u8>,
    m: usize,
    k: usize,
    lhs_rs: isize,
    lhs_cs: isize,
    kc: usize,
    mr: usize,
    bytes: usize,
) -> Key {
    Key {
        type_id,
        ptr,
        m,
        k,
        lhs_rs,
        lhs_cs,
        kc,
        mr,
        bytes,
        fingerprint: fingerprint_spec(m, k, samples),
    }
}

/// [`get`] for an operand whose samples were read already: `samples` holds the bytes of the eight
/// elements that [`sample`] picks, one after the other. They are not looked at where the operand is
/// not [`suitable`].
pub fn get_sampled<B, F: FnOnce(usize, usize) -> Option<B>>(
    settings: &Settings,
    cache: &mut PackedCache<B>,
    type_id: TypeId,
    ptr: usize,
    samples: &[u8],
    m: usize,
    k: usize,
    lhs_rs: isize,
    lhs_cs: isize,
    kc: usize,
    mr: usize,
    bytes: usize,
    align: usize,
    alloc: F,
) -> (r: Option<Panel<B>>)
    requires
        old(cache).wf(),
        suitable_spec(*settings, ptr, m, k, bytes) && due(
            *settings,
            old(cache)@,
            old(cache).used_bytes(),
            key_spec(type_id, ptr, samples@, m, k, lhs_rs, lhs_cs, kc, mr, bytes),
            align,
        ) ==> call_requires(alloc, (bytes, boundary(align))),
    ensures
        final(cache).wf(),
        suitable_spec(*settings, ptr, m, k, bytes) ==> exists|offered: Option<B>|
            looked_up(
                *settings,
                *old(cache),
                *final(cache),
                key_spec(type_id, ptr, samples@, m, k, lhs_rs, lhs_cs, kc, mr, bytes),
                align,
                alloc,
                offered,
                r,
            ),
        !suitable_spec(*settings, ptr, m, k, bytes) ==> r is None && *final(cache) == *old(cache),
{
    if !suitable(settings, ptr, m, k, bytes) {
        return None;
    }
    let key: Key = Key {
        type_id,
        ptr,
        m,
        k,
        lhs_rs,
        lhs_cs,
        kc,
        mr,
        bytes,
        fingerprint: fingerprint_of(m, k, samples),
    };
    lookup(settings, cache, key, align, alloc)
}

/// The key of an operand that is laid out in `lhs` as for [`sample_bytes`].
pub open spec fn operand_key(
    type_id: TypeId,
    ptr: usize,
    lhs: Seq<u8>,
    size: usize,
    at: Strides,
    m: usize,
    k: usize,
    kc: usize,
    mr: usize,
    bytes: usize,
) -> Key {
    key_spec(
        type_id,
        ptr,
        sampled(lhs, size as int, at, m as int, k as int, 8),
        m,
        k,
        at.rs,
        at.cs,
        kc,
        mr,
        bytes,
    )
}

/// Looks up, or reserves, a panel of `bytes` bytes for this operand.
///
/// Answers `None` where caching is off, the operand looks unsuitable, it is seen for the first
/// time, or the budget is spent; the caller then packs per call. The bytes of the operand must not
/// change for the lifetime of the process.
pub fn get<B, F: FnOnce(usize, usize) -> Option<B>>(
    settings: &Settings,
    cache: &mut PackedCache<B>,
    type_id: TypeId,
    ptr: usize,
    lhs: &[u8],
    size: usize,
    at: Strides,
    m: usize,
    k: usize,
    kc: usize,
    mr: usize,
    bytes: usize,
    align: usize,
    alloc: F,
) -> (r: Option<Panel<B>>)
    requires
        old(cache).wf(),
        suitable_spec(*settings, ptr, m, k, bytes) ==> operand_fits(
            at,
            size as int,
            m as int,
            k as int,
            lhs@.len() as int,
        ),
        suitable_spec(*settings, ptr, m, k, bytes) && due(
            *settings,
            old(cache)@,
            old(cache).used_bytes(),
            operand_key(type_id, ptr, lhs@, size, at, m, k, kc, mr, bytes),
            align,
        ) ==> call_requires(alloc, (bytes, boundary(align))),
    ensures
        final(cache).wf(),
        suitable_spec(*settings, ptr, m, k, bytes) ==> exists|offered: Option<B>|
            looked_up(
                *settings,
                *old(cache),
                *final(cache),
                operand_key(type_id, ptr, lhs@, size, at, m, k, kc, mr, bytes),
                align,
                alloc,
                offered,
                r,
            ),
        !suitable_spec(*settings, ptr, m, k, bytes) ==> r is None && *final(cache) == *old(cache),
{
    if !suitable(settings, ptr, m, k, bytes) {
        return None;
    }
    let samples: Vec<u8> = sample_bytes(lhs, size, at, m, k);
    let ghost key = operand_key(type_id, ptr, lhs@, size, at, m, k, kc, mr, bytes);
    assert(key == key_spec(type_id, ptr, samples@, m, k, at.rs, at.cs, kc, mr, bytes));
    let r = get_sampled(
        settings,
        cache,
        type_id,
        ptr,
        samples.as_slice(),
        m,
        k,
        at.rs,
        at.cs,
        kc,
        mr,
        bytes,
        align,
        alloc,
    );
    proof {
        let offered = choose|offered: Option<B>|
            looked_up(*settings, *old(cache), *cache, key, align, alloc, offered, r);
        assert(looked_up(*settings, *old(cache), *cache, key, align, alloc, offered, r));
    }
    r
}

/// The entries once the panel of `key` holds every chunk. A key without a panel changes nothing.
pub open spec fn marked<B>(entries: Seq<Entry<B>>, key: Key) -> Seq<Entry<B>> {
    let i = find(entries, key);
    if i < entries.len() && entries[i].slot is Panel {
        entries.update(i, Entry { key, slot: entries[i].slot, filled: true })
    } else {
        entries
    }
}

impl<B> Panel<B> {
    /// Records that every chunk has now been packed. Call once, after the last chunk, and not on a
    /// panel from before a [`clear`]: the operand may have been given another buffer since.
    pub fn mark_filled(&self, cache: &mut PackedCache<B>)
        requires
            old(cache).wf(),
        ensures
            final(cache).wf(),
            final(cache)@ == marked(old(cache)@, self.key),
            final(cache).used_bytes() == old(cache).used_bytes(),
    {
        let i: usize = position(&*cache, &self.key);
        proof {
            lemma_find(cache@, self.key);
        }
        if i < cache.entries.len() && matches!(cache.entries[i].slot, Slot::Panel(_)) {
            let ghost e = Entry { key: self.key, slot: cache@[i as int].slot, filled: true };
            proof {
                lemma_counts_update(cache@, i as int, e);
            }
            cache.entries[i].filled = true;
        }
    }
}

/// The entry of `key` is a panel that holds `ptr` and is, or is not, `filled`.
pub open spec fn has_panel<B>(entries: Seq<Entry<B>>, key: Key, ptr: Rc<B>, filled: bool) -> bool {
    let i = find(entries, key);
    i < entries.len() && entries[i] == (Entry { key, slot: Slot::Panel(ptr), filled })
}

/// An entry is found by its key.
proof fn lemma_found<B>(entries: Seq<Entry<B>>, i: int)
    requires
        0 <= i < entries.len(),
        distinct_keys(entries),
    ensures
        find(entries, entries[i].key) == i,
{
    let key = entries[i].key;
    lemma_find(entries, key);
    let f = find(entries, key);
    if f < entries.len() {
        assert(entries[f].key == entries[i].key);
    }
}

/// A first sighting keeps the keys distinct.
proof fn lemma_with_probe<B>(entries: Seq<Entry<B>>, key: Key)
    requires
        distinct_keys(entries),
        find(entries, key) == entries.len(),
    ensures
        distinct_keys(with_probe(entries, key)),
{
    lemma_find(entries, key);
    lemma_oldest_probe(entries);
}

/// Every lookup keeps the keys distinct.
proof fn lemma_settled_keys<B>(
    settings: Settings,
    entries: Seq<Entry<B>>,
    used: usize,
    key: Key,
    align: usize,
    offered: Option<B>,
)
    requires
        distinct_keys(entries),
    ensures
        distinct_keys(settled(settings, entries, used, key, align, offered)),
{
    let after = settled(settings, entries, used, key, align, offered);
    lemma_find(entries, key);
    if find(entries, key) == entries.len() {
        lemma_with_probe(entries, key);
    } else {
        assert forall|a: int, b: int|
            #![trigger after[a], after[b]]
            0 <= a < after.len() && 0 <= b < after.len() && after[a].key
                == after[b].key implies a == b by {
            assert(entries[a].key == entries[b].key);
        }
    }
}

/// Panels are never evicted: whatever is looked up, a panel keeps its buffer and stays filled or
/// unfilled.
pub proof fn law_lookups_keep_panels<B>(
    settings: Settings,
    entries: Seq<Entry<B>>,
    used: usize,
    key: Key,
    align: usize,
    offered: Option<B>,
    other: Key,
    ptr: Rc<B>,
    filled: bool,
)
    requires
        distinct_keys(entries),
        has_panel(entries, other, ptr, filled),
    ensures
        has_panel(
            settled(settings, entries, used, key, align, offered),
            other,
            ptr,
            filled,
        ),
{
    let after = settled(settings, entries, used, key, align, offered);
    let i = find(entries, key);
    let o = find(entries, other);
    lemma_find(entries, key);
    lemma_find(entries, other);
    lemma_oldest_probe(entries);
    if i == entries.len() {
        lemma_with_probe(entries, key);
        let at = if probes(entries) >= MAX_PROBES && oldest_probe(entries) < o {
            o - 1
        } else {
            o
        };
        assert(after[at] == entries[o]);
        lemma_found(after, at);
    } else {
        lemma_settled_keys(settings, entries, used, key, align, offered);
        assert(after[o] == entries[o]);
        lemma_found(after, o);
    }
}

/// Marking keeps the keys distinct.
proof fn lemma_marked_keys<B>(entries: Seq<Entry<B>>, key: Key)
    requires
        distinct_keys(entries),
    ensures
        distinct_keys(marked(entries, key)),
{
    let after = marked(entries, key);
    lemma_find(entries, key);
    assert forall|a: int, b: int|
        #![trigger after[a], after[b]]
        0 <= a < after.len() && 0 <= b < after.len() && after[a].key
            == after[b].key implies a == b by {
        assert(entries[a].key == entries[b].key);
    }
}

/// Marking a panel keeps every panel, and makes filled the one that was marked.
pub proof fn law_marking_keeps_panels<B>(
    entries: Seq<Entry<B>>,
    key: Key,
    other: Key,
    ptr: Rc<B>,
    filled: bool,
)
    requires
        distinct_keys(entries),
        has_panel(entries, other, ptr, filled),
    ensures
        has_panel(marked(entries, key), other, ptr, filled || key == other),
{
    let after = marked(entries, key);
    let o = find(entries, other);
    lemma_find(entries, key);
    lemma_find(entries, other);
    lemma_marked_keys(entries, key);
    assert(after[o].key == other);
    lemma_found(after, o);
}

/// A panel is answered as it is, and nothing changes: with its buffer, and as filled exactly where
/// it was marked.
pub proof fn law_panel_is_answered<B>(
    settings: Settings,
    entries: Seq<Entry<B>>,
    used: usize,
    key: Key,
    align: usize,
    offered: Option<B>,
    ptr: Rc<B>,
    filled: bool,
)
    requires
        has_panel(entries, key, ptr, filled),
    ensures
        answer(settings, entries, used, key, align, offered) == Some(Panel { ptr, filled, key }),
        settled(settings, entries, used, key, align, offered) == entries,
        settled_used(settings, entries, used, key, align, offered) == used,
{
}

/// One lookup: under which settings, of what, and what the allocator offered.
pub struct Lookup<B> {
    /// The settings of the process at the time.
    pub settings: Settings,
    /// The operand.
    pub key: Key,
    /// The boundary asked for.
    pub align: usize,
    /// What the allocator offered.
    pub offered: Option<B>,
}

/// One thing that is done to a cache.
pub enum Step<B> {
    /// An operand is looked up.
    Looked(Lookup<B>),
    /// The panel of this operand is marked filled.
    Marked(Key),
}

/// The entries, and the bytes in use, after one step after the other.
pub open spec fn after_steps<B>(
    entries: Seq<Entry<B>>,
    used: usize,
    steps: Seq<Step<B>>,
) -> (Seq<Entry<B>>, usize)
    decreases steps.len(),
{
    if steps.len() == 0 {
        (entries, used)
    } else {
        let (e, u) = after_steps(entries, used, steps.drop_last());
        match steps.last() {
            Step::Looked(l) => (
                settled(l.settings, e, u, l.key, l.align, l.offered),
                settled_used(l.settings, e, u, l.key, l.align, l.offered) as usize,
            ),
            Step::Marked(key) => (marked(e, key), u),
        }
    }
}

/// A panel that was marked filled is answered as filled, with the same buffer, whatever is looked
/// up or marked in between, under any settings: a weight is packed once.
pub proof fn law_packed_once<B>(
    entries: Seq<Entry<B>>,
    used: usize,
    key: Key,
    ptr: Rc<B>,
    filled: bool,
    steps: Seq<Step<B>>,
    last: Lookup<B>,
)
    requires
        distinct_keys(entries),
        has_panel(entries, key, ptr, filled),
        last.key == key,
    ensures
        ({
            let (e, u) = after_steps(marked(entries, key), used, steps);
            answer(last.settings, e, u, key, last.align, last.offered) == Some(
                Panel { ptr, filled: true, key },
            )
        }),
{
    law_marking_keeps_panels(entries, key, key, ptr, filled);
    let start = marked(entries, key);
    lemma_marked_keys(entries, key);
    lemma_steps_keep(start, used, key, ptr, steps);
    let (e, u) = after_steps(start, used, steps);
    law_panel_is_answered(last.settings, e, u, key, last.align, last.offered, ptr, true);
}

/// A filled panel outlives any number of steps.
proof fn lemma_steps_keep<B>(
    entries: Seq<Entry<B>>,
    used: usize,
    key: Key,
    ptr: Rc<B>,
    steps: Seq<Step<B>>,
)
    requires
        distinct_keys(entries),
        has_panel(entries, key, ptr, true),
    ensures
        distinct_keys(after_steps(entries, used, steps).0),
        has_panel(after_steps(entries, used, steps).0, key, ptr, true),
    decreases steps.len(),
{
    if steps.len() > 0 {
        lemma_steps_keep(entries, used, key, ptr, steps.drop_last());
        let (e, u) = after_steps(entries, used, steps.drop_last());
        match steps.last() {
            Step::Looked(l) => {
                lemma_settled_keys(l.settings, e, u, l.key, l.align, l.offered);
                law_lookups_keep_panels(
                    l.settings,
                    e,
                    u,
                    l.key,
                    l.align,
                    l.offered,
                    key,
                    ptr,
                    true,
                );
            },
            Step::Marked(other) => {
                lemma_marked_keys(e, other);
                law_marking_keeps_panels(e, other, key, ptr, true);
            },
        }
    }
}

/// The first sighting of an operand answers nothing, allocates nothing, and is remembered.
pub proof fn law_first_sighting_is_a_probe<B>(
    settings: Settings,
    entries: Seq<Entry<B>>,
    used: usize,
    key: Key,
    align: usize,
    offered: Option<B>,
)
    requires
        distinct_keys(entries),
        find(entries, key) == entries.len(),
    ensures
        !due(settings, entries, used, key, align),
        answer(settings, entries, used, key, align, offered) is None,
        settled_used(settings, entries, used, key, align, offered) == used,
        ({
            let after = settled(settings, entries, used, key, align, offered);
            &&& panels(after) == panels(entries)
            &&& panel_bytes(after) == panel_bytes(entries)
            &&& find(after, key) == after.len() - 1
            &&& after.last() == (Entry::<B> { key, slot: Slot::Probe, filled: false })
        }),
{
    let after = settled(settings, entries, used, key, align, offered);
    lemma_with_probe(entries, key);
    lemma_oldest_probe(entries);
    lemma_found(after, after.len() - 1);
    if probes(entries) >= MAX_PROBES {
        lemma_counts_remove(entries, oldest_probe(entries));
        assert(after.drop_last() =~= entries.remove(oldest_probe(entries)));
    } else {
        assert(after.drop_last() =~= entries);
    }
}

/// Two sightings in a row are enough: the second one makes a panel of whatever the allocator
/// offers, not filled yet, if there is room for it.
pub proof fn law_second_sighting_is_a_panel<B>(
    settings: Settings,
    entries: Seq<Entry<B>>,
    used: usize,
    key: Key,
    align: usize,
    first: Option<B>,
    buf: B,
)
    requires
        distinct_keys(entries),
        find(entries, key) == entries.len(),
        would_use(used, key) <= settings.budget,
        panels(entries) < MAX_ENTRIES,
        valid_layout(key.bytes, boundary(align)),
    ensures
        ({
            let once = settled(settings, entries, used, key, align, first);
            let twice = settled(settings, once, used, key, align, Some(buf));
            &&& answer(settings, once, used, key, align, Some(buf)) == Some(
                Panel { ptr: Rc::new(buf), filled: false, key },
            )
            &&& has_panel(twice, key, Rc::new(buf), false)
            &&& panels(twice) == panels(entries) + 1
        }),
{
    let once = settled(settings, entries, used, key, align, first);
    let twice = settled(settings, once, used, key, align, Some(buf));
    law_first_sighting_is_a_probe(settings, entries, used, key, align, first);
    let i = once.len() - 1;
    lemma_with_probe(entries, key);
    lemma_counts_update(
        once,
        i,
        Entry { key, slot: Slot::Panel(Rc::new(buf)), filled: false },
    );
    lemma_settled_keys(settings, once, used, key, align, Some(buf));
    lemma_found(twice, i);
}

/// Only an operand that was seen before, with every parameter and the fingerprint the same, is
/// answered.
pub proof fn law_answer_is_for_same_operand<B>(
    settings: Settings,
    entries: Seq<Entry<B>>,
    used: usize,
    key: Key,
    align: usize,
    offered: Option<B>,
)
    requires
        answer(settings, entries, used, key, align, offered) is Some,
    ensures
        answer(settings, entries, used, key, align, offered)->0.key == key,
        exists|i: int| 0 <= i < entries.len() && (#[trigger] entries[i]).key == key,
{
    lemma_find(entries, key);
    assert(entries[find(entries, key)].key == key);
}

/// The operands that were answered with a panel in the course of `steps`, in the order in which
/// that first happened to them.
pub open spec fn answered<B>(
    entries: Seq<Entry<B>>,
    used: usize,
    steps: Seq<Step<B>>,
) -> Seq<Key>
    decreases steps.len(),
{
    if steps.len() == 0 {
        Seq::empty()
    } else {
        let (e, u) = after_steps(entries, used, steps.drop_last());
        let before = answered(entries, used, steps.drop_last());
        match steps.last() {
            Step::Looked(l) => if answer(
                l.settings,
                e,
                u,
                l.key,
                l.align,
                l.offered,
            ) is Some && !before.contains(l.key) {
                before.push(l.key)
            } else {
                before
            },
            Step::Marked(_) => before,
        }
    }
}

/// The panels of these operands take this many bytes together.
pub open spec fn bytes_of(keys: Seq<Key>) -> nat
    decreases keys.len(),
{
    if keys.len() == 0 {
        0
    } else {
        bytes_of(keys.drop_last()) + keys.last().bytes as nat
    }
}

/// No lookup in `steps` goes by a budget above this one.
pub open spec fn within_budget<B>(steps: Seq<Step<B>>, budget: usize) -> bool {
    forall|i: int|
        0 <= i < steps.len() ==> (#[trigger] steps[i] matches Step::Looked(l)
            ==> l.settings.budget <= budget)
}

/// `key` has a panel.
pub open spec fn holds_panel<B>(entries: Seq<Entry<B>>, key: Key) -> bool {
    exists|i: int|
        0 <= i < entries.len() && (#[trigger] entries[i]).key == key && entries[i].slot is Panel
}

/// A lookup gives a panel to the operand that it answers, and changes nothing about which others
/// have one.
proof fn lemma_settled_panels<B>(
    settings: Settings,
    entries: Seq<Entry<B>>,
    used: usize,
    key: Key,
    align: usize,
    offered: Option<B>,
    other: Key,
)
    ensures
        holds_panel(settled(settings, entries, used, key, align, offered), other) <==> (holds_panel(
            entries,
            other,
        ) || other == key && answer(settings, entries, used, key, align, offered) is Some),
{
    let after = settled(settings, entries, used, key, align, offered);
    let f = find(entries, key);
    lemma_find(entries, key);
    lemma_oldest_probe(entries);
    let old = oldest_probe(entries);
    let full = probes(entries) >= MAX_PROBES;
    if holds_panel(entries, other) {
        let i = choose|i: int|
            0 <= i < entries.len() && (#[trigger] entries[i]).key == other
                && entries[i].slot is Panel;
        if f == entries.len() && full && old < i {
            assert(after[i - 1] == entries[i]);
        } else {
            assert(after[i] == entries[i]);
        }
    }
    if holds_panel(after, other) {
        let i = choose|i: int|
            0 <= i < after.len() && (#[trigger] after[i]).key == other && after[i].slot is Panel;
        if f == entries.len() {
            if full && old <= i {
                assert(after[i] == entries[i + 1]);
            } else {
                assert(after[i] == entries[i]);
            }
        } else if i != f {
            assert(after[i] == entries[i]);
        }
    }
    if other == key && answer(settings, entries, used, key, align, offered) is Some {
        assert(after[f].key == other);
    }
}

/// Marking changes nothing about which operands have a panel.
proof fn lemma_marked_panels<B>(entries: Seq<Entry<B>>, key: Key, other: Key)
    ensures
        holds_panel(marked(entries, key), other) <==> holds_panel(entries, other),
        probes(marked(entries, key)) == probes(entries),
        panels(marked(entries, key)) == panels(entries),
        panel_bytes(marked(entries, key)) == panel_bytes(entries),
{
    let after = marked(entries, key);
    let f = find(entries, key);
    lemma_find(entries, key);
    if f < entries.len() && entries[f].slot is Panel {
        lemma_counts_update(entries, f, after[f]);
        assert(after =~= entries.update(f, after[f]));
    }
    if holds_panel(entries, other) {
        let i = choose|i: int|
            0 <= i < entries.len() && (#[trigger] entries[i]).key == other
                && entries[i].slot is Panel;
        assert(after[i].key == other);
    }
    if holds_panel(after, other) {
        let i = choose|i: int|
            0 <= i < after.len() && (#[trigger] after[i]).key == other && after[i].slot is Panel;
        assert(entries[i].key == other);
    }
}

/// What a lookup does to the counts: a first sighting makes for no more than [`MAX_PROBES`]
/// probes, and a panel is added exactly where a probe was due and a buffer was offered.
proof fn lemma_settled_counts<B>(
    settings: Settings,
    entries: Seq<Entry<B>>,
    used: usize,
    key: Key,
    align: usize,
    offered: Option<B>,
)
    ensures
        ({
            let after = settled(settings, entries, used, key, align, offered);
            let promoted = due(settings, entries, used, key, align) && offered is Some;
            &&& probes(entries) <= MAX_PROBES ==> probes(after) <= MAX_PROBES
            &&& panels(after) == panels(entries) + if promoted {
                1int
            } else {
                0
            }
            &&& panel_bytes(after) == panel_bytes(entries) + if promoted {
                key.bytes as int
            } else {
                0
            }
        }),
{
    let after = settled(settings, entries, used, key, align, offered);
    let f = find(entries, key);
    lemma_find(entries, key);
    lemma_oldest_probe(entries);
    if f == entries.len() {
        if probes(entries) >= MAX_PROBES {
            lemma_counts_remove(entries, oldest_probe(entries));
            assert(after.drop_last() =~= entries.remove(oldest_probe(entries)));
        } else {
            assert(after.drop_last() =~= entries);
        }
    } else if due(settings, entries, used, key, align) && offered is Some {
        lemma_counts_update(entries, f, after[f]);
        assert(after =~= entries.update(f, after[f]));
    }
}

/// What is true of a cache after any steps from an empty one.
proof fn lemma_run<B>(steps: Seq<Step<B>>, budget: usize)
    requires
        within_budget(steps, budget),
    ensures
        ({
            let (e, u) = after_steps(Seq::<Entry<B>>::empty(), 0, steps);
            let keys = answered(Seq::<Entry<B>>::empty(), 0, steps);
            &&& distinct_keys(e)
            &&& probes(e) <= MAX_PROBES
            &&& panels(e) <= MAX_ENTRIES
            &&& u == min_int(panel_bytes(e) as int, usize::MAX as int)
            &&& u <= budget
            &&& keys.no_duplicates()
            &&& panels(e) == keys.len()
            &&& panel_bytes(e) == bytes_of(keys)
            &&& forall|key: Key| #[trigger] keys.contains(key) <==> holds_panel(e, key)
        }),
    decreases steps.len(),
{
    let none = Seq::<Entry<B>>::empty();
    let (e2, u2) = after_steps(none, 0, steps);
    let keys2 = answered(none, 0, steps);
    if steps.len() > 0 {
        let front = steps.drop_last();
        assert(within_budget(front, budget)) by {
            assert forall|i: int| 0 <= i < front.len() implies (#[trigger] front[i] matches Step::Looked(
                l,
            ) ==> l.settings.budget <= budget) by {
                assert(steps[i] == front[i]);
            }
        }
        lemma_run(front, budget);
        let (e, u) = after_steps(none, 0, front);
        let keys = answered(none, 0, front);
        assert(steps[steps.len() - 1] == steps.last());
        match steps.last() {
            Step::Looked(l) => {
                let f = find(e, l.key);
                lemma_find(e, l.key);
                lemma_settled_keys(l.settings, e, u, l.key, l.align, l.offered);
                lemma_settled_counts(l.settings, e, u, l.key, l.align, l.offered);
                lemma_settled_panels(l.settings, e, u, l.key, l.align, l.offered, l.key);
                let some = answer(l.settings, e, u, l.key, l.align, l.offered) is Some;
                let promoted = due(l.settings, e, u, l.key, l.align) && l.offered is Some;
                if promoted {
                    assert(!holds_panel(e, l.key)) by {
                        if holds_panel(e, l.key) {
                            let i = choose|i: int|
                                0 <= i < e.len() && (#[trigger] e[i]).key == l.key
                                    && e[i].slot is Panel;
                            lemma_found(e, i);
                        }
                    }
                    assert(keys2 == keys.push(l.key));
                    assert(keys2.drop_last() =~= keys);
                } else {
                    if some {
                        assert(e[f].key == l.key);
                        assert(holds_panel(e, l.key));
                    }
                    assert(keys2 == keys);
                }
                assert forall|key: Key| #[trigger] keys2.contains(key) <==> holds_panel(
                    e2,
                    key,
                ) by {
                    lemma_settled_panels(l.settings, e, u, l.key, l.align, l.offered, key);
                    assert(keys.contains(key) <==> holds_panel(e, key));
                    if promoted {
                        if keys.contains(key) {
                            let i = choose|i: int| 0 <= i < keys.len() && keys[i] == key;
                            assert(keys2[i] == key);
                        }
                        assert(keys2[keys.len() as int] == l.key);
                        if keys2.contains(key) && key != l.key {
                            let i = choose|i: int| 0 <= i < keys2.len() && keys2[i] == key;
                            assert(keys[i] == key);
                        }
                    }
                }
            },
            Step::Marked(key) => {
                lemma_marked_keys(e, key);
                lemma_marked_panels(e, key, key);
                assert forall|k: Key| #[trigger] keys2.contains(k) <==> holds_panel(e2, k) by {
                    lemma_marked_panels(e, key, k);
                }
            },
        }
    } else {
        assert forall|key: Key| #[trigger] keys2.contains(key) <==> holds_panel(e2, key) by {}
    }
}

/// Whatever is looked up and marked from an empty cache on, no key is held twice, the probes and
/// the panels stay inside their limits, every byte of every panel is accounted for, and the panels
/// stay inside the largest budget that a lookup went by. The account stops at `usize::MAX`, so
/// below that budget it is the sum itself.
pub proof fn law_limits_always_hold<B>(steps: Seq<Step<B>>, budget: usize)
    requires
        within_budget(steps, budget),
    ensures
        ({
            let (e, u) = after_steps(Seq::<Entry<B>>::empty(), 0, steps);
            &&& distinct_keys(e)
            &&& probes(e) <= MAX_PROBES
            &&& panels(e) <= MAX_ENTRIES
            &&& u == min_int(panel_bytes(e) as int, usize::MAX as int)
            &&& u <= budget
            &&& budget < usize::MAX ==> u == panel_bytes(e)
        }),
{
    lemma_run(steps, budget);
}

/// What [`stats`] counts are the operands that were answered with a panel since the cache was
/// empty, each once, and their bytes. The bytes are accounted for up to `usize::MAX`, so below
/// that budget they are the sum itself.
pub proof fn law_stats_count_answers<B>(steps: Seq<Step<B>>, budget: usize)
    requires
        within_budget(steps, budget),
    ensures
        ({
            let (e, u) = after_steps(Seq::<Entry<B>>::empty(), 0, steps);
            let keys = answered(Seq::<Entry<B>>::empty(), 0, steps);
            &&& keys.no_duplicates()
            &&& panels(e) == keys.len()
            &&& u == min_int(bytes_of(keys) as int, usize::MAX as int)
            &&& budget < usize::MAX ==> u == bytes_of(keys)
            &&& forall|key: Key| #[trigger] keys.contains(key) <==> holds_panel(e, key)
        }),
{
    lemma_run(steps, budget);
}

/// Neither number of [`stats`] falls under a lookup, and marking a panel changes neither.
pub proof fn law_stats_never_fall<B>(
    settings: Settings,
    entries: Seq<Entry<B>>,
    used: usize,
    key: Key,
    align: usize,
    offered: Option<B>,
)
    ensures
        panels(settled(settings, entries, used, key, align, offered)) >= panels(entries),
        settled_used(settings, entries, used, key, align, offered) >= used,
        panels(marked(entries, key)) == panels(entries),
        panel_bytes(marked(entries, key)) == panel_bytes(entries),
{
    lemma_settled_counts(settings, entries, used, key, align, offered);
    lemma_marked_panels(entries, key, key);
}

/// The probes of two runs of entries add up.
proof fn lemma_probes_concat<B>(a: Seq<Entry<B>>, b: Seq<Entry<B>>)
    ensures
        probes(a + b) == probes(a) + probes(b),
    decreases b.len(),
{
    if b.len() == 0 {
        assert(a + b =~= a);
    } else {
        lemma_probes_concat(a, b.drop_last());
        assert((a + b).drop_last() =~= a + b.drop_last());
    }
}

/// A probe waits its turn: it stays for as long as fewer than [`MAX_PROBES`]` - 1` younger probes
/// are there, and each lookup of another operand adds one of those at most.
pub proof fn law_probe_waits_its_turn<B>(
    settings: Settings,
    entries: Seq<Entry<B>>,
    used: usize,
    key: Key,
    align: usize,
    offered: Option<B>,
    other: Key,
)
    requires
        distinct_keys(entries),
        probes(entries) <= MAX_PROBES,
        key != other,
        find(entries, other) < entries.len(),
        entries[find(entries, other)].slot is Probe,
        probes(entries.skip(find(entries, other) + 1)) < MAX_PROBES - 1,
    ensures
        ({
            let after = settled(settings, entries, used, key, align, offered);
            let o = find(entries, other);
            let p = find(after, other);
            &&& p < after.len()
            &&& after[p] == entries[o]
            &&& probes(after.skip(p + 1)) <= probes(entries.skip(o + 1)) + 1
        }),
{
    let after = settled(settings, entries, used, key, align, offered);
    let i = find(entries, key);
    let o = find(entries, other);
    let young = entries.skip(o + 1);
    lemma_find(entries, key);
    lemma_find(entries, other);
    lemma_oldest_probe(entries);
    if i == entries.len() {
        lemma_with_probe(entries, key);
        let old = oldest_probe(entries);
        let fresh = Entry::<B> { key, slot: Slot::Probe, filled: false };
        if probes(entries) >= MAX_PROBES && old == o {
            let head = entries.take(o);
            let here = seq![entries[o]];
            assert(entries =~= head + here + young);
            lemma_probes_concat(head + here, young);
            lemma_probes_concat(head, here);
            assert(probes(here) == 1) by {
                assert(here.drop_last() =~= Seq::<Entry<B>>::empty());
                reveal_with_fuel(probes, 2);
            }
            lemma_oldest_probe(head);
            assert(probes(head) == 0) by {
                if oldest_probe(head) < head.len() {
                    assert(entries[oldest_probe(head)].slot is Panel);
                }
            }
            assert(false);
        }
        let at = if probes(entries) >= MAX_PROBES {
            o - 1
        } else {
            o
        };
        assert(after[at] == entries[o]);
        lemma_found(after, at);
        assert(after.skip(at + 1) =~= young.push(fresh));
        assert(young.push(fresh).drop_last() =~= young);
    } else {
        lemma_settled_keys(settings, entries, used, key, align, offered);
        assert(after[o] == entries[o]);
        lemma_found(after, o);
        if after != entries && i > o {
            assert(after.skip(o + 1) =~= young.update(i - o - 1, after[i]));
            lemma_counts_update(young, i - o - 1, after[i]);
        } else {
            assert(after.skip(o + 1) =~= young);
        }
    }
}

/// A product with [`FINGERPRINT_PRIME`] loses nothing, modulo 2^64.
proof fn lemma_prime_is_invertible(x: u64, y: u64)
    requires
        vstd::wrapping::u64_specs::wrapping_mul(x, FINGERPRINT_PRIME)
            == vstd::wrapping::u64_specs::wrapping_mul(y, FINGERPRINT_PRIME),
    ensures
        x == y,
{
    let range: int = 0x1_0000_0000_0000_0000;
    let prime = FINGERPRINT_PRIME as int;
    let inverse: int = 0xce965057aff6957b;
    let carry: int = 0xce9650590f;
    assert(prime * inverse == 1 + range * carry);
    let (a, b) = (x * prime, y * prime);
    vstd::arithmetic::div_mod::lemma_fundamental_div_mod(a, range);
    vstd::arithmetic::div_mod::lemma_fundamental_div_mod(b, range);
    vstd::arithmetic::div_mod::lemma_mod_bound(a, range);
    vstd::arithmetic::div_mod::lemma_mod_bound(b, range);
    let d = x - y;
    let q = a / range - b / range;
    assert(d * prime == range * q);
    assert(d == range * (q * inverse - d * carry)) by (nonlinear_arith)
        requires
            d * prime == range * q,
            prime * inverse == 1 + range * carry,
    ;
    let t = q * inverse - d * carry;
    assert(-range < d < range);
    assert(d == range * t);
}

/// Where one sampled byte differs, and nothing else does, the fingerprint differs: an address that
/// was freed and reused for such contents misses.
pub proof fn law_changed_byte_changes_fingerprint(
    m: usize,
    k: usize,
    a: Seq<u8>,
    b: Seq<u8>,
    p: int,
)
    requires
        a.len() == b.len(),
        0 <= p < a.len(),
        a[p] != b[p],
        forall|q: int| 0 <= q < a.len() && q != p ==> #[trigger] a[q] == b[q],
    ensures
        fingerprint_spec(m, k, a) != fingerprint_spec(m, k, b),
{
    lemma_changed_byte(FINGERPRINT_SEED ^ ((m as u64) << 32u64) ^ (k as u64), a, b, p);
}

/// Where one byte differs, and nothing else does, what is mixed differs.
proof fn lemma_changed_byte(h: u64, a: Seq<u8>, b: Seq<u8>, p: int)
    requires
        a.len() == b.len(),
        0 <= p < a.len(),
        a[p] != b[p],
        forall|q: int| 0 <= q < a.len() && q != p ==> #[trigger] a[q] == b[q],
    ensures
        mixed(h, a) != mixed(h, b),
    decreases a.len(),
{
    let (x, y) = (mixed(h, a.drop_last()), mixed(h, b.drop_last()));
    let (c, d) = (a.last() as u64, b.last() as u64);
    if p == a.len() - 1 {
        assert(a.drop_last() =~= b.drop_last());
        assert(c != d);
        assert(x ^ c != x ^ d) by (bit_vector)
            requires
                c != d,
        ;
    } else {
        lemma_changed_byte(h, a.drop_last(), b.drop_last(), p);
        assert(c == d);
        assert(x ^ c != y ^ c) by (bit_vector)
            requires
                x != y,
        ;
    }
    if mixed(h, a) == mixed(h, b) {
        lemma_prime_is_invertible(x ^ c, y ^ d);
    }
}

/// Sample `step` out of eight lies `step` eighths of the way down the operand and as far across it,
/// rounded down, and inside it.
pub proof fn law_samples_are_spread_evenly(step: int, m: int, k: int)
    requires
        0 <= step < 8,
        0 < m,
        0 < k,
    ensures
        ({
            let (i, j) = sample_spec(step, m, k);
            &&& 0 <= i < m
            &&& 0 <= j < k
            &&& 8 * i <= step * m < 8 * i + 8
            &&& 8 * j <= step * k < 8 * j + 8
        }),
{
    assert(step * m <= 7 * m && step * k <= 7 * k && 0 <= step * m && 0 <= step * k)
        by (nonlinear_arith)
        requires
            0 <= step <= 7,
            0 < m,
            0 < k,
    ;
}

/// The samples of an operand hold as many bytes as their elements have, each at its place.
proof fn lemma_sampled(lhs: Seq<u8>, size: int, at: Strides, m: int, k: int, n: nat)
    requires
        n <= 8,
        0 < m,
        0 < k,
        0 <= size,
        operand_fits(at, size, m, k, lhs.len() as int),
    ensures
        sampled(lhs, size, at, m, k, n).len() == n * size,
        forall|s: int, b: int|
            0 <= s < n && 0 <= b < size ==> #[trigger] sampled(lhs, size, at, m, k, n)[s * size + b]
                == lhs[at.at(sample_spec(s, m, k).0, sample_spec(s, m, k).1) * size + b],
    decreases n,
{
    let all = sampled(lhs, size, at, m, k, n);
    if n == 0 {
        assert(n * size == 0) by (nonlinear_arith)
            requires
                n == 0,
        ;
    } else {
        let last = n - 1;
        let front = sampled(lhs, size, at, m, k, last as nat);
        lemma_sampled(lhs, size, at, m, k, last as nat);
        law_samples_are_spread_evenly(last, m, k);
        let (i, j) = sample_spec(last, m, k);
        let q = at.at(i, j);
        let p = q * size;
        assert((q + 1) * size == p + size && 0 <= p) by (nonlinear_arith)
            requires
                p == q * size,
                q >= 0,
                size >= 0,
        ;
        let part = lhs.subrange(p, p + size);
        assert(n * size == last * size + size) by (nonlinear_arith)
            requires
                last == n - 1,
        ;
        assert(all == front + part);
        assert forall|s: int, b: int| 0 <= s < n && 0 <= b < size implies #[trigger] all[s * size
            + b] == lhs[at.at(sample_spec(s, m, k).0, sample_spec(s, m, k).1) * size + b] by {
            if s < last {
                assert(0 <= s * size && s * size + b < last * size) by (nonlinear_arith)
                    requires
                        0 <= s < last,
                        0 <= b < size,
                ;
                assert(all[s * size + b] == front[s * size + b]);
            } else {
                assert(all[s * size + b] == part[b]);
            }
        }
    }
}

/// The samples of an operand hold every byte of eight elements: of the one that lies `s` eighths of
/// the way down and across, rounded down, for every `s` below eight.
pub proof fn law_samples_hold_every_byte(
    lhs: Seq<u8>,
    size: int,
    at: Strides,
    m: int,
    k: int,
    s: int,
    b: int,
    i: int,
    j: int,
)
    requires
        0 < m,
        0 < k,
        operand_fits(at, size, m, k, lhs.len() as int),
        0 <= s < 8,
        0 <= b < size,
        8 * i <= s * m < 8 * i + 8,
        8 * j <= s * k < 8 * j + 8,
    ensures
        sampled(lhs, size, at, m, k, 8).len() == 8 * size,
        sampled(lhs, size, at, m, k, 8)[s * size + b] == lhs[at.at(i, j) * size + b],
{
    lemma_sampled(lhs, size, at, m, k, 8);
    law_samples_are_spread_evenly(s, m, k);
}

/// An address that was freed and reused for other contents misses: where two operands with the same
/// parameters differ in one sampled byte, whichever byte of whichever sample that is, and in no
/// other sampled byte, their keys differ.
pub proof fn law_changed_operand_has_another_key(
    type_id: TypeId,
    ptr: usize,
    lhs: Seq<u8>,
    other: Seq<u8>,
    size: usize,
    at: Strides,
    m: usize,
    k: usize,
    kc: usize,
    mr: usize,
    bytes: usize,
    s: int,
    b: int,
    i: int,
    j: int,
)
    requires
        0 < m,
        0 < k,
        operand_fits(at, size as int, m as int, k as int, lhs.len() as int),
        operand_fits(at, size as int, m as int, k as int, other.len() as int),
        0 <= s < 8,
        0 <= b < size,
        8 * i <= s * m < 8 * i + 8,
        8 * j <= s * k < 8 * j + 8,
        lhs[at.at(i, j) * size + b] != other[at.at(i, j) * size + b],
        forall|s2: int, b2: int, i2: int, j2: int|
            #![trigger lhs[at.at(i2, j2) * size + b2], s2 * m]
            0 <= s2 < 8 && 0 <= b2 < size && (s2 != s || b2 != b) && 8 * i2 <= s2 * m < 8 * i2 + 8
                && 8 * j2 <= s2 * k < 8 * j2 + 8 ==> lhs[at.at(i2, j2) * size + b2]
                == other[at.at(i2, j2) * size + b2],
    ensures
        operand_key(type_id, ptr, lhs, size, at, m, k, kc, mr, bytes) != operand_key(
            type_id,
            ptr,
            other,
            size,
            at,
            m,
            k,
            kc,
            mr,
            bytes,
        ),
{
    let (z, mi, ki) = (size as int, m as int, k as int);
    let x = sampled(lhs, z, at, mi, ki, 8);
    let y = sampled(other, z, at, mi, ki, 8);
    let p = s * z + b;
    law_samples_hold_every_byte(lhs, z, at, mi, ki, s, b, i, j);
    law_samples_hold_every_byte(other, z, at, mi, ki, s, b, i, j);
    assert(0 <= p < 8 * z) by (nonlinear_arith)
        requires
            0 <= s < 8,
            0 <= b < z,
            p == s * z + b,
    ;
    assert forall|q: int| 0 <= q < x.len() && q != p implies #[trigger] x[q] == y[q] by {
        let s2 = q / z;
        let b2 = q % z;
        vstd::arithmetic::div_mod::lemma_fundamental_div_mod(q, z);
        assert(0 <= s2 < 8 && 0 <= b2 < z && q == s2 * z + b2) by (nonlinear_arith)
            requires
                0 <= q < 8 * z,
                z > 0,
                s2 == q / z,
                b2 == q % z,
                q == z * s2 + b2,
        ;
        let (i2, j2) = sample_spec(s2, mi, ki);
        law_samples_are_spread_evenly(s2, mi, ki);
        law_samples_hold_every_byte(lhs, z, at, mi, ki, s2, b2, i2, j2);
        law_samples_hold_every_byte(other, z, at, mi, ki, s2, b2, i2, j2);
        assert(s2 != s || b2 != b);
        assert(8 * i2 <= s2 * m);
        assert(lhs[at.at(i2, j2) * size + b2] == other[at.at(i2, j2) * size + b2]);
    }
    law_changed_byte_changes_fingerprint(m, k, x, y, p);
}

/// Calls with different parameters have different keys: a key gives back the type, the address, the
/// shape, the strides and the layout that it was made from.
pub proof fn law_key_tells_calls_apart(
    type1: TypeId,
    ptr1: usize,
    samples1: Seq<u8>,
    m1: usize,
    k1: usize,
    rs1: isize,
    cs1: isize,
    kc1: usize,
    mr1: usize,
    bytes1: usize,
    type2: TypeId,
    ptr2: usize,
    samples2: Seq<u8>,
    m2: usize,
    k2: usize,
    rs2: isize,
    cs2: isize,
    kc2: usize,
    mr2: usize,
    bytes2: usize,
)
    requires
        key_spec(type1, ptr1, samples1, m1, k1, rs1, cs1, kc1, mr1, bytes1) == key_spec(
            type2,
            ptr2,
            samples2,
            m2,
            k2,
            rs2,
            cs2,
            kc2,
            mr2,
            bytes2,
        ),
    ensures
        type1 == type2,
        ptr1 == ptr2,
        m1 == m2,
        k1 == k2,
        rs1 == rs2,
        cs1 == cs2,
        kc1 == kc2,
        mr1 == mr2,
        bytes1 == bytes2,
        fingerprint_spec(m1, k1, samples1) == fingerprint_spec(m2, k2, samples2),
{
}

/// Operands that are looked up with different parameters have different keys.
pub proof fn law_operand_key_tells_calls_apart(
    type1: TypeId,
    ptr1: usize,
    lhs1: Seq<u8>,
    size1: usize,
    at1: Strides,
    m1: usize,
    k1: usize,
    kc1: usize,
    mr1: usize,
    bytes1: usize,
    type2: TypeId,
    ptr2: usize,
    lhs2: Seq<u8>,
    size2: usize,
    at2: Strides,
    m2: usize,
    k2: usize,
    kc2: usize,
    mr2: usize,
    bytes2: usize,
)
    requires
        operand_key(type1, ptr1, lhs1, size1, at1, m1, k1, kc1, mr1, bytes1) == operand_key(
            type2,
            ptr2,
            lhs2,
            size2,
            at2,
            m2,
            k2,
            kc2,
            mr2,
            bytes2,
        ),
    ensures
        type1 == type2,
        ptr1 == ptr2,
        at1.rs == at2.rs,
        at1.cs == at2.cs,
        m1 == m2,
        k1 == k2,
        kc1 == kc2,
        mr1 == mr2,
        bytes1 == bytes2,
        operand_key(type1, ptr1, lhs1, size1, at1, m1, k1, kc1, mr1, bytes1).lhs_rs == at1.rs,
        operand_key(type1, ptr1, lhs1, size1, at1, m1, k1, kc1, mr1, bytes1).lhs_cs == at1.cs,
{
}

/// `key` was looked up in the course of `steps`.
pub open spec fn was_looked_up<B>(steps: Seq<Step<B>>, key: Key) -> bool {
    exists|i: int|
        0 <= i < steps.len() && (#[trigger] steps[i] matches Step::Looked(l) && l.key == key)
}

/// Every entry stands for an operand that was looked up.
proof fn lemma_entries_were_looked_up<B>(steps: Seq<Step<B>>)
    ensures
        ({
            let (e, u) = after_steps(Seq::<Entry<B>>::empty(), 0, steps);
            forall|i: int| 0 <= i < e.len() ==> was_looked_up(steps, (#[trigger] e[i]).key)
        }),
    decreases steps.len(),
{
    let none = Seq::<Entry<B>>::empty();
    if steps.len() > 0 {
        let front = steps.drop_last();
        lemma_entries_were_looked_up(front);
        let (e, u) = after_steps(none, 0, front);
        let (e2, u2) = after_steps(none, 0, steps);
        assert forall|key: Key| was_looked_up(front, key) implies #[trigger] was_looked_up(
            steps,
            key,
        ) by {
            let i = choose|i: int|
                0 <= i < front.len() && (#[trigger] front[i] matches Step::Looked(l) && l.key
                    == key);
            assert(steps[i] == front[i]);
        }
        assert forall|i: int| 0 <= i < e2.len() implies was_looked_up(
            steps,
            (#[trigger] e2[i]).key,
        ) by {
            match steps.last() {
                Step::Looked(l) => {
                    lemma_find(e, l.key);
                    lemma_oldest_probe(e);
                    assert(steps[steps.len() - 1] == steps.last());
                    assert(was_looked_up(steps, l.key));
                    if e2[i].key != l.key {
                        if find(e, l.key) == e.len() && probes(e) >= MAX_PROBES && oldest_probe(e)
                            <= i {
                            assert(e2[i] == e[i + 1]);
                        } else {
                            assert(e2[i] == e[i]);
                        }
                    }
                },
                Step::Marked(key) => {
                    lemma_find(e, key);
                    assert(e2[i].key == e[i].key);
                },
            }
        }
    }
}

/// A panel that is answered to a call was reserved by a call with the very same parameters: from an
/// empty cache on, whatever was looked up and marked, an operand is answered only if it was looked
/// up before with the same type, address, shape, strides and layout, and the same fingerprint.
pub proof fn law_panel_was_reserved_by_same_call<B>(
    steps: Seq<Step<B>>,
    settings: Settings,
    align: usize,
    offered: Option<B>,
    type_id: TypeId,
    ptr: usize,
    samples: Seq<u8>,
    m: usize,
    k: usize,
    lhs_rs: isize,
    lhs_cs: isize,
    kc: usize,
    mr: usize,
    bytes: usize,
)
    requires
        ({
            let (e, u) = after_steps(Seq::<Entry<B>>::empty(), 0, steps);
            let key = key_spec(type_id, ptr, samples, m, k, lhs_rs, lhs_cs, kc, mr, bytes);
            answer(settings, e, u, key, align, offered) is Some
        }),
    ensures
        exists|i: int|
            0 <= i < steps.len() && (#[trigger] steps[i] matches Step::Looked(l) && {
                &&& l.key.type_id == type_id
                &&& l.key.ptr == ptr
                &&& l.key.m == m
                &&& l.key.k == k
                &&& l.key.lhs_rs == lhs_rs
                &&& l.key.lhs_cs == lhs_cs
                &&& l.key.kc == kc
                &&& l.key.mr == mr
                &&& l.key.bytes == bytes
                &&& l.key.fingerprint == fingerprint_spec(m, k, samples)
            }),
{
    let (e, u) = after_steps(Seq::<Entry<B>>::empty(), 0, steps);
    let key = key_spec(type_id, ptr, samples, m, k, lhs_rs, lhs_cs, kc, mr, bytes);
    lemma_find(e, key);
    lemma_entries_were_looked_up(steps);
    assert(e[find(e, key)].key == key);
    assert(was_looked_up(steps, key));
    let i = choose|i: int|
        0 <= i < steps.len() && (#[trigger] steps[i] matches Step::Looked(l) && l.key == key);
    assert(steps[i] is Looked);
}

/// What is mixed into two different values stays different.
proof fn lemma_mixed_is_injective(g: u64, h: u64, bytes: Seq<u8>)
    requires
        g != h,
    ensures
        mixed(g, bytes) != mixed(h, bytes),
    decreases bytes.len(),
{
    if bytes.len() > 0 {
        lemma_mixed_is_injective(g, h, bytes.drop_last());
        let (x, y) = (mixed(g, bytes.drop_last()), mixed(h, bytes.drop_last()));
        let c = bytes.last() as u64;
        assert(x ^ c != y ^ c) by (bit_vector)
            requires
                x != y,
        ;
        if mixed(g, bytes) == mixed(h, bytes) {
            lemma_prime_is_invertible(x ^ c, y ^ c);
        }
    }
}

/// The shape goes into the fingerprint: operands of different shapes, with fewer than 2^32 rows and
/// columns, have different fingerprints though their samples are the same.
pub proof fn law_shape_changes_fingerprint(
    m1: usize,
    k1: usize,
    m2: usize,
    k2: usize,
    samples: Seq<u8>,
)
    requires
        m1 <= 0xffff_ffff,
        k1 <= 0xffff_ffff,
        m2 <= 0xffff_ffff,
        k2 <= 0xffff_ffff,
        m1 != m2 || k1 != k2,
    ensures
        fingerprint_spec(m1, k1, samples) != fingerprint_spec(m2, k2, samples),
{
    let (a, b, c, d) = (m1 as u64, k1 as u64, m2 as u64, k2 as u64);
    let seed = FINGERPRINT_SEED;
    assert(seed ^ (a << 32u64) ^ b != seed ^ (c << 32u64) ^ d) by (bit_vector)
        requires
            a <= 0xffff_ffff,
            b <= 0xffff_ffff,
            c <= 0xffff_ffff,
            d <= 0xffff_ffff,
            a != c || b != d,
    ;
    lemma_mixed_is_injective(
        seed ^ (a << 32u64) ^ b,
        seed ^ (c << 32u64) ^ d,
        samples,
    );
}

/// The allocator is asked for the bytes of the panel, on the boundary that was asked for, or on any
/// where none was; and it is asked only for an operand that is due for a buffer.
pub proof fn law_buffer_is_as_asked_for<B, F: FnOnce(usize, usize) -> Option<B>>(
    settings: Settings,
    before: PackedCache<B>,
    after: PackedCache<B>,
    key: Key,
    align: usize,
    alloc: F,
    offered: Option<B>,
    r: Option<Panel<B>>,
)
    requires
        looked_up(settings, before, after, key, align, alloc, offered, r),
    ensures
        due(settings, before@, before.used_bytes(), key, align) && align > 0 ==> call_ensures(
            alloc,
            (key.bytes, align),
            offered,
        ),
        due(settings, before@, before.used_bytes(), key, align) && align == 0 ==> call_ensures(
            alloc,
            (key.bytes, 1usize),
            offered,
        ),
        !due(settings, before@, before.used_bytes(), key, align) ==> offered is None,
{
}

/// A probe is due for a buffer exactly where its bytes still fit into the budget, one more panel is
/// allowed, and a buffer of its size and boundary can exist.
pub proof fn law_due_where_there_is_room<B>(
    settings: Settings,
    entries: Seq<Entry<B>>,
    used: usize,
    key: Key,
    align: usize,
    i: int,
)
    requires
        distinct_keys(entries),
        0 <= i < entries.len(),
        entries[i].key == key,
        settings.budget < usize::MAX,
        align > 0,
    ensures
        due(settings, entries, used, key, align) <==> {
            &&& entries[i].slot is Probe
            &&& used + key.bytes <= settings.budget
            &&& panels(entries) < 256
            &&& valid_layout(key.bytes, align)
        },
{
    lemma_found(entries, i);
}

/// Every entry is a probe or a panel, so what [`probe_count`] and [`panel_count`] answer adds up to
/// the number of entries.
pub proof fn law_entries_are_probes_or_panels<B>(entries: Seq<Entry<B>>)
    ensures
        probes(entries) + panels(entries) == entries.len(),
        panels(entries) == 0 <==> forall|i: int|
            0 <= i < entries.len() ==> (#[trigger] entries[i]).slot is Probe,
        panels(entries) == 0 ==> panel_bytes(entries) == 0,
    decreases entries.len(),
{
    if entries.len() > 0 {
        let front = entries.drop_last();
        law_entries_are_probes_or_panels(front);
        if panels(entries) == 0 {
            assert forall|i: int| 0 <= i < entries.len() implies (#[trigger] entries[i]).slot is Probe by {
                if i < front.len() {
                    assert(front[i].slot is Probe);
                }
            }
        } else if forall|i: int|
            0 <= i < entries.len() ==> (#[trigger] entries[i]).slot is Probe {
            assert forall|i: int| 0 <= i < front.len() implies (#[trigger] front[i]).slot is Probe by {
                assert(entries[i].slot is Probe);
            }
            assert(entries[entries.len() - 1].slot is Probe);
        }
    }
}

/// A budget is counted in units of 2^20 bytes, up to what a `usize` can count.
pub proof fn law_budget_is_in_megabytes(mb: usize)
    ensures
        mb * 1048576 <= usize::MAX ==> megabytes(mb as int) == mb * 1048576,
        mb * 1048576 > usize::MAX ==> megabytes(mb as int) == usize::MAX,
{
}

/// Swapping two neighbouring bytes that differ changes what is mixed.
proof fn lemma_swapped_bytes(h: u64, a: Seq<u8>, b: Seq<u8>, p: int)
    requires
        a.len() == b.len(),
        0 <= p,
        p + 1 < a.len(),
        a[p] != a[p + 1],
        b[p] == a[p + 1],
        b[p + 1] == a[p],
        forall|q: int| 0 <= q < a.len() && q != p && q != p + 1 ==> #[trigger] a[q] == b[q],
    ensures
        mixed(h, a) != mixed(h, b),
    decreases a.len(),
{
    let (af, bf) = (a.drop_last(), b.drop_last());
    let (x, y) = (mixed(h, af), mixed(h, bf));
    let (c, d) = (a.last() as u64, b.last() as u64);
    if p + 1 == a.len() - 1 {
        assert(af.drop_last() =~= bf.drop_last());
        let g = mixed(h, af.drop_last());
        lemma_prime_spreads(g, c, d);
        assert(af.last() as u64 == d);
        assert(bf.last() as u64 == c);
    } else {
        lemma_swapped_bytes(h, af, bf, p);
        assert(c == d);
        assert(x ^ c != y ^ c) by (bit_vector)
            requires
                x != y,
        ;
    }
    if mixed(h, a) == mixed(h, b) {
        lemma_prime_is_invertible(x ^ c, y ^ d);
    }
}

/// One step of a fingerprint carries a byte further than the next byte reaches.
proof fn lemma_prime_spreads(g: u64, c: u64, d: u64)
    requires
        c < 256,
        d < 256,
        c != d,
    ensures
        vstd::wrapping::u64_specs::wrapping_mul(g ^ d, FINGERPRINT_PRIME) ^ c
            != vstd::wrapping::u64_specs::wrapping_mul(g ^ c, FINGERPRINT_PRIME) ^ d,
{
    let (x, y) = (g ^ d, g ^ c);
    let u = vstd::wrapping::u64_specs::wrapping_mul(x, FINGERPRINT_PRIME);
    let v = vstd::wrapping::u64_specs::wrapping_mul(y, FINGERPRINT_PRIME);
    assert(x / 256 == y / 256 && x != y) by (bit_vector)
        requires
            x == g ^ d,
            y == g ^ c,
            c < 256,
            d < 256,
            c != d,
    ;
    if u ^ c == v ^ d {
        assert(u / 256 == v / 256) by (bit_vector)
            requires
                u ^ c == v ^ d,
                c < 256,
                d < 256,
        ;
        let range: int = 0x1_0000_0000_0000_0000;
        let prime = FINGERPRINT_PRIME as int;
        let (a, b) = (x * prime, y * prime);
        vstd::arithmetic::div_mod::lemma_fundamental_div_mod(a, range);
        vstd::arithmetic::div_mod::lemma_fundamental_div_mod(b, range);
        vstd::arithmetic::div_mod::lemma_mod_bound(a, range);
        vstd::arithmetic::div_mod::lemma_mod_bound(b, range);
        let t = x - y;
        let q = a / range - b / range;
        assert(-256 < t < 256 && t != 0);
        assert(-256 < u - v < 256);
        assert(u == a % range && v == b % range);
        assert(a == range * (a / range) + u && b == range * (b / range) + v);
        assert(t * prime == a - b) by (nonlinear_arith)
            requires
                t == x - y,
                a == x * prime,
                b == y * prime,
        ;
        assert(t * prime == range * q + (u - v));
    }
}

/// The fingerprint depends on where a byte stands: swapping two neighbouring sampled bytes that
/// differ changes it.
pub proof fn law_swapped_bytes_change_fingerprint(
    m: usize,
    k: usize,
    a: Seq<u8>,
    b: Seq<u8>,
    p: int,
)
    requires
        a.len() == b.len(),
        0 <= p,
        p + 1 < a.len(),
        a[p] != a[p + 1],
        b[p] == a[p + 1],
        b[p + 1] == a[p],
        forall|q: int| 0 <= q < a.len() && q != p && q != p + 1 ==> #[trigger] a[q] == b[q],
    ensures
        fingerprint_spec(m, k, a) != fingerprint_spec(m, k, b),
{
    lemma_swapped_bytes(FINGERPRINT_SEED ^ ((m as u64) << 32u64) ^ (k as u64), a, b, p);
}

/// Nothing but a switched-off cache, a null address, an empty operand or an empty panel makes an
/// operand unsuitable.
pub proof fn law_only_empty_operands_are_unsuitable(
    settings: Settings,
    ptr: usize,
    m: usize,
    k: usize,
    bytes: usize,
)
    ensures
        settings.enabled && ptr > 0 && m > 0 && k > 0 && bytes > 0 ==> suitable_spec(
            settings,
            ptr,
            m,
            k,
            bytes,
        ),
        !settings.enabled || ptr == 0 || m == 0 || k == 0 || bytes == 0 ==> !suitable_spec(
            settings,
            ptr,
            m,
            k,
            bytes,
        ),
{
}

/// A budget that writes a number is that many megabytes, and any other, or none, is 256 of them.
pub proof fn law_budget_follows_its_setting(s: Seq<char>)
    ensures
        number(s) is Some && number(s)->0 * 1048576 <= usize::MAX ==> budget_spec(Some(s))
            == number(s)->0 * 1048576,
        number(s) is Some && number(s)->0 * 1048576 > usize::MAX ==> budget_spec(Some(s))
            == usize::MAX,
        number(s) is None ==> budget_spec(Some(s)) == 268435456,
        budget_spec(None) == 268435456,
{
}

} // verus!
