//! The vector arithmetic that the kernels are written against.
use crate::element::Element;
use vstd::prelude::*;

verus! {

/// An instruction set that code can be run under.
pub trait Simd: Copy + Send + Sync {
    /// Runs `f`, once, with the instruction set switched on.
    fn vectorize<R, F: FnOnce() -> R>(self, f: F) -> (r: R)
        requires
            call_requires(f, ()),
        ensures
            call_ensures(f, (), r),
    ;
}

/// Arithmetic on operands of type `Lhs` and `Rhs` that is carried out in `Acc` and stored as
/// `Dst`, one value at a time or `simd_width` values at a time.
///
/// A vector operation does in each lane what the scalar operation of the same name does.
///
/// As with [`Element`], the defaults of the spec functions say nothing.
pub trait MixedSimd<Lhs, Rhs, Dst, Acc>: Simd {
    /// A vector of left-hand operands.
    type LhsN: Copy;

    /// A vector of right-hand operands.
    type RhsN: Copy;

    /// A vector of destination values.
    type DstN: Copy;

    /// A vector of accumulators.
    type AccN: Copy;

    /// The number of lanes.
    open spec fn width() -> nat {
        arbitrary()
    }

    /// The product of two accumulators.
    open spec fn mult_spec(self, lhs: Acc, rhs: Acc) -> Acc {
        arbitrary()
    }

    /// The sum of two accumulators.
    open spec fn add_spec(self, lhs: Acc, rhs: Acc) -> Acc {
        arbitrary()
    }

    /// `lhs * rhs + acc`, with whatever rounding the instruction set gives it.
    open spec fn mult_add_spec(self, lhs: Acc, rhs: Acc, acc: Acc) -> Acc {
        arbitrary()
    }

    /// A left-hand operand as an accumulator.
    open spec fn from_lhs_spec(self, lhs: Lhs) -> Acc {
        arbitrary()
    }

    /// A right-hand operand as an accumulator.
    open spec fn from_rhs_spec(self, rhs: Rhs) -> Acc {
        arbitrary()
    }

    /// A destination value as an accumulator.
    open spec fn from_dst_spec(self, dst: Dst) -> Acc {
        arbitrary()
    }

    /// An accumulator as a destination value.
    open spec fn into_dst_spec(self, acc: Acc) -> Dst {
        arbitrary()
    }

    /// The lanes of a vector of left-hand operands.
    open spec fn lhs_lanes(self, v: Self::LhsN) -> Seq<Lhs> {
        arbitrary()
    }

    /// The lanes of a vector of right-hand operands.
    open spec fn rhs_lanes(self, v: Self::RhsN) -> Seq<Rhs> {
        arbitrary()
    }

    /// The lanes of a vector of destination values.
    open spec fn dst_lanes(self, v: Self::DstN) -> Seq<Dst> {
        arbitrary()
    }

    /// The lanes of a vector of accumulators.
    open spec fn acc_lanes(self, v: Self::AccN) -> Seq<Acc> {
        arbitrary()
    }

    /// The number of lanes.
    fn simd_width() -> (r: usize)
        ensures
            r == Self::width(),
            0 < r <= usize::MAX / 8,
    ;

    /// Multiplies.
    fn mult(self, lhs: Acc, rhs: Acc) -> (r: Acc)
        ensures
            r == self.mult_spec(lhs, rhs),
    ;

    /// Adds.
    fn add(self, lhs: Acc, rhs: Acc) -> (r: Acc)
        ensures
            r == self.add_spec(lhs, rhs),
    ;

    /// Multiplies and adds.
    fn mult_add(self, lhs: Acc, rhs: Acc, acc: Acc) -> (r: Acc)
        ensures
            r == self.mult_add_spec(lhs, rhs, acc),
    ;

    /// Widens a left-hand operand.
    fn from_lhs(self, lhs: Lhs) -> (r: Acc)
        ensures
            r == self.from_lhs_spec(lhs),
    ;

    /// Widens a right-hand operand.
    fn from_rhs(self, rhs: Rhs) -> (r: Acc)
        ensures
            r == self.from_rhs_spec(rhs),
    ;

    /// Widens a destination value.
    fn from_dst(self, dst: Dst) -> (r: Acc)
        ensures
            r == self.from_dst_spec(dst),
    ;

    /// Narrows an accumulator.
    fn into_dst(self, acc: Acc) -> (r: Dst)
        ensures
            r == self.into_dst_spec(acc),
    ;

    /// Reads the lanes that start at `at`.
    fn load_lhs(self, s: &[Lhs], at: usize) -> (r: Self::LhsN)
        requires
            at + Self::width() <= s@.len(),
        ensures
            self.lhs_lanes(r) == s@.subrange(at as int, at + Self::width()),
    ;

    /// Reads the lanes that start at `at`.
    fn load_rhs(self, s: &[Rhs], at: usize) -> (r: Self::RhsN)
        requires
            at + Self::width() <= s@.len(),
        ensures
            self.rhs_lanes(r) == s@.subrange(at as int, at + Self::width()),
    ;

    /// Reads the lanes that start at `at`.
    fn load_dst(self, s: &[Dst], at: usize) -> (r: Self::DstN)
        requires
            at + Self::width() <= s@.len(),
        ensures
            self.dst_lanes(r) == s@.subrange(at as int, at + Self::width()),
    ;

    /// Writes the lanes of `v` from position `at` on.
    fn store_dst(self, s: &mut [Dst], at: usize, v: Self::DstN)
        requires
            at + Self::width() <= old(s)@.len(),
            self.dst_lanes(v).len() == Self::width(),
        ensures
            final(s)@ == overwritten(old(s)@, at as int, self.dst_lanes(v)),
    ;

    /// Reads one lane.
    fn acc_lane(self, v: Self::AccN, lane: usize) -> (r: Acc)
        requires
            lane < Self::width(),
            self.acc_lanes(v).len() == Self::width(),
        ensures
            r == self.acc_lanes(v)[lane as int],
    ;

    /// One value in every lane.
    fn simd_splat(self, v: Acc) -> (r: Self::AccN)
        ensures
            self.acc_lanes(r) == Seq::new(Self::width(), |l: int| v),
    ;

    /// Widens each lane.
    fn simd_from_lhs(self, v: Self::LhsN) -> (r: Self::AccN)
        requires
            self.lhs_lanes(v).len() == Self::width(),
        ensures
            self.acc_lanes(r) == Seq::new(
                Self::width(),
                |l: int| self.from_lhs_spec(self.lhs_lanes(v)[l]),
            ),
    ;

    /// Widens each lane.
    fn simd_from_rhs(self, v: Self::RhsN) -> (r: Self::AccN)
        requires
            self.rhs_lanes(v).len() == Self::width(),
        ensures
            self.acc_lanes(r) == Seq::new(
                Self::width(),
                |l: int| self.from_rhs_spec(self.rhs_lanes(v)[l]),
            ),
    ;

    /// Widens each lane.
    fn simd_from_dst(self, v: Self::DstN) -> (r: Self::AccN)
        requires
            self.dst_lanes(v).len() == Self::width(),
        ensures
            self.acc_lanes(r) == Seq::new(
                Self::width(),
                |l: int| self.from_dst_spec(self.dst_lanes(v)[l]),
            ),
    ;

    /// Narrows each lane.
    fn simd_into_dst(self, v: Self::AccN) -> (r: Self::DstN)
        requires
            self.acc_lanes(v).len() == Self::width(),
        ensures
            self.dst_lanes(r) == Seq::new(
                Self::width(),
                |l: int| self.into_dst_spec(self.acc_lanes(v)[l]),
            ),
    ;

    /// Multiplies lane by lane.
    fn simd_mul(self, lhs: Self::AccN, rhs: Self::AccN) -> (r: Self::AccN)
        requires
            self.acc_lanes(lhs).len() == Self::width(),
            self.acc_lanes(rhs).len() == Self::width(),
        ensures
            self.acc_lanes(r) == Seq::new(
                Self::width(),
                |l: int| self.mult_spec(self.acc_lanes(lhs)[l], self.acc_lanes(rhs)[l]),
            ),
    ;

    /// Adds lane by lane.
    fn simd_add(self, lhs: Self::AccN, rhs: Self::AccN) -> (r: Self::AccN)
        requires
            self.acc_lanes(lhs).len() == Self::width(),
            self.acc_lanes(rhs).len() == Self::width(),
        ensures
            self.acc_lanes(r) == Seq::new(
                Self::width(),
                |l: int| self.add_spec(self.acc_lanes(lhs)[l], self.acc_lanes(rhs)[l]),
            ),
    ;

    /// Multiplies and adds lane by lane.
    fn simd_mult_add(self, lhs: Self::AccN, rhs: Self::AccN, acc: Self::AccN) -> (r: Self::AccN)
        requires
            self.acc_lanes(lhs).len() == Self::width(),
            self.acc_lanes(rhs).len() == Self::width(),
            self.acc_lanes(acc).len() == Self::width(),
        ensures
            self.acc_lanes(r) == Seq::new(
                Self::width(),
                |l: int|
                    self.mult_add_spec(
                        self.acc_lanes(lhs)[l],
                        self.acc_lanes(rhs)[l],
                        self.acc_lanes(acc)[l],
                    ),
            ),
    ;
}

/// `s` with `part` written over it from position `at` on.
pub open spec fn overwritten<T>(s: Seq<T>, at: int, part: Seq<T>) -> Seq<T> {
    Seq::new(
        s.len(),
        |p: int|
            if at <= p < at + part.len() {
                part[p - at]
            } else {
                s[p]
            },
    )
}

/// Plain scalar code: one lane, and no conversion between the operand types.
#[derive(Clone, Copy, Debug)]
pub struct Scalar;

/// Calls `pulp::NullaryFnOnce::call` on a closure, which calls the closure and returns what it
/// returned.
#[verifier::external_body]
fn call_nullary<R, F: FnOnce() -> R>(f: F) -> (r: R)
    requires
        call_requires(f, ()),
    ensures
        call_ensures(f, (), r),
{
    pulp::NullaryFnOnce::call(f)
}

impl Simd for Scalar {
    fn vectorize<R, F: FnOnce() -> R>(self, f: F) -> (r: R) {
        call_nullary(f)
    }
}

impl<T: Element> MixedSimd<T, T, T, T> for Scalar {
    type LhsN = T;

    type RhsN = T;

    type DstN = T;

    type AccN = T;

    open spec fn width() -> nat {
        1
    }

    open spec fn mult_spec(self, lhs: T, rhs: T) -> T {
        lhs.times_spec(rhs)
    }

    open spec fn add_spec(self, lhs: T, rhs: T) -> T {
        lhs.plus_spec(rhs)
    }

    open spec fn mult_add_spec(self, lhs: T, rhs: T, acc: T) -> T {
        lhs.times_spec(rhs).plus_spec(acc)
    }

    open spec fn from_lhs_spec(self, lhs: T) -> T {
        lhs
    }

    open spec fn from_rhs_spec(self, rhs: T) -> T {
        rhs
    }

    open spec fn from_dst_spec(self, dst: T) -> T {
        dst
    }

    open spec fn into_dst_spec(self, acc: T) -> T {
        acc
    }

    open spec fn lhs_lanes(self, v: T) -> Seq<T> {
        seq![v]
    }

    open spec fn rhs_lanes(self, v: T) -> Seq<T> {
        seq![v]
    }

    open spec fn dst_lanes(self, v: T) -> Seq<T> {
        seq![v]
    }

    open spec fn acc_lanes(self, v: T) -> Seq<T> {
        seq![v]
    }

    fn simd_width() -> (r: usize) {
        1
    }

    fn mult(self, lhs: T, rhs: T) -> (r: T) {
        lhs.times(rhs)
    }

    fn add(self, lhs: T, rhs: T) -> (r: T) {
        lhs.plus(rhs)
    }

    fn mult_add(self, lhs: T, rhs: T, acc: T) -> (r: T) {
        lhs.times(rhs).plus(acc)
    }

    fn from_lhs(self, lhs: T) -> (r: T) {
        lhs
    }

    fn from_rhs(self, rhs: T) -> (r: T) {
        rhs
    }

    fn from_dst(self, dst: T) -> (r: T) {
        dst
    }

    fn into_dst(self, acc: T) -> (r: T) {
        acc
    }

    fn load_lhs(self, s: &[T], at: usize) -> (r: T) {
        s[at]
    }

    fn load_rhs(self, s: &[T], at: usize) -> (r: T) {
        s[at]
    }

    fn load_dst(self, s: &[T], at: usize) -> (r: T) {
        s[at]
    }

    fn store_dst(self, s: &mut [T], at: usize, v: T) {
        s[at] = v;
    }

    fn acc_lane(self, v: T, lane: usize) -> (r: T) {
        v
    }

    fn simd_splat(self, v: T) -> (r: T) {
        v
    }

    fn simd_from_lhs(self, v: T) -> (r: T) {
        v
    }

    fn simd_from_rhs(self, v: T) -> (r: T) {
        v
    }

    fn simd_from_dst(self, v: T) -> (r: T) {
        v
    }

    fn simd_into_dst(self, v: T) -> (r: T) {
        v
    }

    fn simd_mul(self, lhs: T, rhs: T) -> (r: T) {
        lhs.times(rhs)
    }

    fn simd_add(self, lhs: T, rhs: T) -> (r: T) {
        lhs.plus(rhs)
    }

    fn simd_mult_add(self, lhs: T, rhs: T, acc: T) -> (r: T) {
        lhs.times(rhs).plus(acc)
    }
}

} // verus!
