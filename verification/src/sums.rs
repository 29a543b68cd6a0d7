//! Finite sums in a commutative monoid.
use vstd::prelude::*;

verus! {

/// `zero` added on the left changes nothing.
#[verifier::opaque]
pub open spec fn left_identity<A>(plus: spec_fn(A, A) -> A, zero: A) -> bool {
    forall|a: A| #[trigger] plus(zero, a) == a
}

/// The order of two terms does not matter.
#[verifier::opaque]
pub open spec fn commutative<A>(plus: spec_fn(A, A) -> A) -> bool {
    forall|a: A, b: A| #[trigger] plus(a, b) == plus(b, a)
}

/// The grouping of three terms does not matter.
#[verifier::opaque]
pub open spec fn associative<A>(plus: spec_fn(A, A) -> A) -> bool {
    forall|a: A, b: A, c: A| #[trigger] plus(plus(a, b), c) == plus(a, plus(b, c))
}

/// `plus` is associative and commutative, and `zero` is its identity.
pub open spec fn commutative_monoid<A>(plus: spec_fn(A, A) -> A, zero: A) -> bool {
    &&& left_identity(plus, zero)
    &&& commutative(plus)
    &&& associative(plus)
}

/// `zero + a == a`.
pub proof fn lemma_zero_plus<A>(plus: spec_fn(A, A) -> A, zero: A, a: A)
    requires
        left_identity(plus, zero),
    ensures
        plus(zero, a) == a,
{
    reveal(left_identity);
}

/// `a + b == b + a`.
pub proof fn lemma_swap<A>(plus: spec_fn(A, A) -> A, a: A, b: A)
    requires
        commutative(plus),
    ensures
        plus(a, b) == plus(b, a),
{
    reveal(commutative);
}

/// `(a + b) + c == a + (b + c)`.
pub proof fn lemma_regroup<A>(plus: spec_fn(A, A) -> A, a: A, b: A, c: A)
    requires
        associative(plus),
    ensures
        plus(plus(a, b), c) == plus(a, plus(b, c)),
{
    reveal(associative);
}

/// `(a + b) + (c + d) == (a + c) + (b + d)`.
pub proof fn lemma_exchange<A>(plus: spec_fn(A, A) -> A, a: A, b: A, c: A, d: A)
    requires
        commutative(plus),
        associative(plus),
    ensures
        plus(plus(a, b), plus(c, d)) == plus(plus(a, c), plus(b, d)),
{
    lemma_regroup(plus, a, b, plus(c, d));
    lemma_regroup(plus, b, c, d);
    lemma_swap(plus, b, c);
    lemma_regroup(plus, c, b, d);
    lemma_regroup(plus, a, c, plus(b, d));
}

/// `g(0)`, `g(1)` and so on up to `g(n - 1)`, added up from left to right.
pub open spec fn total<A>(
    plus: spec_fn(A, A) -> A,
    zero: A,
    g: spec_fn(int) -> A,
    n: nat,
) -> A
    decreases n,
{
    if n == 0 {
        zero
    } else {
        plus(total(plus, zero, g, (n - 1) as nat), g(n - 1))
    }
}

/// Two sums of the same terms are equal.
pub proof fn lemma_total_same<A>(
    plus: spec_fn(A, A) -> A,
    zero: A,
    g: spec_fn(int) -> A,
    h: spec_fn(int) -> A,
    n: nat,
)
    requires
        forall|i: int| 0 <= i < n ==> #[trigger] g(i) == h(i),
    ensures
        total(plus, zero, g, n) == total(plus, zero, h, n),
    decreases n,
{
    if n > 0 {
        lemma_total_same(plus, zero, g, h, (n - 1) as nat);
        assert(g(n - 1) == h(n - 1));
    }
}

/// A sum of `a + b` terms is the sum of the first `a` and of the `b` that follow.
pub proof fn lemma_total_split<A>(
    plus: spec_fn(A, A) -> A,
    zero: A,
    g: spec_fn(int) -> A,
    a: nat,
    b: nat,
)
    requires
        commutative_monoid(plus, zero),
    ensures
        total(plus, zero, g, a + b) == plus(
            total(plus, zero, g, a),
            total(plus, zero, |i: int| g(a + i), b),
        ),
    decreases b,
{
    let tail = |i: int| g(a + i);
    if b > 0 {
        lemma_total_split(plus, zero, g, a, (b - 1) as nat);
        let left = total(plus, zero, g, a);
        let mid = total(plus, zero, tail, (b - 1) as nat);
        assert(a + (b - 1) as nat == (a + b - 1) as nat);
        lemma_regroup(plus, left, mid, tail(b - 1));
    } else {
        let left = total(plus, zero, g, a);
        lemma_swap(plus, left, zero);
        lemma_zero_plus(plus, zero, left);
    }
}

/// Adding term by term adds the sums.
pub proof fn lemma_total_plus<A>(
    plus: spec_fn(A, A) -> A,
    zero: A,
    g: spec_fn(int) -> A,
    h: spec_fn(int) -> A,
    n: nat,
)
    requires
        commutative_monoid(plus, zero),
    ensures
        total(plus, zero, |i: int| plus(g(i), h(i)), n) == plus(
            total(plus, zero, g, n),
            total(plus, zero, h, n),
        ),
    decreases n,
{
    if n > 0 {
        lemma_total_plus(plus, zero, g, h, (n - 1) as nat);
        let a = total(plus, zero, g, (n - 1) as nat);
        let b = total(plus, zero, h, (n - 1) as nat);
        lemma_exchange(plus, a, b, g(n - 1), h(n - 1));
    } else {
        lemma_zero_plus(plus, zero, zero);
    }
}

/// Dealing `q * n` terms out to `q` sums in turn, and adding those up, gives the sum of all.
pub proof fn lemma_total_interleave<A>(
    plus: spec_fn(A, A) -> A,
    zero: A,
    g: spec_fn(int) -> A,
    q: nat,
    n: nat,
)
    requires
        commutative_monoid(plus, zero),
    ensures
        total(plus, zero, |j: int| total(plus, zero, |t: int| g(j + t * q), n), q) == total(
            plus,
            zero,
            g,
            q * n,
        ),
    decreases n,
{
    let dealt = |j: int| total(plus, zero, |t: int| g(j + t * q), n);
    if n == 0 {
        lemma_total_zeros(plus, zero, dealt, q);
        assert(q * n == 0) by (nonlinear_arith)
            requires
                n == 0,
        ;
    } else {
        let p = (n - 1) as nat;
        lemma_total_interleave(plus, zero, g, q, p);
        let fewer = |j: int| total(plus, zero, |t: int| g(j + t * q), p);
        let row = |j: int| g(j + p * q);
        assert forall|j: int| 0 <= j < q implies #[trigger] dealt(j) == (|i: int|
            plus(fewer(i), row(i)))(j) by {}
        lemma_total_same(plus, zero, dealt, |i: int| plus(fewer(i), row(i)), q);
        lemma_total_plus(plus, zero, fewer, row, q);
        assert(q * n == q * p + q && p * q == q * p) by (nonlinear_arith)
            requires
                n == p + 1,
        ;
        lemma_total_split(plus, zero, g, (q * p) as nat, q);
        let next = |i: int| g((q * p) as nat + i);
        assert forall|j: int| 0 <= j < q implies #[trigger] row(j) == next(j) by {}
        lemma_total_same(plus, zero, row, next, q);
    }
}

/// A sum of zeros is zero.
pub proof fn lemma_total_zeros<A>(
    plus: spec_fn(A, A) -> A,
    zero: A,
    g: spec_fn(int) -> A,
    n: nat,
)
    requires
        commutative_monoid(plus, zero),
        forall|i: int| 0 <= i < n ==> #[trigger] g(i) == zero,
    ensures
        total(plus, zero, g, n) == zero,
    decreases n,
{
    if n > 0 {
        lemma_total_zeros(plus, zero, g, (n - 1) as nat);
        assert(g(n - 1) == zero);
        lemma_zero_plus(plus, zero, zero);
    }
}

/// `a * (b + c) == a * b + a * c`, for all of them.
#[verifier::opaque]
pub open spec fn distributive<A>(plus: spec_fn(A, A) -> A, times: spec_fn(A, A) -> A) -> bool {
    forall|a: A, b: A, c: A| #[trigger] times(a, plus(b, c)) == plus(times(a, b), times(a, c))
}

/// `zero * a == zero`, for every `a`.
#[verifier::opaque]
pub open spec fn annihilates<A>(times: spec_fn(A, A) -> A, zero: A) -> bool {
    forall|a: A| #[trigger] times(zero, a) == zero
}

/// The sum and the product make a commutative semiring.
pub open spec fn commutative_semiring<A>(
    plus: spec_fn(A, A) -> A,
    times: spec_fn(A, A) -> A,
    zero: A,
    one: A,
) -> bool {
    &&& commutative_monoid(plus, zero)
    &&& commutative_monoid(times, one)
    &&& distributive(plus, times)
    &&& annihilates(times, zero)
}

/// `a * (b + c) == a * b + a * c`.
pub proof fn lemma_distribute<A>(
    plus: spec_fn(A, A) -> A,
    times: spec_fn(A, A) -> A,
    a: A,
    b: A,
    c: A,
)
    requires
        distributive(plus, times),
    ensures
        times(a, plus(b, c)) == plus(times(a, b), times(a, c)),
{
    reveal(distributive);
}

/// `zero * a == zero`.
pub proof fn lemma_zero_times<A>(times: spec_fn(A, A) -> A, zero: A, a: A)
    requires
        annihilates(times, zero),
    ensures
        times(zero, a) == zero,
{
    reveal(annihilates);
}

} // verus!
