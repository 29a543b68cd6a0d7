//! Strided matrices inside a slice.
use vstd::prelude::*;

verus! {

/// Where the entries of a matrix stand in a slice: entry `(i, j)` is at
/// `base + i * rs + j * cs`.
#[derive(Clone, Copy, Debug, PartialEq, Eq)]
pub struct Strides {
    /// Position of entry `(0, 0)`.
    pub base: usize,
    /// Distance from one column to the next.
    pub cs: isize,
    /// Distance from one row to the next.
    pub rs: isize,
}

impl Strides {
    /// The position of entry `(i, j)`.
    pub open spec fn at(self, i: int, j: int) -> int {
        self.base + i * self.rs + j * self.cs
    }

    /// Every entry of a `rows` by `cols` matrix lies inside a slice of `len` elements.
    pub open spec fn fits(self, rows: int, cols: int, len: int) -> bool {
        forall|i: int, j: int|
            0 <= i < rows && 0 <= j < cols ==> 0 <= #[trigger] self.at(i, j) < len
    }

    /// No two entries of a `rows` by `cols` matrix share a position.
    pub open spec fn distinct(self, rows: int, cols: int) -> bool {
        forall|i1: int, j1: int, i2: int, j2: int|
            #![trigger self.at(i1, j1), self.at(i2, j2)]
            0 <= i1 < rows && 0 <= j1 < cols && 0 <= i2 < rows && 0 <= j2 < cols && self.at(i1, j1)
                == self.at(i2, j2) ==> i1 == i2 && j1 == j2
    }

    /// Position `p` holds an entry of a `rows` by `cols` matrix.
    pub open spec fn covers(self, rows: int, cols: int, p: int) -> bool {
        exists|i: int, j: int| 0 <= i < rows && 0 <= j < cols && #[trigger] self.at(i, j) == p
    }

    /// The same strides from entry `(i, j)` on.
    pub open spec fn moved(self, i: int, j: int) -> Strides {
        Strides { base: self.at(i, j) as usize, cs: self.cs, rs: self.rs }
    }

    /// Where the entries stand that are counted from `(i0, j0)`.
    pub proof fn lemma_moved(self, i0: int, j0: int, i: int, j: int)
        requires
            0 <= self.at(i0, j0) <= usize::MAX,
        ensures
            self.moved(i0, j0).at(i, j) == self.at(i0 + i, j0 + j),
    {
        assert((i0 + i) * self.rs == i0 * self.rs + i * self.rs && (j0 + j) * self.cs == j0
            * self.cs + j * self.cs) by (nonlinear_arith);
    }

    /// The position of entry `(i, j)`.
    pub fn index(self, i: usize, j: usize) -> (r: usize)
        requires
            0 <= self.at(i as int, 0) <= usize::MAX,
            0 <= self.at(i as int, j as int) <= usize::MAX,
        ensures
            r == self.at(i as int, j as int),
    {
        let down: i128 = i as i128 * self.rs as i128;
        let across: i128 = j as i128 * self.cs as i128;
        (self.base as i128 + down + across) as usize
    }
}

/// The entries `(r0, j)` up to, not including, `(r1, j)` of the matrix that `at` lays out in `s`.
pub open spec fn column<T>(s: Seq<T>, at: Strides, r0: int, r1: int, j: int) -> Seq<T> {
    Seq::new((r1 - r0) as nat, |i: int| s[at.at(r0 + i, j)])
}

/// `new` is `old` with every entry of a `rows` by `cols` matrix replaced by `value`'s answer for
/// it, and nothing else touched.
pub open spec fn rewritten<T>(
    old_s: Seq<T>,
    new_s: Seq<T>,
    at: Strides,
    rows: int,
    cols: int,
    value: spec_fn(int, int) -> T,
) -> bool {
    &&& new_s.len() == old_s.len()
    &&& forall|i: int, j: int|
        0 <= i < rows && 0 <= j < cols ==> new_s[#[trigger] at.at(i, j)] == value(i, j)
    &&& forall|p: int|
        0 <= p < old_s.len() && !at.covers(rows, cols, p) ==> #[trigger] new_s[p] == old_s[p]
}

/// Copies rows `r0..r1` of column `j` out of `s`.
pub fn gather<T: Copy>(s: &[T], at: Strides, r0: usize, r1: usize, j: usize) -> (r: Vec<T>)
    requires
        r0 <= r1,
        at.fits(r1 as int, j + 1, s@.len() as int),
    ensures
        r@ == column(s@, at, r0 as int, r1 as int, j as int),
{
    let len: usize = s.len();
    let mut out: Vec<T> = Vec::with_capacity(r1 - r0);
    let mut i: usize = r0;
    while i < r1
        invariant
            r0 <= i <= r1,
            len == s@.len(),
            at.fits(r1 as int, j + 1, len as int),
            out@ =~= column(s@, at, r0 as int, i as int, j as int),
        decreases r1 - i,
    {
        assert(0 <= at.at(i as int, 0) < len);
        assert(0 <= at.at(i as int, j as int) < len);
        out.push(s[at.index(i, j)]);
        i += 1;
    }
    out
}

/// Writes `values` over column `j` of `s`, from row `r0` down.
pub fn scatter<T: Copy>(s: &mut [T], at: Strides, r0: usize, j: usize, values: &[T])
    requires
        r0 + values@.len() <= usize::MAX,
        at.fits(r0 + values@.len(), j + 1, old(s)@.len() as int),
        at.distinct(r0 + values@.len(), j + 1),
    ensures
        final(s)@.len() == old(s)@.len(),
        forall|i: int|
            r0 <= i < r0 + values@.len() ==> final(s)@[#[trigger] at.at(i, j as int)] == values@[i
                - r0],
        forall|p: int|
            0 <= p < old(s)@.len() && (forall|i: int|
                r0 <= i < r0 + values@.len() ==> #[trigger] at.at(i, j as int) != p)
                ==> #[trigger] final(s)@[p] == old(s)@[p],
{
    let len: usize = s.len();
    let n: usize = values.len();
    let mut i: usize = 0;
    while i < n
        invariant
            i <= n,
            n == values@.len(),
            r0 + n <= usize::MAX,
            len == s@.len(),
            len == old(s)@.len(),
            at.fits(r0 + n, j + 1, len as int),
            at.distinct(r0 + n, j + 1),
            forall|q: int|
                r0 <= q < r0 + i ==> s@[#[trigger] at.at(q, j as int)] == values@[q - r0],
            forall|p: int|
                0 <= p < s@.len() && (forall|q: int|
                    r0 <= q < r0 + i ==> #[trigger] at.at(q, j as int) != p)
                    ==> #[trigger] s@[p] == old(s)@[p],
        decreases n - i,
    {
        assert(0 <= at.at(r0 + i, 0) < len);
        assert(0 <= at.at(r0 + i, j as int) < len);
        let p: usize = at.index(r0 + i, j);
        s[p] = values[i];
        i += 1;
    }
}

/// Rewriting column `j` after the columns before it rewrites one column more.
pub proof fn lemma_rewritten_next<T>(
    old_s: Seq<T>,
    mid_s: Seq<T>,
    new_s: Seq<T>,
    at: Strides,
    rows: int,
    cols: int,
    j: int,
    value: spec_fn(int, int) -> T,
)
    requires
        0 <= j < cols,
        at.fits(rows, cols, old_s.len() as int),
        at.distinct(rows, cols),
        rewritten(old_s, mid_s, at, rows, j, value),
        new_s.len() == mid_s.len(),
        forall|i: int| 0 <= i < rows ==> new_s[#[trigger] at.at(i, j)] == value(i, j),
        forall|p: int|
            0 <= p < mid_s.len() && (forall|i: int| 0 <= i < rows ==> #[trigger] at.at(i, j) != p)
                ==> #[trigger] new_s[p] == mid_s[p],
    ensures
        rewritten(old_s, new_s, at, rows, j + 1, value),
{
    assert forall|i: int, c: int| 0 <= i < rows && 0 <= c < j + 1 implies new_s[#[trigger] at.at(
        i,
        c,
    )] == value(i, c) by {
        if c < j {
            let p = at.at(i, c);
            assert(forall|q: int| 0 <= q < rows ==> #[trigger] at.at(q, j) != p);
        }
    }
    assert forall|p: int|
        0 <= p < old_s.len() && !at.covers(rows, j + 1, p) implies #[trigger] new_s[p]
        == old_s[p] by {
        assert forall|q: int| 0 <= q < rows implies #[trigger] at.at(q, j) != p by {}
        assert(!at.covers(rows, j, p)) by {
            if at.covers(rows, j, p) {
                let (i, c) = choose|i: int, c: int|
                    0 <= i < rows && 0 <= c < j && #[trigger] at.at(i, c) == p;
                assert(at.at(i, c) == p);
            }
        }
    }
}

/// An entry in a later column still holds what it held before.
pub proof fn lemma_rewritten_rest<T>(
    old_s: Seq<T>,
    mid_s: Seq<T>,
    at: Strides,
    rows: int,
    cols: int,
    j: int,
    value: spec_fn(int, int) -> T,
)
    requires
        0 <= rows,
        0 <= j < cols,
        at.fits(rows, cols, old_s.len() as int),
        at.distinct(rows, cols),
        rewritten(old_s, mid_s, at, rows, j, value),
    ensures
        column(mid_s, at, 0, rows, j) == column(old_s, at, 0, rows, j),
{
    assert forall|i: int| 0 <= i < rows implies mid_s[#[trigger] at.at(i, j)] == old_s[at.at(
        i,
        j,
    )] by {
        let p = at.at(i, j);
        if at.covers(rows, j, p) {
            let (i2, c) = choose|i2: int, c: int|
                0 <= i2 < rows && 0 <= c < j && #[trigger] at.at(i2, c) == p;
            assert(false);
        }
    }
    assert forall|i: int| 0 <= i < rows implies column(mid_s, at, 0, rows, j)[i] == column(
        old_s,
        at,
        0,
        rows,
        j,
    )[i] by {
        assert(at.at(0 + i, j) == at.at(i, j));
    }
    assert(column(mid_s, at, 0, rows, j) =~= column(old_s, at, 0, rows, j));
}

} // verus!
