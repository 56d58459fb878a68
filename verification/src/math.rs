//! Small fixed-size vector and matrix helpers.
//!
//! Storage is a plain array, addressed column-first for matrices so that a
//! one-column matrix coerces with a vector.  Component accessors work for any
//! copyable element; the arithmetic operations are provided for `i64`
//! elements, with preconditions that rule overflow out.

use vstd::prelude::*;

verus! {

/// A fixed-size vector of `N` components.
#[derive(Clone, Copy, Debug, PartialEq, Eq)]
pub struct Vector<T: Copy, const N: usize>(pub [T; N]);

/// A fixed-size matrix with `N` rows and `M` columns, stored column-first.
#[derive(Clone, Copy, Debug, PartialEq, Eq)]
pub struct Matrix<T: Copy, const N: usize, const M: usize>(pub [[T; N]; M]);

/// Sum of the first `n` products of paired components: the mathematical dot
/// product of two sequences, evaluated over the integers.
pub open spec fn dot_sum(a: Seq<i64>, b: Seq<i64>, n: int) -> int
    decreases n,
{
    if n <= 0 {
        0
    } else {
        dot_sum(a, b, n - 1) + a[n - 1] * b[n - 1]
    }
}

/// Sum of the first `m` products row-entry-times-column-entry: one entry of
/// a matrix product, evaluated over the integers.  `a` is column-first.
pub open spec fn entry_sum<const N: usize, const M: usize>(
    a: [[i64; N]; M],
    col: [i64; M],
    row: int,
    m: int,
) -> int
    decreases m,
{
    if m <= 0 {
        0
    } else {
        entry_sum(a, col, row, m - 1) + a[m - 1][row] * col[m - 1]
    }
}

impl<T: Copy, const N: usize> Vector<T, N> {
    /// First component.
    pub fn x(&self) -> (r: T)
        requires
            N >= 1,
        ensures
            r == self.0[0],
    {
        self.0[0]
    }

    /// Second component.
    pub fn y(&self) -> (r: T)
        requires
            N >= 2,
        ensures
            r == self.0[1],
    {
        self.0[1]
    }

    /// Third component.
    pub fn z(&self) -> (r: T)
        requires
            N >= 3,
        ensures
            r == self.0[2],
    {
        self.0[2]
    }

    /// Fourth component.
    pub fn w(&self) -> (r: T)
        requires
            N >= 4,
        ensures
            r == self.0[3],
    {
        self.0[3]
    }

    /// Mutable access to the first component.
    pub fn x_mut(&mut self) -> (r: &mut T)
        requires
            N >= 1,
        ensures
            *r == old(self).0[0],
            final(self).0@ == old(self).0@.update(0, *final(r)),
    {
        &mut self.0[0]
    }

    /// Mutable access to the second component.
    pub fn y_mut(&mut self) -> (r: &mut T)
        requires
            N >= 2,
        ensures
            *r == old(self).0[1],
            final(self).0@ == old(self).0@.update(1, *final(r)),
    {
        &mut self.0[1]
    }

    /// Mutable access to the third component.
    pub fn z_mut(&mut self) -> (r: &mut T)
        requires
            N >= 3,
        ensures
            *r == old(self).0[2],
            final(self).0@ == old(self).0@.update(2, *final(r)),
    {
        &mut self.0[2]
    }

    /// Mutable access to the fourth component.
    pub fn w_mut(&mut self) -> (r: &mut T)
        requires
            N >= 4,
        ensures
            *r == old(self).0[3],
            final(self).0@ == old(self).0@.update(3, *final(r)),
    {
        &mut self.0[3]
    }
}

impl<const N: usize> Vector<i64, N> {
    /// Dot product.  The preconditions keep every product and every partial
    /// sum inside the `i64` range.
    pub fn dot(self, rhs: Self) -> (r: i64)
        requires
            forall|k: int|
                0 <= k < N ==> i64::MIN <= #[trigger] (self.0[k] * rhs.0[k]) <= i64::MAX,
            forall|k: int| 0 <= k <= N ==> i64::MIN <= #[trigger] dot_sum(self.0@, rhs.0@, k) <= i64::MAX,
        ensures
            r == dot_sum(self.0@, rhs.0@, N as int),
    {
        let mut sum: i64 = 0;
        let mut k: usize = 0;
        while k < N
            invariant
                0 <= k <= N,
                sum == dot_sum(self.0@, rhs.0@, k as int),
                forall|j: int|
                    0 <= j < N ==> i64::MIN <= #[trigger] (self.0[j] * rhs.0[j]) <= i64::MAX,
                forall|j: int|
                    0 <= j <= N ==> i64::MIN <= #[trigger] dot_sum(self.0@, rhs.0@, j) <= i64::MAX,
            decreases N - k,
        {
            proof {
                assert(dot_sum(self.0@, rhs.0@, k + 1) == dot_sum(self.0@, rhs.0@, k as int)
                    + self.0[k as int] * rhs.0[k as int]);
            }
            sum = sum + self.0[k] * rhs.0[k];
            k += 1;
        }
        sum
    }
}

impl Vector<i64, 3> {
    /// Cross product.  The preconditions keep each product and each
    /// difference inside the `i64` range.
    pub fn cross(self, rhs: Self) -> (r: Self)
        requires
            forall|a: int, b: int|
                0 <= a < 3 && 0 <= b < 3 ==> i64::MIN <= #[trigger] (self.0[a] * rhs.0[b])
                    <= i64::MAX,
            i64::MIN <= self.0[1] * rhs.0[2] - self.0[2] * rhs.0[1] <= i64::MAX,
            i64::MIN <= self.0[2] * rhs.0[0] - self.0[0] * rhs.0[2] <= i64::MAX,
            i64::MIN <= self.0[0] * rhs.0[1] - self.0[1] * rhs.0[0] <= i64::MAX,
        ensures
            r.0[0] == self.0[1] * rhs.0[2] - self.0[2] * rhs.0[1],
            r.0[1] == self.0[2] * rhs.0[0] - self.0[0] * rhs.0[2],
            r.0[2] == self.0[0] * rhs.0[1] - self.0[1] * rhs.0[0],
    {
        Vector(
            [
                self.0[1] * rhs.0[2] - self.0[2] * rhs.0[1],
                self.0[2] * rhs.0[0] - self.0[0] * rhs.0[2],
                self.0[0] * rhs.0[1] - self.0[1] * rhs.0[0],
            ],
        )
    }
}

impl<T: Copy, const N: usize, const M: usize> Matrix<T, N, M> {
    /// The transposed matrix: rows and columns swapped.
    pub fn transpose(&self) -> (r: Matrix<T, M, N>)
        requires
            N >= 1,
            M >= 1,
        ensures
            forall|c: int, w: int| 0 <= c < M && 0 <= w < N ==> r.0[w][c] == self.0[c][w],
    {
        let fill = self.0[0][0];
        let mut out: [[T; M]; N] = [[fill; M]; N];
        let mut w: usize = 0;
        while w < N
            invariant
                0 <= w <= N,
                forall|c: int, ww: int| 0 <= c < M && 0 <= ww < w ==> out[ww][c] == self.0[c][ww],
            decreases N - w,
        {
            let mut row: [T; M] = [fill; M];
            let mut c: usize = 0;
            while c < M
                invariant
                    0 <= c <= M,
                    w < N,
                    forall|cc: int| 0 <= cc < c ==> row[cc] == self.0[cc][w as int],
                decreases M - c,
            {
                row[c] = self.0[c][w];
                c += 1;
            }
            out[w] = row;
            w += 1;
        }
        Matrix(out)
    }
}

impl<T: Copy, const N: usize> Matrix<T, N, N> {
    /// Transposes a square matrix in place.
    pub fn transpose_inplace(&mut self)
        ensures
            forall|c: int, w: int|
                0 <= c < N && 0 <= w < N ==> final(self).0[c][w] == old(self).0[w][c],
    {
        let ghost orig = self.0;
        let mut c: usize = 0;
        while c < N
            invariant
                0 <= c <= N,
                forall|a: int, b: int|
                    0 <= a < N && 0 <= b < N ==> self.0[a][b] == (if a < c && b < c {
                        orig[b][a]
                    } else {
                        orig[a][b]
                    }),
            decreases N - c,
        {
            let mut w: usize = 0;
            while w < c
                invariant
                    0 <= w <= c < N,
                    forall|a: int, b: int|
                        0 <= a < N && 0 <= b < N ==> self.0[a][b] == (if (a < c && b < c) || (a
                            == c && b < w) || (b == c && a < w) {
                            orig[b][a]
                        } else {
                            orig[a][b]
                        }),
                decreases c - w,
            {
                let t1 = self.0[w][c];
                let t2 = self.0[c][w];
                let mut colw = self.0[w];
                colw[c] = t2;
                self.0[w] = colw;
                let mut colc = self.0[c];
                colc[w] = t1;
                self.0[c] = colc;
                w += 1;
            }
            c += 1;
        }
    }
}

impl<const N: usize, const M: usize> Matrix<i64, N, M> {
    /// Matrix product.  The preconditions keep every product and every
    /// partial entry sum inside the `i64` range.
    pub fn dot<const K: usize>(&self, rhs: &Matrix<i64, M, K>) -> (r: Matrix<i64, N, K>)
        requires
            forall|c: int, w: int, m: int|
                0 <= c < K && 0 <= w < N && 0 <= m < M ==> i64::MIN <= #[trigger] (self.0[m][w]
                    * rhs.0[c][m]) <= i64::MAX,
            forall|c: int, w: int, m: int|
                0 <= c < K && 0 <= w < N && 0 <= m <= M ==> i64::MIN <= #[trigger] entry_sum(
                    self.0,
                    rhs.0[c],
                    w,
                    m,
                ) <= i64::MAX,
        ensures
            forall|c: int, w: int|
                0 <= c < K && 0 <= w < N ==> r.0[c][w] == entry_sum(self.0, rhs.0[c], w, M as int),
    {
        let mut out: [[i64; N]; K] = [[0; N]; K];
        let mut c: usize = 0;
        while c < K
            invariant
                0 <= c <= K,
                forall|cc: int, w: int|
                    0 <= cc < c && 0 <= w < N ==> out[cc][w] == entry_sum(
                        self.0,
                        rhs.0[cc],
                        w,
                        M as int,
                    ),
                forall|cc: int, w: int, m: int|
                    0 <= cc < K && 0 <= w < N && 0 <= m < M ==> i64::MIN <= #[trigger] (self.0[m][w]
                        * rhs.0[cc][m]) <= i64::MAX,
                forall|cc: int, w: int, m: int|
                    0 <= cc < K && 0 <= w < N && 0 <= m <= M ==> i64::MIN <= #[trigger] entry_sum(
                        self.0,
                        rhs.0[cc],
                        w,
                        m,
                    ) <= i64::MAX,
            decreases K - c,
        {
            let mut col: [i64; N] = [0; N];
            let mut w: usize = 0;
            while w < N
                invariant
                    0 <= w <= N,
                    0 <= c < K,
                    forall|ww: int|
                        0 <= ww < w ==> col[ww] == entry_sum(self.0, rhs.0[c as int], ww, M as int),
                    forall|cc: int, ww: int, m: int|
                        0 <= cc < K && 0 <= ww < N && 0 <= m < M ==> i64::MIN <= #[trigger] (
                        self.0[m][ww] * rhs.0[cc][m]) <= i64::MAX,
                    forall|cc: int, ww: int, m: int|
                        0 <= cc < K && 0 <= ww < N && 0 <= m <= M ==> i64::MIN
                            <= #[trigger] entry_sum(self.0, rhs.0[cc], ww, m) <= i64::MAX,
                decreases N - w,
            {
                let mut sum: i64 = 0;
                let mut m: usize = 0;
                while m < M
                    invariant
                        0 <= m <= M,
                        0 <= c < K,
                        0 <= w < N,
                        sum == entry_sum(self.0, rhs.0[c as int], w as int, m as int),
                        forall|cc: int, ww: int, mm: int|
                            0 <= cc < K && 0 <= ww < N && 0 <= mm < M ==> i64::MIN <= #[trigger] (
                            self.0[mm][ww] * rhs.0[cc][mm]) <= i64::MAX,
                        forall|cc: int, ww: int, mm: int|
                            0 <= cc < K && 0 <= ww < N && 0 <= mm <= M ==> i64::MIN
                                <= #[trigger] entry_sum(self.0, rhs.0[cc], ww, mm) <= i64::MAX,
                    decreases M - m,
                {
                    proof {
                        assert(entry_sum(self.0, rhs.0[c as int], w as int, m + 1) == entry_sum(
                            self.0,
                            rhs.0[c as int],
                            w as int,
                            m as int,
                        ) + self.0[m as int][w as int] * rhs.0[c as int][m as int]);
                    }
                    sum = sum + self.0[m][w] * rhs.0[c][m];
                    m += 1;
                }
                col[w] = sum;
                w += 1;
            }
            out[c] = col;
            c += 1;
        }
        Matrix(out)
    }

    /// Matrix-vector product: the vector is treated as a one-column matrix.
    pub fn dotv(&self, rhs: Vector<i64, M>) -> (r: Vector<i64, N>)
        requires
            forall|w: int, m: int|
                0 <= w < N && 0 <= m < M ==> i64::MIN <= #[trigger] (self.0[m][w] * rhs.0[m])
                    <= i64::MAX,
            forall|w: int, m: int|
                0 <= w < N && 0 <= m <= M ==> i64::MIN <= #[trigger] entry_sum(self.0, rhs.0, w, m)
                    <= i64::MAX,
        ensures
            forall|w: int| 0 <= w < N ==> r.0[w] == entry_sum(self.0, rhs.0, w, M as int),
    {
        let rhs_m: Matrix<i64, M, 1> = Matrix([rhs.0]);
        let prod = self.dot(&rhs_m);
        Vector(prod.0[0])
    }
}

impl<const N: usize, const M: usize> Matrix<i64, N, M> {
    /// Replaces `self` with `self * rhs`.
    pub fn dot_assign(&mut self, rhs: &Matrix<i64, M, M>)
        requires
            forall|c: int, w: int, m: int|
                0 <= c < M && 0 <= w < N && 0 <= m < M ==> i64::MIN <= #[trigger] (old(
                    self,
                ).0[m][w] * rhs.0[c][m]) <= i64::MAX,
            forall|c: int, w: int, m: int|
                0 <= c < M && 0 <= w < N && 0 <= m <= M ==> i64::MIN <= #[trigger] entry_sum(
                    old(self).0,
                    rhs.0[c],
                    w,
                    m,
                ) <= i64::MAX,
        ensures
            forall|c: int, w: int|
                0 <= c < M && 0 <= w < N ==> final(self).0[c][w] == entry_sum(
                    old(self).0,
                    rhs.0[c],
                    w,
                    M as int,
                ),
    {
        let prod = self.dot(rhs);
        *self = prod;
    }
}

} // verus!
