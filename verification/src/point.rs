//! Mathematical vectors: fixed-length arrays of integers with exact,
//! componentwise-specified arithmetic.

use vstd::prelude::*;

verus! {

/// A vector of `N` integer components.
#[derive(Debug, Clone, Copy)]
pub struct Point<const N: usize> {
    data: [i64; N],
}

impl<const N: usize> View for Point<N> {
    type V = Seq<i64>;

    closed spec fn view(&self) -> Seq<i64> {
        self.data@
    }
}

/// Division truncating towards zero, as the executable `/` computes it
/// (ghost `/` itself is Euclidean).
pub open spec fn tdiv(a: i64, b: i64) -> i64 {
    if a >= 0 {
        (a / b) as i64
    } else {
        (-((-a) / (b as int))) as i64
    }
}

/// Remainder matching [`tdiv`]: it carries the dividend's sign.
pub open spec fn trem(a: i64, b: i64) -> i64 {
    if a >= 0 {
        (a % b) as i64
    } else {
        (-((-a) % (b as int))) as i64
    }
}

/// The truncated sum of the first `k` componentwise products, in the order
/// a left fold accumulates them.
pub open spec fn dot_spec(a: Seq<i64>, b: Seq<i64>, k: int) -> int
    decreases k,
{
    if k <= 0 || k > a.len() || k > b.len() {
        0
    } else {
        dot_spec(a, b, k - 1) + a[k - 1] * b[k - 1]
    }
}

impl<const N: usize> Point<N> {
    pub fn new(data: [i64; N]) -> (r: Self)
        ensures
            r@ == data@,
    {
        Self { data }
    }

    /// The component at `index`, or `None` past the end.
    pub fn get(&self, index: usize) -> (r: Option<i64>)
        ensures
            r == if index < N {
                Some(self@[index as int])
            } else {
                None::<i64>
            },
    {
        if index < N {
            Some(self.data[index])
        } else {
            None
        }
    }

    /// Replaces the component at `index`; out-of-range indices are ignored.
    pub fn set(&mut self, index: usize, value: i64)
        ensures
            final(self)@ == if index < N {
                old(self)@.update(index as int, value)
            } else {
                old(self)@
            },
    {
        if index < N {
            self.data[index] = value;
        }
    }

    pub fn unpack(&self) -> (r: &[i64; N])
        ensures
            r@ == self@,
    {
        &self.data
    }

    pub fn unpack_mut(&mut self) -> (r: &mut [i64; N])
        ensures
            r@ == old(self)@,
            final(self)@ == final(r)@,
    {
        &mut self.data
    }

    pub fn unwrap(self) -> (r: [i64; N])
        ensures
            r@ == self@,
    {
        self.data
    }

    /// Applies `op` to every component.
    pub fn unary<F: Fn(i64) -> i64>(self, op: F) -> (r: Self)
        requires
            forall|k: int| 0 <= k < N ==> call_requires(op, (self@[k],)),
        ensures
            r@.len() == N,
            forall|k: int| 0 <= k < N ==> call_ensures(op, (self@[k],), #[trigger] r@[k]),
    {
        let mut out = self.data;
        let mut i: usize = 0;
        while i < N
            invariant
                i <= N,
                out@.len() == N,
                forall|k: int| 0 <= k < N ==> call_requires(op, (self@[k],)),
                forall|k: int| i <= k < N ==> out@[k] == self@[k],
                forall|k: int| 0 <= k < i ==> call_ensures(op, (self@[k],), #[trigger] out@[k]),
            decreases N - i,
        {
            proof {
                assert(self@ == self.data@);
            }
            out[i] = op(self.data[i]);
            i = i + 1;
        }
        Point::new(out)
    }

    /// Combines the components of `self` and `other` pairwise with `op`.
    pub fn binary<F: Fn(i64, i64) -> i64>(self, other: Point<N>, op: F) -> (r: Self)
        requires
            forall|k: int| 0 <= k < N ==> call_requires(op, (self@[k], other@[k])),
        ensures
            r@.len() == N,
            forall|k: int|
                0 <= k < N ==> call_ensures(op, (self@[k], other@[k]), #[trigger] r@[k]),
    {
        let mut out = self.data;
        let mut i: usize = 0;
        while i < N
            invariant
                i <= N,
                out@.len() == N,
                forall|k: int| 0 <= k < N ==> call_requires(op, (self@[k], other@[k])),
                forall|k: int| i <= k < N ==> out@[k] == self@[k],
                forall|k: int|
                    0 <= k < i ==> call_ensures(op, (self@[k], other@[k]), #[trigger] out@[k]),
            decreases N - i,
        {
            proof {
                assert(self@ == self.data@ && other@ == other.data@);
            }
            out[i] = op(self.data[i], other.data[i]);
            i = i + 1;
        }
        Point::new(out)
    }

    /// Componentwise sum.
    pub fn add(self, other: Point<N>) -> (r: Self)
        requires
            forall|k: int|
                0 <= k < N ==> i64::MIN <= #[trigger] (self@[k] + other@[k]) <= i64::MAX,
        ensures
            r@.len() == N,
            forall|k: int| 0 <= k < N ==> #[trigger] r@[k] == self@[k] + other@[k],
    {
        let mut out = self.data;
        let mut i: usize = 0;
        while i < N
            invariant
                i <= N,
                out@.len() == N,
                forall|k: int|
                    0 <= k < N ==> i64::MIN <= #[trigger] (self@[k] + other@[k]) <= i64::MAX,
                forall|k: int| i <= k < N ==> out@[k] == self@[k],
                forall|k: int| 0 <= k < i ==> #[trigger] out@[k] == self@[k] + other@[k],
            decreases N - i,
        {
            proof {
                assert(self@ == self.data@ && other@ == other.data@);
            }
            out[i] = self.data[i] + other.data[i];
            i = i + 1;
        }
        Point::new(out)
    }

    /// Componentwise difference.
    pub fn sub(self, other: Point<N>) -> (r: Self)
        requires
            forall|k: int|
                0 <= k < N ==> i64::MIN <= #[trigger] (self@[k] - other@[k]) <= i64::MAX,
        ensures
            r@.len() == N,
            forall|k: int| 0 <= k < N ==> #[trigger] r@[k] == self@[k] - other@[k],
    {
        let mut out = self.data;
        let mut i: usize = 0;
        while i < N
            invariant
                i <= N,
                out@.len() == N,
                forall|k: int|
                    0 <= k < N ==> i64::MIN <= #[trigger] (self@[k] - other@[k]) <= i64::MAX,
                forall|k: int| i <= k < N ==> out@[k] == self@[k],
                forall|k: int| 0 <= k < i ==> #[trigger] out@[k] == self@[k] - other@[k],
            decreases N - i,
        {
            proof {
                assert(self@ == self.data@ && other@ == other.data@);
            }
            out[i] = self.data[i] - other.data[i];
            i = i + 1;
        }
        Point::new(out)
    }

    /// Componentwise product.
    pub fn mul(self, other: Point<N>) -> (r: Self)
        requires
            forall|k: int|
                0 <= k < N ==> i64::MIN <= #[trigger] (self@[k] * other@[k]) <= i64::MAX,
        ensures
            r@.len() == N,
            forall|k: int| 0 <= k < N ==> #[trigger] r@[k] == self@[k] * other@[k],
    {
        let mut out = self.data;
        let mut i: usize = 0;
        while i < N
            invariant
                i <= N,
                out@.len() == N,
                forall|k: int|
                    0 <= k < N ==> i64::MIN <= #[trigger] (self@[k] * other@[k]) <= i64::MAX,
                forall|k: int| i <= k < N ==> out@[k] == self@[k],
                forall|k: int| 0 <= k < i ==> #[trigger] out@[k] == self@[k] * other@[k],
            decreases N - i,
        {
            proof {
                assert(self@ == self.data@ && other@ == other.data@);
            }
            out[i] = self.data[i] * other.data[i];
            i = i + 1;
        }
        Point::new(out)
    }

    /// Componentwise quotient, truncating towards zero.
    pub fn div(self, other: Point<N>) -> (r: Self)
        requires
            forall|k: int| 0 <= k < N ==> #[trigger] other@[k] != 0,
            forall|k: int| 0 <= k < N ==> !(#[trigger] self@[k] == i64::MIN && other@[k] == -1),
        ensures
            r@.len() == N,
            forall|k: int| 0 <= k < N ==> #[trigger] r@[k] == tdiv(self@[k], other@[k]),
    {
        let mut out = self.data;
        let mut i: usize = 0;
        while i < N
            invariant
                i <= N,
                out@.len() == N,
                forall|k: int| 0 <= k < N ==> #[trigger] other@[k] != 0,
                forall|k: int|
                    0 <= k < N ==> !(#[trigger] self@[k] == i64::MIN && other@[k] == -1),
                forall|k: int| i <= k < N ==> out@[k] == self@[k],
                forall|k: int| 0 <= k < i ==> #[trigger] out@[k] == tdiv(self@[k], other@[k]),
            decreases N - i,
        {
            proof {
                assert(self@ == self.data@ && other@ == other.data@);
            }
            out[i] = self.data[i] / other.data[i];
            i = i + 1;
        }
        Point::new(out)
    }

    /// Componentwise remainder.
    pub fn rem(self, other: Point<N>) -> (r: Self)
        requires
            forall|k: int| 0 <= k < N ==> #[trigger] other@[k] != 0,
            forall|k: int| 0 <= k < N ==> !(#[trigger] self@[k] == i64::MIN && other@[k] == -1),
        ensures
            r@.len() == N,
            forall|k: int| 0 <= k < N ==> #[trigger] r@[k] == trem(self@[k], other@[k]),
    {
        let mut out = self.data;
        let mut i: usize = 0;
        while i < N
            invariant
                i <= N,
                out@.len() == N,
                forall|k: int| 0 <= k < N ==> #[trigger] other@[k] != 0,
                forall|k: int|
                    0 <= k < N ==> !(#[trigger] self@[k] == i64::MIN && other@[k] == -1),
                forall|k: int| i <= k < N ==> out@[k] == self@[k],
                forall|k: int| 0 <= k < i ==> #[trigger] out@[k] == trem(self@[k], other@[k]),
            decreases N - i,
        {
            proof {
                assert(self@ == self.data@ && other@ == other.data@);
            }
            out[i] = self.data[i] % other.data[i];
            i = i + 1;
        }
        Point::new(out)
    }

    /// The dot product, accumulated left to right.
    pub fn dot(self, other: Point<N>) -> (r: i64)
        requires
            N >= 1,
            forall|k: int|
                0 <= k < N ==> i64::MIN <= #[trigger] (self@[k] * other@[k]) <= i64::MAX,
            forall|k: int|
                1 <= k <= N ==> i64::MIN <= #[trigger] dot_spec(self@, other@, k) <= i64::MAX,
        ensures
            r == dot_spec(self@, other@, N as int),
    {
        proof {
            assert(self@ == self.data@ && other@ == other.data@);
        }
        proof {
            assert(self@ == self.data@ && other@ == other.data@);
            assert(self@.len() == N && other@.len() == N);
            assert(dot_spec(self@, other@, 0) == 0);
            assert(dot_spec(self@, other@, 1) == self@[0] * other@[0]);
        }
        let mut acc: i64 = self.data[0] * other.data[0];
        let mut i: usize = 1;
        while i < N
            invariant
                1 <= i <= N,
                self@.len() == N,
                other@.len() == N,
                forall|k: int|
                    0 <= k < N ==> i64::MIN <= #[trigger] (self@[k] * other@[k]) <= i64::MAX,
                forall|k: int|
                    1 <= k <= N ==> i64::MIN <= #[trigger] dot_spec(self@, other@, k) <= i64::MAX,
                acc == dot_spec(self@, other@, i as int),
            decreases N - i,
        {
            proof {
                assert(self@ == self.data@ && other@ == other.data@);
                assert(dot_spec(self@, other@, i as int + 1) == dot_spec(
                    self@,
                    other@,
                    i as int,
                ) + self@[i as int] * other@[i as int]);
            }
            acc = acc + self.data[i] * other.data[i];
            i = i + 1;
        }
        acc
    }

    /// Componentwise negation.
    pub fn neg(self) -> (r: Self)
        requires
            forall|k: int| 0 <= k < N ==> #[trigger] self@[k] != i64::MIN,
        ensures
            r@.len() == N,
            forall|k: int| 0 <= k < N ==> #[trigger] r@[k] == -self@[k],
    {
        let mut out = self.data;
        let mut i: usize = 0;
        while i < N
            invariant
                i <= N,
                out@.len() == N,
                forall|k: int| 0 <= k < N ==> #[trigger] self@[k] != i64::MIN,
                forall|k: int| i <= k < N ==> out@[k] == self@[k],
                forall|k: int| 0 <= k < i ==> #[trigger] out@[k] == -self@[k],
            decreases N - i,
        {
            proof {
                assert(self@ == self.data@);
            }
            out[i] = -self.data[i];
            i = i + 1;
        }
        Point::new(out)
    }
}

proof fn lemma_dot_self_nonneg(a: Seq<i64>, k: int)
    ensures
        dot_spec(a, a, k) >= 0,
    decreases k,
{
    if k > 0 && k <= a.len() {
        lemma_dot_self_nonneg(a, k - 1);
        assert(a[k - 1] * a[k - 1] >= 0) by (nonlinear_arith);
    }
}

/// The floor of the square root of `n`.
fn isqrt64(n: u64) -> (r: u64)
    ensures
        r * r <= n,
        n < (r + 1) * (r + 1),
{
    let mut lo: u64 = 0;
    let mut hi: u64 = 0x1_0000_0000;
    proof {
        assert((hi as int) * (hi as int) > n) by (nonlinear_arith)
            requires
                hi == 0x1_0000_0000u64,
                n <= u64::MAX,
        ;
    }
    while lo + 1 < hi
        invariant
            lo < hi <= 0x1_0000_0000,
            (lo as int) * (lo as int) <= n,
            (hi as int) * (hi as int) > n,
        decreases hi - lo,
    {
        let mid: u64 = lo + (hi - lo) / 2;
        proof {
            assert((mid as int) * (mid as int) < 0x1_0000_0000_0000_0000) by (nonlinear_arith)
                requires
                    mid < 0x1_0000_0000u64,
            ;
        }
        let sq: u128 = (mid as u128) * (mid as u128);
        if sq <= n as u128 {
            lo = mid;
        } else {
            hi = mid;
        }
    }
    lo
}

impl Point<3> {
    /// The floor of the vector's Euclidean length: the integer square root
    /// of the sum of the squared components.
    pub fn mag(self) -> (r: u64)
        requires
            forall|k: int| 0 <= k < 3 ==> i64::MIN <= #[trigger] (self@[k] * self@[k]) <= i64::MAX,
            forall|k: int| 1 <= k <= 3 ==> i64::MIN <= #[trigger] dot_spec(self@, self@, k) <= i64::MAX,
        ensures
            r * r <= dot_spec(self@, self@, 3),
            dot_spec(self@, self@, 3) < (r + 1) * (r + 1),
    {
        let d = self.dot(self);
        proof {
            lemma_dot_self_nonneg(self@, 3);
        }
        isqrt64(d as u64)
    }
}

impl Point<3> {
    /// The cross-like product of the original design, kept componentwise
    /// exact (note the sign of the middle component).
    pub fn cross(self, other: Point<3>) -> (r: Self)
        requires
            i64::MIN <= self@[1] * other@[2] <= i64::MAX,
            i64::MIN <= self@[2] * other@[1] <= i64::MAX,
            i64::MIN <= self@[0] * other@[2] <= i64::MAX,
            i64::MIN <= self@[2] * other@[0] <= i64::MAX,
            i64::MIN <= self@[0] * other@[1] <= i64::MAX,
            i64::MIN <= self@[1] * other@[0] <= i64::MAX,
            i64::MIN <= self@[1] * other@[2] - self@[2] * other@[1] <= i64::MAX,
            i64::MIN <= self@[0] * other@[2] - self@[2] * other@[0] <= i64::MAX,
            i64::MIN <= self@[0] * other@[1] - self@[1] * other@[0] <= i64::MAX,
        ensures
            r@.len() == 3,
            r@[0] == self@[1] * other@[2] - self@[2] * other@[1],
            r@[1] == self@[0] * other@[2] - self@[2] * other@[0],
            r@[2] == self@[0] * other@[1] - self@[1] * other@[0],
    {
        let lhs = self.unwrap();
        let rhs = other.unwrap();
        Point::new(
            [
                lhs[1] * rhs[2] - lhs[2] * rhs[1],
                lhs[0] * rhs[2] - lhs[2] * rhs[0],
                lhs[0] * rhs[1] - lhs[1] * rhs[0],
            ],
        )
    }
}

} // verus!
