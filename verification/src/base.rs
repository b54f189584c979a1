use vstd::prelude::*;

verus! {

use vstd::pervasive::VecAdditionalExecFns;

/// A point on the integer grid, also used as a 2-vector.
#[derive(Clone, Copy, Debug, PartialEq, Eq, Structural, Hash)]
pub struct Point(pub i32, pub i32);

/// Absolute value, as a plain integer.
pub open spec fn abs1(x: int) -> int {
    if x < 0 {
        -x
    } else {
        x
    }
}

/// Chebyshev (L-infinity) distance between two points.
pub open spec fn cheb_dist(a: Point, b: Point) -> int {
    vstd::math::max(abs1(a.0 - b.0), abs1(a.1 - b.1))
}

/// Minimum and maximum of the coordinate magnitudes, as a pair.
pub open spec fn abs_min(p: Point) -> int {
    vstd::math::min(abs1(p.0 as int), abs1(p.1 as int))
}

pub open spec fn abs_max(p: Point) -> int {
    vstd::math::max(abs1(p.0 as int), abs1(p.1 as int))
}

/// Squared Euclidean distance between two points.
pub open spec fn dist_sq(a: Point, b: Point) -> int {
    (a.0 - b.0) * (a.0 - b.0) + (a.1 - b.1) * (a.1 - b.1)
}

/// Squared Euclidean length of a vector.
pub open spec fn l2_sq(p: Point) -> int {
    p.0 * p.0 + p.1 * p.1
}

/// The integer approximation of Euclidean length used by some roguelikes:
/// floor((46 * min(|x|, |y|) + 95 * max(|x|, |y|) + 25) / 100).
pub open spec fn nethack_len(p: Point) -> int {
    (46 * abs_min(p) + 95 * abs_max(p) + 25) / 100
}

/// The product of two values in `i32` range stays well within `i64` range.
pub proof fn lemma_mul_i32_bound(a: int, b: int)
    requires
        -0x8000_0000 <= a <= 0x7fff_ffff,
        -0x8000_0000 <= b <= 0x7fff_ffff,
    ensures
        -0x4000_0000_0000_0000 <= a * b <= 0x4000_0000_0000_0000,
{
    assert(-0x4000_0000_0000_0000 <= a * b <= 0x4000_0000_0000_0000) by (nonlinear_arith)
        requires
            -0x8000_0000 <= a <= 0x7fff_ffff,
            -0x8000_0000 <= b <= 0x7fff_ffff,
    ;
}

impl Point {
    /// Componentwise sum of two vectors.
    pub fn add(self, other: Point) -> (r: Point)
        requires
            i32::MIN <= self.0 + other.0 <= i32::MAX,
            i32::MIN <= self.1 + other.1 <= i32::MAX,
        ensures
            r.0 == self.0 + other.0,
            r.1 == self.1 + other.1,
    {
        Point(self.0 + other.0, self.1 + other.1)
    }

    /// Componentwise difference of two vectors.
    pub fn sub(self, other: Point) -> (r: Point)
        requires
            i32::MIN <= self.0 - other.0 <= i32::MAX,
            i32::MIN <= self.1 - other.1 <= i32::MAX,
        ensures
            r.0 == self.0 - other.0,
            r.1 == self.1 - other.1,
    {
        Point(self.0 - other.0, self.1 - other.1)
    }

    /// Dot product, computed in 64 bits.
    pub fn dot(&self, other: Point) -> (r: i64)
        requires
            i64::MIN <= self.0 * other.0 + self.1 * other.1 <= i64::MAX,
        ensures
            r == self.0 * other.0 + self.1 * other.1,
    {
        proof {
            lemma_mul_i32_bound(self.0 as int, other.0 as int);
            lemma_mul_i32_bound(self.1 as int, other.1 as int);
        }
        (self.0 as i64) * (other.0 as i64) + (self.1 as i64) * (other.1 as i64)
    }

    /// Squared Euclidean length, in 64 bits.
    pub fn len_l2_squared(&self) -> (r: i64)
        requires
            l2_sq(*self) <= i64::MAX,
        ensures
            r == l2_sq(*self),
    {
        proof {
            lemma_mul_i32_bound(self.0 as int, self.0 as int);
            lemma_mul_i32_bound(self.1 as int, self.1 as int);
        }
        let x = self.0 as i64;
        let y = self.1 as i64;
        x * x + y * y
    }

    /// True iff the Euclidean length is at most `range - 0.5`.
    pub fn in_l2_range(&self, range: i32) -> (r: bool)
        requires
            l2_sq(*self) <= i64::MAX,
        ensures
            r == (range >= 1 && l2_sq(*self) <= range * range - range),
    {
        if range < 1 {
            return false;
        }
        proof {
            lemma_mul_i32_bound(range as int, range as int);
        }
        let rr = (range as i64) * (range as i64) - (range as i64);
        self.len_l2_squared() <= rr
    }

    /// Taxicab (L1) length.
    pub fn len_taxicab(&self) -> (r: i32)
        requires
            abs1(self.0 as int) + abs1(self.1 as int) <= i32::MAX,
        ensures
            r == abs1(self.0 as int) + abs1(self.1 as int),
    {
        let ax: i32 = if self.0 < 0 {
            -self.0
        } else {
            self.0
        };
        let ay: i32 = if self.1 < 0 {
            -self.1
        } else {
            self.1
        };
        ax + ay
    }

    /// Chebyshev (L-infinity) length. The name is historical: despite the
    /// `l1`, this is the maximum of the coordinate magnitudes.
    pub fn len_l1(&self) -> (r: i32)
        requires
            self.0 > i32::MIN,
            self.1 > i32::MIN,
        ensures
            r == cheb_dist(*self, Point(0, 0)),
    {
        let ax: i32 = if self.0 < 0 {
            -self.0
        } else {
            self.0
        };
        let ay: i32 = if self.1 < 0 {
            -self.1
        } else {
            self.1
        };
        if ax < ay {
            ay
        } else {
            ax
        }
    }

    /// Integer approximation of Euclidean length, in 64-bit math.
    pub fn len_nethack(&self) -> (r: i32)
        requires
            nethack_len(*self) <= i32::MAX,
        ensures
            r == nethack_len(*self),
    {
        let x = self.0 as i64;
        let y = self.1 as i64;
        let ax: i64 = if x < 0 {
            -x
        } else {
            x
        };
        let ay: i64 = if y < 0 {
            -y
        } else {
            y
        };
        let mn: i64 = if ax < ay {
            ax
        } else {
            ay
        };
        let mx: i64 = if ax < ay {
            ay
        } else {
            ax
        };
        let v: i64 = (46 * mn + 95 * mx + 25) / 100;
        v as i32
    }
}

impl Default for Point {
    /// The origin.
    fn default() -> (r: Self)
        ensures
            r == (Point(0, 0)),
    {
        Point(0, 0)
    }
}

/// A dense rectangular grid of copyable cells, stored row-major by `y`.
/// Reads outside the bounds return `default`; writes outside are no-ops.
#[derive(Clone)]
pub struct Matrix<T> {
    pub data: Vec<T>,
    pub size: Point,
    pub default: T,
}

impl<T: Copy> Matrix<T> {
    /// The stored buffer matches the declared size, and an index computation
    /// cannot overflow.
    pub open spec fn wf(self) -> bool {
        &&& 0 <= self.size.0
        &&& 0 <= self.size.1
        &&& self.size.0 * self.size.1 <= i32::MAX
        &&& self.data@.len() == self.size.0 * self.size.1
    }

    pub open spec fn spec_contains(self, p: Point) -> bool {
        0 <= p.0 < self.size.0 && 0 <= p.1 < self.size.1
    }

    /// Row-major position of an in-bounds point.
    pub open spec fn spec_index_of(self, p: Point) -> int {
        p.0 + p.1 * self.size.0
    }

    /// The value a read at `p` observes: the stored cell in bounds, the
    /// default outside.
    pub open spec fn spec_get(self, p: Point) -> T {
        if self.spec_contains(p) {
            self.data@[self.spec_index_of(p)]
        } else {
            self.default
        }
    }

    pub fn new(size: Point, value: T) -> (r: Self)
        requires
            0 <= size.0,
            0 <= size.1,
            size.0 * size.1 <= i32::MAX,
        ensures
            r.wf(),
            r.size == size,
            r.default == value,
            forall|p: Point| r.spec_get(p) == value,
            forall|i: int| 0 <= i < r.data@.len() ==> #[trigger] r.data@[i] == value,
    {
        let n = (size.0 * size.1) as usize;
        let mut data: Vec<T> = Vec::new();
        while data.len() < n
            invariant
                data@.len() <= n,
                forall|i: int| 0 <= i < data@.len() ==> data@[i] == value,
            decreases n - data@.len(),
        {
            data.push(value);
        }
        let r = Matrix { data, size, default: value };
        proof {
            assert forall|p: Point| r.spec_get(p) == value by {
                if r.spec_contains(p) {
                    lemma_row_major_bounds(p.0 as int, p.1 as int, size.0 as int, size.1 as int);
                }
            }
        }
        r
    }

    pub fn contains(&self, point: Point) -> (r: bool)
        ensures
            r == self.spec_contains(point),
    {
        0 <= point.0 && point.0 < self.size.0 && 0 <= point.1 && point.1 < self.size.1
    }

    pub fn index(&self, point: Point) -> (r: Option<usize>)
        requires
            self.wf(),
        ensures
            self.spec_contains(point) ==> r == Some((self.spec_index_of(point)) as usize)
                && 0 <= self.spec_index_of(point) < self.data@.len(),
            !self.spec_contains(point) ==> r is None,
    {
        if !self.contains(point) {
            return None;
        }
        proof {
            lemma_row_major_bounds(point.0 as int, point.1 as int, self.size.0 as int,
                self.size.1 as int);
        }
        Some((point.0 + point.1 * self.size.0) as usize)
    }

    pub fn get(&self, point: Point) -> (r: T)
        requires
            self.wf(),
        ensures
            r == self.spec_get(point),
    {
        match self.index(point) {
            Some(x) => self.data[x],
            None => self.default,
        }
    }

    pub fn set(&mut self, point: Point, value: T)
        requires
            old(self).wf(),
        ensures
            final(self).wf(),
            final(self).size == old(self).size,
            final(self).default == old(self).default,
            final(self).data@.len() == old(self).data@.len(),
            old(self).spec_contains(point) ==> final(self).data@ == old(self).data@.update(
                old(self).spec_index_of(point),
                value,
            ),
            !old(self).spec_contains(point) ==> final(self).data@ == old(self).data@,
            forall|q: Point|
                final(self).spec_get(q) == (if old(self).spec_contains(point) && q == point {
                    value
                } else {
                    old(self).spec_get(q)
                }),
    {
        let idx = self.index(point);
        match idx {
            Some(x) => {
                self.data.set(x, value);
                proof {
                    assert forall|q: Point|
                        self.spec_get(q) == (if old(self).spec_contains(point) && q == point {
                            value
                        } else {
                            old(self).spec_get(q)
                        }) by {
                        if self.spec_contains(q) {
                            lemma_row_major_bounds(q.0 as int, q.1 as int, self.size.0 as int,
                                self.size.1 as int);
                            if q != point {
                                lemma_row_major_injective(q, point, self.size.0 as int,
                                    self.size.1 as int);
                            }
                        }
                    }
                }
            },
            None => {},
        }
    }

    /// Overwrite every cell with `value`; size and default are unchanged.
    pub fn fill(&mut self, value: T)
        requires
            old(self).wf(),
        ensures
            final(self).wf(),
            final(self).size == old(self).size,
            final(self).default == old(self).default,
            final(self).data@.len() == old(self).data@.len(),
            forall|i: int| 0 <= i < final(self).data@.len() ==> final(self).data@[i] == value,
    {
        let n = self.data.len();
        let mut i: usize = 0;
        while i < n
            invariant
                n == self.data@.len(),
                i <= n,
                self.size == old(self).size,
                self.default == old(self).default,
                forall|j: int| 0 <= j < i ==> self.data@[j] == value,
            decreases n - i,
        {
            self.data.set(i, value);
            i = i + 1;
        }
    }

    /// A reference to the cell at `point`, or to the default outside bounds.
    pub fn entry_ref(&self, point: Point) -> (r: &T)
        requires
            self.wf(),
        ensures
            *r == self.spec_get(point),
    {
        match self.index(point) {
            Some(x) => &self.data[x],
            None => &self.default,
        }
    }
}

/// In a `sx`-wide row-major layout, an in-bounds point's position lies inside
/// the buffer.
pub proof fn lemma_row_major_bounds(x: int, y: int, sx: int, sy: int)
    requires
        0 <= x < sx,
        0 <= y < sy,
    ensures
        0 <= x + y * sx < sx * sy,
{
    assert(0 <= x + y * sx < sx * sy) by (nonlinear_arith)
        requires
            0 <= x < sx,
            0 <= y < sy,
    ;
}

/// Distinct in-bounds points occupy distinct row-major positions.
pub proof fn lemma_row_major_injective(a: Point, b: Point, sx: int, sy: int)
    requires
        0 <= a.0 < sx,
        0 <= a.1 < sy,
        0 <= b.0 < sx,
        0 <= b.1 < sy,
        a != b,
    ensures
        a.0 + a.1 * sx != b.0 + b.1 * sx,
{
    assert(a.0 != b.0 || a.1 != b.1);
    assert(a.0 + a.1 * sx != b.0 + b.1 * sx) by (nonlinear_arith)
        requires
            0 <= a.0 < sx,
            0 <= b.0 < sx,
            a.0 != b.0 || a.1 != b.1,
    ;
}

} // verus!
