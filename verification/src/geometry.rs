//! Lattice geometry: points, vectors and rotations with integer coordinates,
//! exact squared distances, integer square roots and rational interpolation.

use vstd::prelude::*;

verus! {

/// A position on the integer lattice.
#[derive(Clone, Copy, Debug, PartialEq, Eq, Structural)]
pub struct Point3 {
    pub x: i32,
    pub y: i32,
    pub z: i32,
}

/// A displacement or per-axis factor on the integer lattice.
#[derive(Clone, Copy, Debug, PartialEq, Eq, Structural)]
pub struct Vector3 {
    pub x: i32,
    pub y: i32,
    pub z: i32,
}

/// The four fixed-point components of a rotation quaternion. The library
/// carries rotations and selects between them; it never multiplies them.
#[derive(Clone, Copy, Debug, PartialEq, Eq, Structural)]
pub struct UnitQuaternion {
    pub i: i32,
    pub j: i32,
    pub k: i32,
    pub w: i32,
}

/// Squared Euclidean distance between two lattice points.
pub open spec fn dist_sq(a: Point3, b: Point3) -> nat {
    ((a.x - b.x) * (a.x - b.x) + (a.y - b.y) * (a.y - b.y) + (a.z - b.z) * (a.z - b.z)) as nat
}

/// `r` is the integer square root of `n`: the largest `r` with `r * r <= n`.
pub open spec fn is_floor_sqrt(n: nat, r: nat) -> bool {
    r * r <= n < (r + 1) * (r + 1)
}

/// The integer square root, by counting up.
pub open spec fn floor_sqrt(n: nat) -> nat
    decreases n,
{
    if n == 0 {
        0
    } else {
        let r = floor_sqrt((n - 1) as nat);
        if (r + 1) * (r + 1) <= n {
            r + 1
        } else {
            r
        }
    }
}

/// Euclidean distance between two lattice points, rounded down.
pub open spec fn dist(a: Point3, b: Point3) -> nat {
    floor_sqrt(dist_sq(a, b))
}

/// `floor_sqrt` meets its characterisation.
pub proof fn lemma_floor_sqrt_is_root(n: nat)
    ensures
        is_floor_sqrt(n, floor_sqrt(n)),
    decreases n,
{
    if n == 0 {
        assert(0 * 0 == 0 && (0 + 1) * (0 + 1) == 1) by (nonlinear_arith);
    } else {
        lemma_floor_sqrt_is_root((n - 1) as nat);
        let r = floor_sqrt((n - 1) as nat);
        assert((r + 1 + 1) * (r + 1 + 1) > (r + 1) * (r + 1)) by (nonlinear_arith)
            requires
                r >= 0,
        ;
        assert(r * r <= (r + 1) * (r + 1)) by (nonlinear_arith)
            requires
                r >= 0,
        ;
    }
}

/// The integer square root is unique.
pub proof fn lemma_floor_sqrt_unique(n: nat, r1: nat, r2: nat)
    requires
        is_floor_sqrt(n, r1),
        is_floor_sqrt(n, r2),
    ensures
        r1 == r2,
{
    if r1 < r2 {
        assert((r1 + 1) * (r1 + 1) <= r2 * r2) by (nonlinear_arith)
            requires
                r1 + 1 <= r2,
        ;
    } else if r2 < r1 {
        assert((r2 + 1) * (r2 + 1) <= r1 * r1) by (nonlinear_arith)
            requires
                r2 + 1 <= r1,
        ;
    }
}

/// Integer square root of a 128-bit number by bisection.
pub fn isqrt(n: u128) -> (r: u64)
    ensures
        r == floor_sqrt(n as nat),
        is_floor_sqrt(n as nat, r as nat),
{
    let mut lo: u128 = 0;
    let mut hi: u128 = 0x1_0000_0000_0000_0000;
    assert(hi * hi > n) by {
        assert(0x1_0000_0000_0000_0000int * 0x1_0000_0000_0000_0000int
            == 0x1_0000_0000_0000_0000_0000_0000_0000_0000int) by (nonlinear_arith);
    }
    while hi - lo > 1
        invariant
            lo < hi <= 0x1_0000_0000_0000_0000,
            lo * lo <= n,
            (hi as int) * (hi as int) > n,
        decreases hi - lo,
    {
        let mid: u128 = lo + (hi - lo) / 2;
        assert(mid * mid <= 0xffff_ffff_ffff_ffffint * 0xffff_ffff_ffff_ffffint) by (nonlinear_arith)
            requires
                0 <= mid <= 0xffff_ffff_ffff_ffffint,
        ;
        assert(0xffff_ffff_ffff_ffffint * 0xffff_ffff_ffff_ffffint < 0x1_0000_0000_0000_0000_0000_0000_0000_0000int)
            by (nonlinear_arith);
        if mid * mid <= n {
            lo = mid;
        } else {
            hi = mid;
        }
    }
    proof {
        lemma_floor_sqrt_is_root(n as nat);
        lemma_floor_sqrt_unique(n as nat, lo as nat, floor_sqrt(n as nat));
    }
    lo as u64
}

/// Absolute difference of two coordinates.
fn abs_diff(a: i32, b: i32) -> (r: u64)
    ensures
        r == if a >= b { a - b } else { b - a },
        r <= 0xffff_ffff,
{
    if a >= b {
        (a as i64 - b as i64) as u64
    } else {
        (b as i64 - a as i64) as u64
    }
}

/// Square of a coordinate difference.
fn square(d: u64) -> (r: u128)
    requires
        d <= 0xffff_ffff,
    ensures
        r == d * d,
        r <= 0xffff_ffffint * 0xffff_ffffint,
{
    assert(d * d <= 0xffff_ffffint * 0xffff_ffffint) by (nonlinear_arith)
        requires
            0 <= d <= 0xffff_ffffint,
    ;
    (d as u128) * (d as u128)
}

/// Exact squared distance between two points.
pub fn distance_squared(a: &Point3, b: &Point3) -> (r: u128)
    ensures
        r == dist_sq(*a, *b),
        r <= 3 * (0xffff_ffffint * 0xffff_ffffint),
{
    let dx: u64 = abs_diff(a.x, b.x);
    let dy: u64 = abs_diff(a.y, b.y);
    let dz: u64 = abs_diff(a.z, b.z);
    assert(dx * dx == (a.x - b.x) * (a.x - b.x)) by (nonlinear_arith)
        requires
            dx == a.x - b.x || dx == b.x - a.x,
    ;
    assert(dy * dy == (a.y - b.y) * (a.y - b.y)) by (nonlinear_arith)
        requires
            dy == a.y - b.y || dy == b.y - a.y,
    ;
    assert(dz * dz == (a.z - b.z) * (a.z - b.z)) by (nonlinear_arith)
        requires
            dz == a.z - b.z || dz == b.z - a.z,
    ;
    square(dx) + square(dy) + square(dz)
}

/// Euclidean distance between two points, rounded down.
pub fn distance(a: &Point3, b: &Point3) -> (r: u64)
    ensures
        r == dist(*a, *b),
{
    isqrt(distance_squared(a, b))
}

/// The least `r` with `n <= r * r`.
pub open spec fn ceil_sqrt(n: nat) -> nat {
    if floor_sqrt(n) * floor_sqrt(n) == n {
        floor_sqrt(n)
    } else {
        floor_sqrt(n) + 1
    }
}

/// Euclidean distance between two lattice points, rounded up.
pub open spec fn dist_up(a: Point3, b: Point3) -> nat {
    ceil_sqrt(dist_sq(a, b))
}

/// Euclidean distance between two points, rounded up.
pub fn distance_up(a: &Point3, b: &Point3) -> (r: u64)
    ensures
        r == dist_up(*a, *b),
{
    let n: u128 = distance_squared(a, b);
    let root: u64 = isqrt(n);
    assert(root * root <= 0xffff_ffff_ffff_ffffint * 0xffff_ffff_ffff_ffffint) by (nonlinear_arith)
        requires
            0 <= root <= 0xffff_ffff_ffff_ffffint,
    ;
    if (root as u128) * (root as u128) == n {
        root
    } else {
        assert(root < 0xffff_ffff_ffff_ffff) by {
            // The squared distance of two points is far below the square of
            // the largest root.
            assert(n <= 3 * (0xffff_ffffint * 0xffff_ffffint));
            if root == 0xffff_ffff_ffff_ffff {
                assert(root * root > 3 * (0xffff_ffffint * 0xffff_ffffint)) by (nonlinear_arith)
                    requires
                        root == 0xffff_ffff_ffff_ffffint,
                ;
            }
        }
        root + 1
    }
}

/// The product of two sums of three squares is no less than the square of
/// the sum of the three products.
proof fn lemma_cauchy_schwarz(x1: int, x2: int, x3: int, y1: int, y2: int, y3: int)
    ensures
        (x1 * y1 + x2 * y2 + x3 * y3) * (x1 * y1 + x2 * y2 + x3 * y3) <= (x1 * x1 + x2 * x2 + x3 * x3)
            * (y1 * y1 + y2 * y2 + y3 * y3),
{
    let a11 = x1 * y1;
    let a12 = x1 * y2;
    let a13 = x1 * y3;
    let a21 = x2 * y1;
    let a22 = x2 * y2;
    let a23 = x2 * y3;
    let a31 = x3 * y1;
    let a32 = x3 * y2;
    let a33 = x3 * y3;
    lemma_square_of_product(x1, y1);
    lemma_square_of_product(x1, y2);
    lemma_square_of_product(x1, y3);
    lemma_square_of_product(x2, y1);
    lemma_square_of_product(x2, y2);
    lemma_square_of_product(x2, y3);
    lemma_square_of_product(x3, y1);
    lemma_square_of_product(x3, y2);
    lemma_square_of_product(x3, y3);
    let sx1 = x1 * x1;
    let sx2 = x2 * x2;
    let sx3 = x3 * x3;
    let sy1 = y1 * y1;
    let sy2 = y2 * y2;
    let sy3 = y3 * y3;
    let sy = sy1 + sy2 + sy3;
    assert((sx1 + sx2 + sx3) * sy == sx1 * sy + sx2 * sy + sx3 * sy) by (nonlinear_arith);
    lemma_distribute(sx1, sy1, sy2, sy3);
    lemma_distribute(sx2, sy1, sy2, sy3);
    lemma_distribute(sx3, sy1, sy2, sy3);
    assert((a11 + a22 + a33) * (a11 + a22 + a33) == a11 * a11 + a22 * a22 + a33 * a33 + 2 * (a11
        * a22) + 2 * (a11 * a33) + 2 * (a22 * a33)) by (nonlinear_arith);
    lemma_exchange(x1, y1, x2, y2);
    lemma_exchange(x1, y1, x3, y3);
    lemma_exchange(x2, y2, x3, y3);
    lemma_square_of_difference(a12, a21);
    lemma_square_of_difference(a13, a31);
    lemma_square_of_difference(a23, a32);
}

/// A product with a sum of three is the sum of the three products.
proof fn lemma_distribute(a: int, b1: int, b2: int, b3: int)
    ensures
        a * (b1 + b2 + b3) == a * b1 + a * b2 + a * b3,
{
    assert(a * (b1 + b2 + b3) == a * b1 + a * b2 + a * b3) by (nonlinear_arith);
}

/// The square of a product is the product of the squares.
proof fn lemma_square_of_product(x: int, y: int)
    ensures
        (x * x) * (y * y) == (x * y) * (x * y),
{
    assert((x * x) * (y * y) == (x * y) * (x * y)) by (nonlinear_arith);
}

/// In a product of four the inner two may change places.
proof fn lemma_exchange(x1: int, y1: int, x2: int, y2: int)
    ensures
        (x1 * y1) * (x2 * y2) == (x1 * y2) * (x2 * y1),
{
    assert((x1 * y1) * (x2 * y2) == (x1 * y2) * (x2 * y1)) by (nonlinear_arith);
}

/// The square of a difference is not negative.
proof fn lemma_square_of_difference(a: int, b: int)
    ensures
        a * a + b * b - 2 * (a * b) >= 0,
{
    assert(a * a + b * b - 2 * (a * b) == (a - b) * (a - b)) by (nonlinear_arith);
    assert((a - b) * (a - b) >= 0) by (nonlinear_arith);
}

/// A number whose square lies below the square of a number that is not
/// negative lies below that number.
proof fn lemma_below_root(d: int, m: int)
    requires
        0 <= m,
        d * d < m * m,
    ensures
        d < m,
{
    if d >= m {
        assert(d * d >= m * m) by (nonlinear_arith)
            requires
                d >= m,
                m >= 0,
        ;
    }
}

/// The way from `a` to `c` is no longer than the way over `b`: the distance
/// from `a` to `c`, rounded down, is at most the distance from `a` to `b`,
/// rounded up, plus the distance from `b` to `c`, rounded down.
pub proof fn lemma_triangle(a: Point3, b: Point3, c: Point3)
    ensures
        dist(a, c) <= dist_up(a, b) + dist(b, c),
{
    let x1 = a.x - b.x;
    let x2 = a.y - b.y;
    let x3 = a.z - b.z;
    let y1 = b.x - c.x;
    let y2 = b.y - c.y;
    let y3 = b.z - c.z;
    let first = x1 * x1 + x2 * x2 + x3 * x3;
    let second = y1 * y1 + y2 * y2 + y3 * y3;
    let cross = x1 * y1 + x2 * y2 + x3 * y3;
    let whole = (a.x - c.x) * (a.x - c.x) + (a.y - c.y) * (a.y - c.y) + (a.z - c.z) * (a.z - c.z);
    assert(first >= 0 && second >= 0 && whole >= 0) by (nonlinear_arith)
        requires
            first == x1 * x1 + x2 * x2 + x3 * x3,
            second == y1 * y1 + y2 * y2 + y3 * y3,
            whole == (a.x - c.x) * (a.x - c.x) + (a.y - c.y) * (a.y - c.y) + (a.z - c.z) * (a.z
                - c.z),
    ;
    assert(whole == first + 2 * cross + second) by (nonlinear_arith)
        requires
            x1 == a.x - b.x,
            x2 == a.y - b.y,
            x3 == a.z - b.z,
            y1 == b.x - c.x,
            y2 == b.y - c.y,
            y3 == b.z - c.z,
            first == x1 * x1 + x2 * x2 + x3 * x3,
            second == y1 * y1 + y2 * y2 + y3 * y3,
            cross == x1 * y1 + x2 * y2 + x3 * y3,
            whole == (a.x - c.x) * (a.x - c.x) + (a.y - c.y) * (a.y - c.y) + (a.z - c.z) * (a.z
                - c.z),
    ;
    lemma_cauchy_schwarz(x1, x2, x3, y1, y2, y3);
    lemma_floor_sqrt_is_root(first as nat);
    lemma_floor_sqrt_is_root(second as nat);
    lemma_floor_sqrt_is_root(whole as nat);
    let p = dist_up(a, b) as int;
    let q = dist(b, c) as int;
    let r = dist(a, c) as int;
    assert(first <= p * p) by {
        let f = floor_sqrt(first as nat) as int;
        if f * f != first {
            assert((f + 1) * (f + 1) == p * p);
        }
    }
    if r > p + q {
        // Then the square of the whole way would exceed itself.
        let m = p * (q + 1);
        assert(first * second <= (p * p) * second) by (nonlinear_arith)
            requires
                first <= p * p,
                second >= 0,
        ;
        assert(cross * cross <= (p * p) * second);
        if p == 0 {
            assert(first == 0) by {
                let f = floor_sqrt(first as nat) as int;
                assert(f == 0);
                assert(f * f == 0) by (nonlinear_arith)
                    requires
                        f == 0,
                ;
            }
            assert(cross * cross <= 0) by (nonlinear_arith)
                requires
                    cross * cross <= (p * p) * second,
                    p == 0,
            ;
            assert(cross == 0) by (nonlinear_arith)
                requires
                    cross * cross <= 0,
            ;
            assert(r * r <= whole);
            assert(whole == second);
            assert(r * r >= (q + 1) * (q + 1)) by (nonlinear_arith)
                requires
                    r >= q + 1,
                    q >= 0,
            ;
        } else {
            assert((p * p) * second < (p * p) * ((q + 1) * (q + 1))) by (nonlinear_arith)
                requires
                    second < (q + 1) * (q + 1),
                    p > 0,
            ;
            assert((p * p) * ((q + 1) * (q + 1)) == m * m) by (nonlinear_arith)
                requires
                    m == p * (q + 1),
            ;
            assert(m >= 0) by (nonlinear_arith)
                requires
                    m == p * (q + 1),
                    p >= 0,
                    q >= 0,
            ;
            lemma_below_root(cross, m);
            assert(whole < p * p + 2 * m + (q + 1) * (q + 1));
            assert(p * p + 2 * m + (q + 1) * (q + 1) == (p + q + 1) * (p + q + 1)) by (nonlinear_arith)
                requires
                    m == p * (q + 1),
            ;
            assert(r * r >= (p + q + 1) * (p + q + 1)) by (nonlinear_arith)
                requires
                    r >= p + q + 1,
                    p + q + 1 >= 0,
            ;
        }
    }
}

/// The value `num / den` of the way from `a` to `b`, rounded toward `a`.
pub open spec fn lerp_coord(a: int, b: int, num: nat, den: nat) -> int {
    if b >= a {
        a + ((b - a) * num) / (den as int)
    } else {
        a - ((a - b) * num) / (den as int)
    }
}

/// The interpolated coordinate lies between its two ends.
pub proof fn lemma_lerp_between(a: int, b: int, num: nat, den: nat)
    requires
        0 < den,
        num <= den,
    ensures
        a <= b ==> a <= lerp_coord(a, b, num, den) <= b,
        b <= a ==> b <= lerp_coord(a, b, num, den) <= a,
        num == 0 ==> lerp_coord(a, b, num, den) == a,
        num == den ==> lerp_coord(a, b, num, den) == b,
{
    let d: int = if b >= a { b - a } else { a - b };
    let q: int = (d * num) / (den as int);
    assert(0 <= d * num <= d * den) by (nonlinear_arith)
        requires
            0 <= d,
            0 <= num <= den,
    ;
    vstd::arithmetic::div_mod::lemma_div_is_ordered(0, d * num, den as int);
    vstd::arithmetic::div_mod::lemma_div_is_ordered(d * num, d * den, den as int);
    vstd::arithmetic::div_mod::lemma_div_multiples_vanish(d, den as int);
    assert(d * den == den * d) by (nonlinear_arith);
    assert(0int / (den as int) == 0) by {
        vstd::arithmetic::div_mod::lemma_div_multiples_vanish(0, den as int);
        assert(den * 0 == 0) by (nonlinear_arith);
    }
    if num == 0 {
        assert(d * num == 0) by (nonlinear_arith)
            requires
                num == 0,
        ;
    }
}

/// One coordinate of an interpolation.
pub fn lerp(a: i32, b: i32, num: u64, den: u64) -> (r: i32)
    requires
        0 < den,
        num <= den,
    ensures
        r == lerp_coord(a as int, b as int, num as nat, den as nat),
{
    proof {
        lemma_lerp_between(a as int, b as int, num as nat, den as nat);
    }
    let d: u64 = abs_diff(a, b);
    assert(d * num <= 0xffff_ffffint * 0xffff_ffff_ffff_ffffint) by (nonlinear_arith)
        requires
            0 <= d <= 0xffff_ffffint,
            0 <= num <= 0xffff_ffff_ffff_ffffint,
    ;
    let step: u128 = ((d as u128) * (num as u128)) / (den as u128);
    if b >= a {
        (a as i128 + step as i128) as i32
    } else {
        (a as i128 - step as i128) as i32
    }
}

impl Point3 {
    pub fn new(x: i32, y: i32, z: i32) -> (p: Point3)
        ensures
            p == (Point3 { x, y, z }),
    {
        Point3 { x, y, z }
    }

    /// The point `num / den` of the way from `self` to `other`.
    pub open spec fn lerp_spec(self, other: Point3, num: nat, den: nat) -> Point3 {
        Point3 {
            x: lerp_coord(self.x as int, other.x as int, num, den) as i32,
            y: lerp_coord(self.y as int, other.y as int, num, den) as i32,
            z: lerp_coord(self.z as int, other.z as int, num, den) as i32,
        }
    }

    pub fn lerp(&self, other: &Point3, num: u64, den: u64) -> (p: Point3)
        requires
            0 < den,
            num <= den,
        ensures
            p == self.lerp_spec(*other, num as nat, den as nat),
    {
        Point3 {
            x: lerp(self.x, other.x, num, den),
            y: lerp(self.y, other.y, num, den),
            z: lerp(self.z, other.z, num, den),
        }
    }
}

impl Vector3 {
    pub fn new(x: i32, y: i32, z: i32) -> (v: Vector3)
        ensures
            v == (Vector3 { x, y, z }),
    {
        Vector3 { x, y, z }
    }

    /// The vector `num / den` of the way from `self` to `other`.
    pub open spec fn lerp_spec(self, other: Vector3, num: nat, den: nat) -> Vector3 {
        Vector3 {
            x: lerp_coord(self.x as int, other.x as int, num, den) as i32,
            y: lerp_coord(self.y as int, other.y as int, num, den) as i32,
            z: lerp_coord(self.z as int, other.z as int, num, den) as i32,
        }
    }

    pub fn lerp(&self, other: &Vector3, num: u64, den: u64) -> (v: Vector3)
        requires
            0 < den,
            num <= den,
        ensures
            v == self.lerp_spec(*other, num as nat, den as nat),
    {
        Vector3 {
            x: lerp(self.x, other.x, num, den),
            y: lerp(self.y, other.y, num, den),
            z: lerp(self.z, other.z, num, den),
        }
    }
}

impl UnitQuaternion {
    pub fn new(i: i32, j: i32, k: i32, w: i32) -> (q: UnitQuaternion)
        ensures
            q == (UnitQuaternion { i, j, k, w }),
    {
        UnitQuaternion { i, j, k, w }
    }
}


/// A third of `sum`, rounded toward zero.
pub open spec fn third(sum: int) -> int {
    if sum >= 0 {
        sum / 3
    } else {
        -((-sum) / 3)
    }
}

/// The mean of three coordinates, rounded toward zero.
pub fn mean3(a: i32, b: i32, c: i32) -> (m: i32)
    ensures
        m == third(a + b + c),
{
    let sum: i64 = a as i64 + b as i64 + c as i64;
    (sum / 3) as i32
}

} // verus!
