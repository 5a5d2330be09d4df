//! Exact path lengths on the grid.
//!
//! A path made of `a` straight steps and `b` diagonal steps is `a + b·√2` long.
//! Lengths are kept as the pair `(a, b)` and compared exactly, with integer
//! arithmetic only.

use vstd::prelude::*;

verus! {

/// Whether the number `x + y·√2` is greater than zero.
///
/// When the two terms have opposite signs the sign of the sum is that of the
/// term with the larger square: `x²` against `2·y²`.
pub open spec fn root_positive(x: int, y: int) -> bool {
    ||| (x >= 0 && y >= 0 && x + y > 0)
    ||| (x > 0 && y < 0 && x * x > 2 * (y * y))
    ||| (x < 0 && y > 0 && x * x < 2 * (y * y))
}

proof fn lemma_square_monotone(a: int, b: int)
    by (nonlinear_arith)
    requires
        0 <= a <= b,
    ensures
        a * a <= b * b,
{
}

proof fn lemma_square_negated(a: int)
    by (nonlinear_arith)
    ensures
        (-a) * (-a) == a * a,
{
}

/// `(a·c)² = a²·c²` and `(2·b·d)² = 2b²·2d²`.
proof fn lemma_product_squares(a: int, b: int, c: int, d: int)
    by (nonlinear_arith)
    ensures
        (a * c) * (a * c) == (a * a) * (c * c),
        (2 * (b * d)) * (2 * (b * d)) == (2 * (b * b)) * (2 * (d * d)),
{
}

proof fn lemma_product_monotone(a: int, b: int, c: int, d: int)
    by (nonlinear_arith)
    requires
        0 <= a <= b,
        0 <= c <= d,
    ensures
        a * c <= b * d,
{
}

proof fn lemma_product_strict(a: int, b: int, c: int, d: int)
    by (nonlinear_arith)
    requires
        0 <= a <= b,
        0 <= c < d,
        0 < b,
    ensures
        a * c < b * d,
{
}

/// From `a² ≥ 2b²` and `c² ≥ 2d²` follows `a·c ≥ 2·b·d`, for numbers that are not negative.
proof fn lemma_cross_straight(a: int, b: int, c: int, d: int)
    requires
        0 <= a,
        0 <= b,
        0 <= c,
        0 <= d,
        a * a >= 2 * (b * b),
        c * c >= 2 * (d * d),
    ensures
        a * c >= 2 * (b * d),
{
    let p = a * c;
    let q = 2 * (b * d);
    lemma_product_squares(a, b, c, d);
    lemma_product_monotone(2 * (b * b), a * a, 2 * (d * d), c * c);
    if p < q {
        lemma_product_strict(p, q, p, q);
    }
}

/// From `p² ≤ 2q²` and `c² ≤ 2d²` follows `p·c ≤ 2·q·d`, for numbers that are not negative.
proof fn lemma_cross_diagonal(p: int, q: int, c: int, d: int)
    requires
        0 <= p,
        0 <= q,
        0 <= c,
        0 <= d,
        p * p <= 2 * (q * q),
        c * c <= 2 * (d * d),
    ensures
        p * c <= 2 * (q * d),
{
    let l = p * c;
    let r = 2 * (q * d);
    lemma_product_squares(p, q, c, d);
    lemma_product_monotone(p * p, 2 * (q * q), c * c, 2 * (d * d));
    if r < l {
        lemma_product_strict(r, l, r, l);
    }
}

/// From `p² ≤ 2q²` and `c² < 2d²` follows `p·c < 2·q·d` when `q` is positive.
proof fn lemma_cross_strict(p: int, q: int, c: int, d: int)
    requires
        0 <= p,
        0 < q,
        0 <= c,
        0 <= d,
        p * p <= 2 * (q * q),
        c * c < 2 * (d * d),
    ensures
        p * c < 2 * (q * d),
{
    let l = p * c;
    let r = 2 * (q * d);
    lemma_product_squares(p, q, c, d);
    lemma_product_strict(q, q, 0, q);
    lemma_product_strict(p * p, 2 * (q * q), c * c, 2 * (d * d));
    if r <= l {
        lemma_product_monotone(r, l, r, l);
    }
}

proof fn lemma_binomial(p: int, c: int)
    by (nonlinear_arith)
    ensures
        (p + c) * (p + c) == p * p + 2 * (p * c) + c * c,
{
}

/// The sum of a straight-heavy and a diagonal-heavy positive number is positive:
/// `a - b·√2 > 0` and `d·√2 - c > 0` give `(a - c) + (d - b)·√2 > 0`.
proof fn lemma_mixed_sum(a: int, b: int, c: int, d: int)
    requires
        0 < a,
        0 < b,
        0 < c,
        0 < d,
        a * a > 2 * (b * b),
        c * c < 2 * (d * d),
    ensures
        root_positive(a - c, d - b),
{
    let x = a - c;
    let y = d - b;
    if x >= 0 && y >= 0 {
        if x == 0 && y == 0 {
            assert(false);
        }
    } else if x > 0 && y < 0 {
        let q = b - d;
        lemma_square_negated(q);
        if x * x <= 2 * (q * q) {
            lemma_cross_strict(x, q, c, d);
            lemma_binomial(x, c);
            lemma_binomial(q, d);
        }
    } else if x < 0 && y > 0 {
        let p = c - a;
        lemma_square_negated(p);
        if p * p >= 2 * (y * y) {
            lemma_cross_straight(p, y, a, b);
            lemma_binomial(p, a);
            lemma_binomial(y, b);
        }
    } else {
        lemma_square_monotone(a, c);
        lemma_square_monotone(d, b);
        assert(false);
    }
}

proof fn lemma_add_plain_straight(x1: int, y1: int, x2: int, y2: int)
    requires
        x1 >= 0,
        y1 >= 0,
        x2 > 0,
        y2 < 0,
        x2 * x2 > 2 * (y2 * y2),
    ensures
        root_positive(x1 + x2, y1 + y2),
{
    let x = x1 + x2;
    let y = y1 + y2;
    if y < 0 {
        lemma_square_monotone(x2, x);
        lemma_square_monotone(-y, -y2);
        lemma_square_negated(y);
        lemma_square_negated(y2);
    }
}

proof fn lemma_add_plain_diagonal(x1: int, y1: int, x2: int, y2: int)
    requires
        x1 >= 0,
        y1 >= 0,
        x2 < 0,
        y2 > 0,
        x2 * x2 < 2 * (y2 * y2),
    ensures
        root_positive(x1 + x2, y1 + y2),
{
    let x = x1 + x2;
    let y = y1 + y2;
    if x < 0 {
        lemma_square_monotone(-x, -x2);
        lemma_square_monotone(y2, y);
        lemma_square_negated(x);
        lemma_square_negated(x2);
    }
}

proof fn lemma_add_straight_straight(x1: int, y1: int, x2: int, y2: int)
    requires
        x1 > 0,
        y1 < 0,
        x1 * x1 > 2 * (y1 * y1),
        x2 > 0,
        y2 < 0,
        x2 * x2 > 2 * (y2 * y2),
    ensures
        root_positive(x1 + x2, y1 + y2),
{
    lemma_square_negated(y1);
    lemma_square_negated(y2);
    lemma_cross_straight(x1, -y1, x2, -y2);
    lemma_binomial(x1, x2);
    lemma_binomial(y1, y2);
    assert((-y1) * (-y2) == y1 * y2) by (nonlinear_arith);
}

proof fn lemma_add_diagonal_diagonal(x1: int, y1: int, x2: int, y2: int)
    requires
        x1 < 0,
        y1 > 0,
        x1 * x1 < 2 * (y1 * y1),
        x2 < 0,
        y2 > 0,
        x2 * x2 < 2 * (y2 * y2),
    ensures
        root_positive(x1 + x2, y1 + y2),
{
    lemma_square_negated(x1);
    lemma_square_negated(x2);
    lemma_cross_diagonal(-x1, y1, -x2, y2);
    lemma_binomial(x1, x2);
    lemma_binomial(y1, y2);
    assert((-x1) * (-x2) == x1 * x2) by (nonlinear_arith);
}

/// Positive numbers of the form `x + y·√2` are closed under addition.
pub proof fn lemma_root_positive_add(x1: int, y1: int, x2: int, y2: int)
    requires
        root_positive(x1, y1),
        root_positive(x2, y2),
    ensures
        root_positive(x1 + x2, y1 + y2),
{
    if x1 >= 0 && y1 >= 0 {
        if x2 >= 0 && y2 >= 0 {
        } else if x2 > 0 && y2 < 0 {
            lemma_add_plain_straight(x1, y1, x2, y2);
        } else {
            lemma_add_plain_diagonal(x1, y1, x2, y2);
        }
    } else if x1 > 0 && y1 < 0 {
        if x2 >= 0 && y2 >= 0 {
            lemma_add_plain_straight(x2, y2, x1, y1);
        } else if x2 > 0 && y2 < 0 {
            lemma_add_straight_straight(x1, y1, x2, y2);
        } else {
            lemma_square_negated(y1);
            lemma_square_negated(x2);
            lemma_mixed_sum(x1, -y1, -x2, y2);
        }
    } else {
        if x2 >= 0 && y2 >= 0 {
            lemma_add_plain_diagonal(x2, y2, x1, y1);
        } else if x2 > 0 && y2 < 0 {
            lemma_square_negated(y2);
            lemma_square_negated(x1);
            lemma_mixed_sum(x2, -y2, -x1, y1);
        } else {
            lemma_add_diagonal_diagonal(x1, y1, x2, y2);
        }
    }
}

/// No square of a whole number is twice another, but for zero.
pub proof fn lemma_root_two_irrational(x: nat, y: nat)
    requires
        x * x == 2 * (y * y),
    ensures
        x == 0,
        y == 0,
    decreases x,
{
    if x == 0 {
        if y != 0 {
            lemma_product_strict(0, y as int, 0, y as int);
        }
    } else {
        let k = x / 2;
        if x % 2 == 1 {
            assert(x * x == 2 * (2 * (k * k) + 2 * k) + 1) by (nonlinear_arith)
                requires
                    x == 2 * k + 1,
            ;
            assert(false);
        }
        assert(x * x == 4 * (k * k)) by (nonlinear_arith)
            requires
                x == 2 * k,
        ;
        if y >= x {
            lemma_square_monotone(x as int, y as int);
            lemma_product_strict(0, x as int, 0, x as int);
            assert(false);
        }
        lemma_root_two_irrational(y, k);
        assert(false);
    }
}

/// Of a number `x + y·√2` and its negation exactly one is positive, unless both
/// `x` and `y` are zero.
pub proof fn lemma_root_trichotomy(x: int, y: int)
    ensures
        root_positive(x, y) || root_positive(-x, -y) || (x == 0 && y == 0),
        !(root_positive(x, y) && root_positive(-x, -y)),
        !root_positive(0, 0),
{
    lemma_square_negated(x);
    lemma_square_negated(y);
    if x > 0 && y < 0 && x * x == 2 * (y * y) {
        lemma_root_two_irrational(x as nat, (-y) as nat);
    }
    if x < 0 && y > 0 && x * x == 2 * (y * y) {
        lemma_root_two_irrational((-x) as nat, y as nat);
    }
}

/// Sums of numbers `x + y·√2` that are not negative are not negative.
pub proof fn lemma_not_negative_add(x1: int, y1: int, x2: int, y2: int)
    requires
        !root_positive(-x1, -y1),
        !root_positive(-x2, -y2),
    ensures
        !root_positive(-(x1 + x2), -(y1 + y2)),
{
    lemma_root_trichotomy(x1, y1);
    lemma_root_trichotomy(x2, y2);
    lemma_root_trichotomy(x1 + x2, y1 + y2);
    if root_positive(x1, y1) && root_positive(x2, y2) {
        lemma_root_positive_add(x1, y1, x2, y2);
    }
}

/// The length of a grid path: `straight` steps of length one and `diagonal`
/// steps of length √2.
#[derive(Clone, Copy, Debug, PartialEq, Eq, Structural)]
pub struct Steps {
    pub straight: u32,
    pub diagonal: u32,
}

impl Steps {
    /// The number of steps, of either kind.
    pub open spec fn hops(self) -> int {
        self.straight + self.diagonal
    }

    /// `self` is strictly shorter than `other`.
    pub open spec fn lt(self, other: Steps) -> bool {
        root_positive(other.straight - self.straight, other.diagonal - self.diagonal)
    }

    /// `self` is at most as long as `other`.
    pub open spec fn le(self, other: Steps) -> bool {
        self.lt(other) || self == other
    }

    /// The length of a path of `self` followed by a path of `step`.
    pub open spec fn plus(self, step: Steps) -> Steps {
        Steps {
            straight: (self.straight + step.straight) as u32,
            diagonal: (self.diagonal + step.diagonal) as u32,
        }
    }

    /// The empty path.
    pub fn zero() -> (s: Steps)
        ensures
            s == (Steps { straight: 0, diagonal: 0 }),
    {
        Steps { straight: 0, diagonal: 0 }
    }

    /// Whether `self` is strictly shorter than `other`, decided exactly.
    pub fn shorter_than(&self, other: &Steps) -> (b: bool)
        ensures
            b == self.lt(*other),
    {
        let x: i128 = other.straight as i128 - self.straight as i128;
        let y: i128 = other.diagonal as i128 - self.diagonal as i128;
        assert(x * x <= 0x1_0000_0000_0000_0000 && y * y <= 0x1_0000_0000_0000_0000)
            by (nonlinear_arith)
            requires
                -0x1_0000_0000 < x < 0x1_0000_0000,
                -0x1_0000_0000 < y < 0x1_0000_0000,
        ;
        assert(x * x >= 0 && y * y >= 0) by (nonlinear_arith);
        if x >= 0 && y >= 0 {
            x + y > 0
        } else if x > 0 && y < 0 {
            x * x > 2 * (y * y)
        } else if x < 0 && y > 0 {
            x * x < 2 * (y * y)
        } else {
            false
        }
    }

    /// The length of `self` followed by `step`.
    pub fn extended(&self, step: &Steps) -> (s: Steps)
        requires
            self.straight + step.straight <= u32::MAX,
            self.diagonal + step.diagonal <= u32::MAX,
        ensures
            s == self.plus(*step),
    {
        Steps {
            straight: self.straight + step.straight,
            diagonal: self.diagonal + step.diagonal,
        }
    }
}

/// Being shorter is transitive.
pub proof fn lemma_lt_transitive(a: Steps, b: Steps, c: Steps)
    requires
        a.lt(b),
        b.lt(c),
    ensures
        a.lt(c),
{
    lemma_root_positive_add(
        b.straight - a.straight,
        b.diagonal - a.diagonal,
        c.straight - b.straight,
        c.diagonal - b.diagonal,
    );
}

/// Of two lengths one is shorter, or they are the same; never both.
pub proof fn lemma_lt_total(a: Steps, b: Steps)
    ensures
        a.lt(b) || b.lt(a) || a == b,
        !(a.lt(b) && b.lt(a)),
        !a.lt(a),
{
    lemma_root_trichotomy(b.straight - a.straight, b.diagonal - a.diagonal);
}

/// How far a cell is from the target it leads to.
///
/// `Unreached` stands for no path at all and is farther than everything else.
/// `Path(s)` is the length of a grid path, `s.straight + s.diagonal·√2`.
/// `Sight(n)` belongs to a cell that sees its target along a straight line whose
/// squared length is `n`: the distance is `√n - 1/10`, a little less than the
/// line, so that a line of sight wins against a grid path of the same length.
#[derive(Clone, Copy, Debug, PartialEq, Eq, Structural)]
pub enum Distance {
    Unreached,
    Path(Steps),
    Sight(u32),
}

/// The straight part of `(10·a + 1 + 10·b·√2)² - 100·n`.
pub open spec fn sight_margin_straight(n: int, a: int, b: int) -> int {
    (10 * a + 1) * (10 * a + 1) + 2 * ((10 * b) * (10 * b)) - 100 * n
}

/// The part of `(10·a + 1 + 10·b·√2)² - 100·n` that is a multiple of `√2`.
pub open spec fn sight_margin_diagonal(a: int, b: int) -> int {
    2 * ((10 * a + 1) * (10 * b))
}

/// Whether `√n - 1/10 < a + b·√2`.
///
/// With a tenth added to both sides, times ten and squared, this is
/// `100·n < (10·a + 1 + 10·b·√2)²`, and the square is
/// `(10·a + 1)² + 2·(10·b)²` plus `2·(10·a + 1)·(10·b)` times `√2`.
pub open spec fn sight_below_path(n: int, a: int, b: int) -> bool {
    root_positive(sight_margin_straight(n, a, b), sight_margin_diagonal(a, b))
}

/// Whether `a + b·√2 < √n - 1/10`: the same square, on the other side of `100·n`.
pub open spec fn path_below_sight(n: int, a: int, b: int) -> bool {
    root_positive(-sight_margin_straight(n, a, b), -sight_margin_diagonal(a, b))
}

/// The squared length beyond which a line of sight is no longer followed:
/// `√n - 1/10 > 30` exactly when `100·n > 301²`.
pub open spec fn sight_out_of_range(n: int) -> bool {
    100 * n > 90601
}

impl Distance {
    /// `self` is strictly farther than a grid path of length `s`.
    pub open spec fn beyond_path(self, s: Steps) -> bool {
        match self {
            Distance::Unreached => true,
            Distance::Path(p) => s.lt(p),
            Distance::Sight(n) => path_below_sight(n as int, s.straight as int, s.diagonal as int),
        }
    }

    /// `self` is strictly farther than a line of sight of squared length `n`.
    pub open spec fn beyond_sight(self, n: u32) -> bool {
        match self {
            Distance::Unreached => true,
            Distance::Path(p) => sight_below_path(n as int, p.straight as int, p.diagonal as int),
            Distance::Sight(m) => n < m,
        }
    }

    /// `self` is at most as far as `other`: the same, or `other` is strictly farther.
    pub open spec fn at_most(self, other: Distance) -> bool {
        self == other || match self {
            Distance::Unreached => false,
            Distance::Path(s) => other.beyond_path(s),
            Distance::Sight(n) => other.beyond_sight(n),
        }
    }

    /// Whether a grid path of length `s` would be an improvement on `self`.
    pub fn farther_than_path(&self, s: &Steps) -> (b: bool)
        ensures
            b == self.beyond_path(*s),
    {
        match self {
            Distance::Unreached => true,
            Distance::Path(p) => s.shorter_than(p),
            Distance::Sight(n) => path_is_below_sight(*n, s),
        }
    }

    /// Whether a line of sight of squared length `n` would be an improvement on `self`.
    pub fn farther_than_sight(&self, n: u32) -> (b: bool)
        ensures
            b == self.beyond_sight(n),
    {
        match self {
            Distance::Unreached => true,
            Distance::Path(p) => sight_is_below_path(n, p),
            Distance::Sight(m) => n < *m,
        }
    }
}

proof fn lemma_square_dominates(l: int, r: int)
    by (nonlinear_arith)
    requires
        0 <= l <= r,
        0 < r,
    ensures
        l * l < 2 * (r * r),
{
}

/// The two parts of `(10·a + 1 + 10·b·√2)² - 100·n`, the second one halved
/// and both within 128 bits.
fn sight_margin(n: u32, s: &Steps) -> (m: (i128, i128))
    ensures
        m.0 == sight_margin_straight(n as int, s.straight as int, s.diagonal as int),
        2 * m.1 == sight_margin_diagonal(s.straight as int, s.diagonal as int),
        0 <= m.1,
        -0x64_0000_0000 <= m.0,
{
    let big_a: i128 = 10 * (s.straight as i128) + 1;
    let big_b: i128 = 10 * (s.diagonal as i128);
    assert(0 <= big_a * big_a <= 0x1000_0000_0000_0000_0000 && 0 <= big_b * big_b
        <= 0x1000_0000_0000_0000_0000 && 0 <= big_a * big_b <= 0x1000_0000_0000_0000_0000)
        by (nonlinear_arith)
        requires
            0 <= big_a <= 0x10_0000_0000,
            0 <= big_b <= 0x10_0000_0000,
    ;
    (big_a * big_a + 2 * (big_b * big_b) - 100 * (n as i128), big_a * big_b)
}

/// Decides `sight_below_path` without leaving 128 bits.
pub fn sight_is_below_path(n: u32, s: &Steps) -> (b: bool)
    ensures
        b == sight_below_path(n as int, s.straight as int, s.diagonal as int),
{
    let (x, half) = sight_margin(n, s);
    if x >= 0 {
        x > 0 || half > 0
    } else if half >= -x {
        // the straight part is negative and no larger than the other
        proof {
            lemma_square_dominates(-x as int, 2 * half as int);
            lemma_square_negated(x as int);
        }
        true
    } else {
        let y = 2 * half;
        assert(0 <= y * y <= 0x9c40_0000_0000_0000_0000 && 0 <= x * x
            <= 0x2710_0000_0000_0000_0000) by (nonlinear_arith)
            requires
                0 <= y <= 0xc8_0000_0000,
                -0x64_0000_0000 <= x <= 0,
        ;
        y > 0 && x * x < 2 * (y * y)
    }
}

/// Decides `path_below_sight` without leaving 128 bits.
pub fn path_is_below_sight(n: u32, s: &Steps) -> (b: bool)
    ensures
        b == path_below_sight(n as int, s.straight as int, s.diagonal as int),
{
    let (x, half) = sight_margin(n, s);
    if x >= 0 {
        false
    } else if half >= -x {
        // the straight part on the side of the line is no larger than the other
        proof {
            lemma_square_dominates(-x as int, 2 * half as int);
            lemma_square_negated(2 * half as int);
        }
        false
    } else {
        let y = 2 * half;
        assert(0 <= y * y <= 0x9c40_0000_0000_0000_0000 && 0 <= x * x
            <= 0x2710_0000_0000_0000_0000) by (nonlinear_arith)
            requires
                0 <= y <= 0xc8_0000_0000,
                -0x64_0000_0000 <= x <= 0,
        ;
        proof {
            lemma_square_negated(x as int);
            lemma_square_negated(y as int);
        }
        y == 0 || x * x > 2 * (y * y)
    }
}

/// Whether a line of sight of squared length `n` is too long to be followed further.
pub fn sight_is_out_of_range(n: u32) -> (b: bool)
    ensures
        b == sight_out_of_range(n as int),
{
    100 * (n as u64) > 90601
}

} // verus!
