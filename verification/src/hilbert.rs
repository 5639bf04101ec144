//! The Hilbert curve on a square grid whose side is a power of two.
use crate::curve::{
    curve_distance, curve_point, is_power_of_two, lemma_distance_bound, lemma_double_fits,
    lemma_half, quadrant_digit, rotated,
};
use crate::{Error, SpaceFilling};
use vstd::arithmetic::div_mod::lemma_div_denominator;
use vstd::prelude::*;

verus! {

/// A Hilbert curve over a grid of `n` by `n` cells.
pub struct Hilbert {
    n: u32,
}

/// A positive `n` is a power of two exactly when it shares no bit with `n - 1`.
pub proof fn lemma_power_of_two_bits(n: u32)
    ensures
        is_power_of_two(n as int) <==> (n > 0 && n & ((n - 1) as u32) == 0),
    decreases n,
{
    if n == 1 {
        assert(1u32 & ((1u32 - 1) as u32) == 0) by (bit_vector);
    } else if n >= 2 {
        let m = n / 2;
        lemma_power_of_two_bits(m);
        assert(n >= 2 && m == n / 2 ==> ((n & ((n - 1) as u32) == 0) <==> (n % 2 == 0 && m > 0 && m & ((m
            - 1) as u32) == 0))) by (bit_vector);
    }
}

impl Hilbert {
    #[verifier::type_invariant]
    spec fn well_formed(&self) -> bool {
        is_power_of_two(self.n as int)
    }

    /// The side of the grid.
    pub closed spec fn side(&self) -> int {
        self.n as int
    }

    /// A curve over a grid of side `n`, which must be a power of two.
    pub fn new(n: u32) -> (r: Result<Hilbert, Error>)
        ensures
            n == 0 ==> r == Err::<Hilbert, Error>(Error::NotPositive),
            n > 0 && !is_power_of_two(n as int) ==> r == Err::<Hilbert, Error>(
                Error::NotPowerOfTwo,
            ),
            is_power_of_two(n as int) ==> r.is_ok() && r.unwrap().side() == n,
    {
        if n == 0 {
            Err(Error::NotPositive)
        } else {
            proof {
                lemma_power_of_two_bits(n);
            }
            if n & (n - 1) != 0 {
                Err(Error::NotPowerOfTwo)
            } else {
                Ok(Hilbert { n })
            }
        }
    }
}

/// Turns the cell `(x, y)` of a square of side `n` as the quadrant `(rx, ry)`
/// of the curve is oriented.
pub fn rotate(n: u32, x: u32, y: u32, rx: bool, ry: bool) -> (r: (u32, u32))
    requires
        x < n,
        y < n,
    ensures
        (r.0 as int, r.1 as int) == rotated(n as int, x as int, y as int, rx, ry),
        r.0 < n,
        r.1 < n,
{
    if !ry {
        if rx {
            (n - 1 - y, n - 1 - x)
        } else {
            (y, x)
        }
    } else {
        (x, y)
    }
}

/// A power of two below 2^16 has a square that fits in 32 bits.
proof fn lemma_square_fits(i: int)
    requires
        0 <= i <= 32768,
    ensures
        0 <= i * i <= 0x4000_0000,
        3 * (i * i) <= 0xC000_0000,
{
    assert(0 <= i * i <= 0x4000_0000) by (nonlinear_arith)
        requires
            0 <= i <= 32768,
    ;
}

impl SpaceFilling<u32> for Hilbert {
    open spec fn value(v: u32) -> int {
        v as int
    }

    open spec fn limit() -> int {
        0xFFFF_FFFF
    }

    open spec fn extent(&self) -> (int, int) {
        (self.side(), self.side())
    }

    open spec fn cells(&self) -> int {
        self.side() * self.side()
    }

    open spec fn point(&self, t: int) -> (int, int) {
        curve_point(self.side(), t)
    }

    open spec fn distance(&self, x: int, y: int) -> int {
        curve_distance(self.side(), x, y)
    }

    /// The cell at distance `t`, found from the base-4 digits of `t`, lowest
    /// first: each digit picks a quadrant of a square twice as large.
    fn map(&self, t: u32) -> (r: Result<(u32, u32), Error>)
        ensures
            t < self.side() * self.side() ==> r.is_ok() && r.unwrap().0 < self.side() && r.unwrap().1
                < self.side() && (r.unwrap().0 as int, r.unwrap().1 as int) == curve_point(
                self.side(),
                t as int,
            ),
            t >= self.side() * self.side() ==> r == Err::<(u32, u32), Error>(Error::OutOfRange),
    {
        proof {
            use_type_invariant(self);
        }
        let n = self.n;
        assert((n as u64) * (n as u64) <= 0xFFFF_FFFF * 0xFFFF_FFFF) by (nonlinear_arith)
            requires
                n <= 0xFFFF_FFFF,
        ;
        if (t as u64) >= (n as u64) * (n as u64) {
            return Err(Error::OutOfRange);
        }
        let ghost t0 = t as int;
        let mut t: u32 = t;
        let mut x: u32 = 0;
        let mut y: u32 = 0;
        let mut i: u32 = 1;
        assert(t0 / (1int * 1int) == t0);
        while i < n
            invariant
                is_power_of_two(n as int),
                is_power_of_two(i as int),
                i <= n,
                x < i,
                y < i,
                t0 >= 0,
                t as int == t0 / ((i as int) * (i as int)),
                (x as int, y as int) == curve_point(i as int, t0),
            decreases n - i,
        {
            let rx = t & 2 == 2;
            let mut ry = t & 1 == 1;
            if rx {
                ry = !ry;
            }
            proof {
                lemma_double_fits(i as int, n as int);
                lemma_half(2 * (i as int));
                assert((t & 2 == 2) == (t % 4 >= 2)) by (bit_vector);
                assert((t & 1 == 1) == ((t % 4) % 2 == 1)) by (bit_vector);
                let m = (i as int) * (i as int);
                lemma_div_denominator(t0, m, 4);
                assert((2 * i) * (2 * i) == m * 4) by (nonlinear_arith)
                    requires
                        m == (i as int) * (i as int),
                ;
            }
            let turned = rotate(i, x, y, rx, ry);
            x = turned.0;
            y = turned.1;
            if rx {
                x = x + i;
            }
            if ry {
                y = y + i;
            }
            t /= 4;
            i *= 2;
        }
        Ok((x, y))
    }

    /// The distance of the cell `(x, y)`, built from the bits of `x` and `y`,
    /// highest first: each pair of bits gives a base-4 digit of the distance.
    ///
    /// The caller's duty, stated by the trait, is that every distance fits in
    /// 32 bits: the side is at most 65536.
    fn map_inverse(&self, x: u32, y: u32) -> (r: Result<u32, Error>)
        ensures
            x < self.side() && y < self.side() ==> r.is_ok() && r.unwrap() < self.side()
                * self.side() && r.unwrap() as int == curve_distance(
                self.side(),
                x as int,
                y as int,
            ),
            x >= self.side() || y >= self.side() ==> r == Err::<u32, Error>(Error::OutOfRange),
    {
        proof {
            use_type_invariant(self);
        }
        let n = self.n;
        assert(n <= 65536) by (nonlinear_arith)
            requires
                n * n <= 0x1_0000_0000,
        ;
        if x >= n || y >= n {
            return Err(Error::OutOfRange);
        }
        let ghost total = curve_distance(n as int, x as int, y as int);
        let ghost mut s: int = n as int;
        let mut x: u32 = x;
        let mut y: u32 = y;
        let mut t: u32 = 0;
        let mut i: u32 = n / 2;
        proof {
            lemma_distance_bound(n as int, x as int, y as int);
            assert(n * n <= 65536 * 65536) by (nonlinear_arith)
                requires
                    0 <= n <= 65536,
            ;
        }
        while i > 0
            invariant
                is_power_of_two(s),
                s <= 65536,
                i as int == s / 2,
                x < s,
                y < s,
                total < 0x1_0000_0000,
                t + curve_distance(s, x as int, y as int) == total,
            decreases i,
        {
            let rx = (x & i) > 0;
            let ry = (y & i) > 0;
            let mut a: u32 = 0;
            if rx {
                a = 3;
            }
            let b: u32 = if ry { 1 } else { 0 };
            proof {
                lemma_half(s);
                lemma_power_of_two_bits(i);
                assert(0 < i <= 0x8000 && i & ((i - 1) as u32) == 0 && x < 2 * i ==> ((x & i) > 0
                    <==> x >= i)) by (bit_vector);
                assert(0 < i <= 0x8000 && i & ((i - 1) as u32) == 0 && y < 2 * i ==> ((y & i) > 0
                    <==> y >= i)) by (bit_vector);
                assert(0u32 ^ 0u32 == 0u32 && 0u32 ^ 1u32 == 1u32 && 3u32 ^ 0u32 == 3u32 && 3u32
                    ^ 1u32 == 2u32) by (bit_vector);
                assert((a ^ b) as int == quadrant_digit(rx, ry));
                lemma_square_fits(i as int);
                let xl = if rx { x - i } else { x as int };
                let yl = if ry { y - i } else { y as int };
                let p = rotated(i as int, xl, yl, rx, ry);
                lemma_distance_bound(i as int, p.0, p.1);
                assert((i * i) * (a ^ b) == quadrant_digit(rx, ry) * ((i as int) * (i as int)))
                    by (nonlinear_arith)
                    requires
                        (a ^ b) as int == quadrant_digit(rx, ry),
                ;
                assert(0 <= (i * i) * (a ^ b) <= 3 * (i * i)) by (nonlinear_arith)
                    requires
                        0 <= (a ^ b) <= 3,
                        0 <= i * i,
                ;
            }
            t += i * i * (a ^ b);
            let xl: u32 = if rx { x - i } else { x };
            let yl: u32 = if ry { y - i } else { y };
            let turned = rotate(i, xl, yl, rx, ry);
            x = turned.0;
            y = turned.1;
            proof {
                s = i as int;
            }
            i /= 2;
        }
        assert(s == 1);
        Ok(t)
    }

    /// The side of the grid, twice; it is a power of two.
    fn dimensions(&self) -> (r: (u32, u32))
        ensures
            r.0 == self.side(),
            r.1 == self.side(),
            is_power_of_two(self.side()),
    {
        proof {
            use_type_invariant(self);
        }
        (self.n, self.n)
    }

    /// The number of cells, `side * side`.
    ///
    /// The caller's duty, stated by the trait, is that this number fits in
    /// 32 bits: the side is at most 32768.
    fn size(&self) -> (r: u32)
        ensures
            r == self.side() * self.side(),
    {
        self.n * self.n
    }
}

} // verus!
