//! The Peano curve on a square grid whose side is a power of three: its
//! construction and its extents.
use crate::Error;
use vstd::prelude::*;

verus! {

/// `n` is one of 1, 3, 9, 27, ...
pub open spec fn is_power_of_three(n: int) -> bool
    decreases n,
{
    n == 1 || (n >= 3 && n % 3 == 0 && is_power_of_three(n / 3))
}

/// A Peano curve over a grid of `n` by `n` cells.
pub struct Peano {
    n: u32,
}

impl Peano {
    #[verifier::type_invariant]
    spec fn well_formed(&self) -> bool {
        is_power_of_three(self.n as int)
    }

    /// The side of the grid.
    pub closed spec fn side(&self) -> int {
        self.n as int
    }

    /// A curve over a grid of side `n`, which must be a power of three.
    pub fn new(n: u32) -> (r: Result<Peano, Error>)
        ensures
            n == 0 ==> r == Err::<Peano, Error>(Error::NotPositive),
            n > 0 && !is_power_of_three(n as int) ==> r == Err::<Peano, Error>(
                Error::NotPowerOfThree,
            ),
            is_power_of_three(n as int) ==> r.is_ok() && r.unwrap().side() == n,
    {
        if n == 0 {
            Err(Error::NotPositive)
        } else if !is_pow_3(n) {
            Err(Error::NotPowerOfThree)
        } else {
            Ok(Peano { n })
        }
    }

    /// The extents of the grid.
    pub fn dimensions(&self) -> (r: (u32, u32))
        ensures
            r.0 == self.side(),
            r.1 == self.side(),
    {
        (self.n, self.n)
    }

    /// The number of cells of the grid.
    pub fn size(&self) -> (r: u32)
        requires
            self.side() * self.side() <= u32::MAX,
        ensures
            r == self.side() * self.side(),
    {
        self.n * self.n
    }
}

/// Whether the positive number `n` is a power of three.
pub fn is_pow_3(n: u32) -> (r: bool)
    requires
        n > 0,
    ensures
        r == is_power_of_three(n as int),
{
    let ghost whole = n as int;
    let mut n: u32 = n;
    while n % 3 == 0
        invariant
            n > 0,
            is_power_of_three(n as int) == is_power_of_three(whole),
        decreases n,
    {
        n /= 3;
    }
    n == 1
}

} // verus!
