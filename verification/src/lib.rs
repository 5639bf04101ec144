//! Space-filling curves on square grids: a bijection between a distance along
//! the curve and a cell of the grid.
use vstd::prelude::*;

pub mod curve;
pub mod hilbert;
pub mod peano;

verus! {

/// Why a curve could not be built, or a call could not be answered.
#[derive(Debug, PartialEq, Eq, Structural)]
pub enum Error {
    /// A distance or a coordinate lies outside the curve.
    OutOfRange,
    /// The side of a Hilbert curve must be a power of two.
    NotPowerOfTwo,
    /// The side of a Peano curve must be a power of three.
    NotPowerOfThree,
    /// The side of a curve must be positive.
    NotPositive,
}

/// A curve that visits every cell of a grid exactly once.
///
/// An implementation gives the curve's mathematical model over the integers;
/// the contracts of the methods are stated over that model.
pub trait SpaceFilling<Num> {
    /// The integer that a `Num` stands for.
    spec fn value(v: Num) -> int;

    /// The largest integer that a `Num` can stand for.
    spec fn limit() -> int;

    /// The extents of the grid: a cell `(x, y)` has `0 <= x < extent().0`
    /// and `0 <= y < extent().1`.
    spec fn extent(&self) -> (int, int);

    /// The number of cells of the grid: a distance `t` has `0 <= t < cells()`.
    spec fn cells(&self) -> int;

    /// The cell that the curve visits at distance `t`.
    spec fn point(&self, t: int) -> (int, int);

    /// The distance at which the curve visits the cell `(x, y)`.
    spec fn distance(&self, x: int, y: int) -> int;

    /// The cell at distance `t` along the curve, which lies on the grid;
    /// `OutOfRange` where the curve has no such distance.
    fn map(&self, t: Num) -> (r: Result<(Num, Num), Error>)
        ensures
            0 <= Self::value(t) < self.cells() ==> r.is_ok() && (
                Self::value(r.unwrap().0),
                Self::value(r.unwrap().1),
            ) == self.point(Self::value(t)),
            0 <= Self::value(t) < self.cells() ==> 0 <= Self::value(r.unwrap().0)
                < self.extent().0 && 0 <= Self::value(r.unwrap().1) < self.extent().1,
            !(0 <= Self::value(t) < self.cells()) ==> r == Err::<(Num, Num), Error>(
                Error::OutOfRange,
            ),
    ;

    /// The distance at which the curve visits the cell `(x, y)`, which is less
    /// than the number of cells; `OutOfRange` where the grid has no such cell.
    fn map_inverse(&self, x: Num, y: Num) -> (r: Result<Num, Error>)
        requires
            self.cells() - 1 <= Self::limit(),
        ensures
            0 <= Self::value(x) < self.extent().0 && 0 <= Self::value(y) < self.extent().1
                ==> r.is_ok() && Self::value(r.unwrap()) == self.distance(
                Self::value(x),
                Self::value(y),
            ),
            0 <= Self::value(x) < self.extent().0 && 0 <= Self::value(y) < self.extent().1 ==> 0
                <= Self::value(r.unwrap()) < self.cells(),
            !(0 <= Self::value(x) < self.extent().0 && 0 <= Self::value(y) < self.extent().1)
                ==> r == Err::<Num, Error>(Error::OutOfRange),
    ;

    /// The extents of the grid.
    fn dimensions(&self) -> (r: (Num, Num))
        ensures
            (Self::value(r.0), Self::value(r.1)) == self.extent(),
    ;

    /// The number of cells of the grid: distances run from zero up to it.
    fn size(&self) -> (r: Num)
        requires
            self.cells() <= Self::limit(),
        ensures
            Self::value(r) == self.cells(),
    ;
}

} // verus!
