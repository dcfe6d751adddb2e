use vstd::prelude::*;

verus! {

/// A zero-based text position: a row index and a byte column within that
/// row.  Positions are ordered lexicographically, row first.
#[derive(Copy, Clone, Debug, PartialEq, Eq, Structural)]
pub struct Point {
    pub row: u32,
    pub column: u32,
}

impl Point {
    pub open spec fn le_spec(self, other: Point) -> bool {
        self.row < other.row || (self.row == other.row && self.column <= other.column)
    }

    pub open spec fn lt_spec(self, other: Point) -> bool {
        self.row < other.row || (self.row == other.row && self.column < other.column)
    }

    pub fn new(row: u32, column: u32) -> (r: Point)
        ensures
            r.row == row,
            r.column == column,
    {
        Point { row, column }
    }

    pub fn zero() -> (r: Point)
        ensures
            r.row == 0,
            r.column == 0,
    {
        Point { row: 0, column: 0 }
    }

    pub fn le(self, other: Point) -> (b: bool)
        ensures
            b == self.le_spec(other),
    {
        self.row < other.row || (self.row == other.row && self.column <= other.column)
    }

    pub fn lt(self, other: Point) -> (b: bool)
        ensures
            b == self.lt_spec(other),
    {
        self.row < other.row || (self.row == other.row && self.column < other.column)
    }

    /// Advances `self` by the extent `rhs`: if `rhs` spans no full row the
    /// columns add, otherwise the rows add and the column restarts at
    /// `rhs.column`.
    pub fn plus(self, rhs: Point) -> (r: Point)
        requires
            rhs.row > 0 ==> self.row + rhs.row <= u32::MAX,
            rhs.row == 0 ==> self.column + rhs.column <= u32::MAX,
        ensures
            rhs.row == 0 ==> r.row == self.row && r.column == self.column + rhs.column,
            rhs.row > 0 ==> r.row == self.row + rhs.row && r.column == rhs.column,
    {
        if rhs.row == 0 {
            Point { row: self.row, column: self.column + rhs.column }
        } else {
            Point { row: self.row + rhs.row, column: rhs.column }
        }
    }

    /// The extent from `other` up to `self`; inverse of `plus`.
    pub fn minus(self, other: Point) -> (r: Point)
        requires
            other.le_spec(self),
        ensures
            self.row == other.row ==> r.row == 0 && r.column == self.column - other.column,
            self.row > other.row ==> r.row == self.row - other.row && r.column == self.column,
    {
        if self.row == other.row {
            Point { row: 0, column: self.column - other.column }
        } else {
            Point { row: self.row - other.row, column: self.column }
        }
    }
}

/// A position in the input coordinate space: the text as supplied by the
/// layer below, before any soft wrapping.
#[derive(Copy, Clone, Debug, PartialEq, Eq, Structural)]
pub struct InputPoint(pub Point);

impl InputPoint {
    pub fn new(row: u32, column: u32) -> (r: InputPoint)
        ensures
            r.0.row == row,
            r.0.column == column,
    {
        InputPoint(Point::new(row, column))
    }

    pub fn zero() -> (r: InputPoint)
        ensures
            r.0.row == 0,
            r.0.column == 0,
    {
        InputPoint(Point::zero())
    }

    pub fn row(self) -> (r: u32)
        ensures
            r == self.0.row,
    {
        self.0.row
    }

    pub fn column(self) -> (r: u32)
        ensures
            r == self.0.column,
    {
        self.0.column
    }
}

/// A position in the output coordinate space: the text as wrapped for
/// display, where each wrap point contributes one extra line break.
#[derive(Copy, Clone, Debug, PartialEq, Eq, Structural)]
pub struct OutputPoint(pub Point);

impl OutputPoint {
    pub fn new(row: u32, column: u32) -> (r: OutputPoint)
        ensures
            r.0.row == row,
            r.0.column == column,
    {
        OutputPoint(Point::new(row, column))
    }

    pub fn zero() -> (r: OutputPoint)
        ensures
            r.0.row == 0,
            r.0.column == 0,
    {
        OutputPoint(Point::zero())
    }

    pub fn row(self) -> (r: u32)
        ensures
            r == self.0.row,
    {
        self.0.row
    }

    pub fn column(self) -> (r: u32)
        ensures
            r == self.0.column,
    {
        self.0.column
    }

    pub fn row_mut(&mut self) -> (r: &mut u32)
        ensures
            *r == old(self).0.row,
            final(self).0.row == *final(r),
            final(self).0.column == old(self).0.column,
    {
        &mut self.0.row
    }

    pub fn column_mut(&mut self) -> (r: &mut u32)
        ensures
            *r == old(self).0.column,
            final(self).0.column == *final(r),
            final(self).0.row == old(self).0.row,
    {
        &mut self.0.column
    }
}

} // verus!
