//! The choices that steer a sort: its direction and the axes it runs
//! along.

use vstd::prelude::*;

verus! {

/// Direction of a sort: keys rising or falling along the axis.
#[derive(Debug, PartialEq, Eq, Clone, Copy, Structural)]
pub enum SortOrder {
    Ascending,
    Descending,
}

/// The axes that are sorted, and in which succession.
#[derive(Debug, PartialEq, Eq, Clone, Copy, Structural)]
pub enum SortBy {
    /// Every row.
    Row,
    /// Every column.
    Column,
    /// Every column, then every row.
    ColRow,
    /// Every row, then every column.
    RowCol,
    /// Neither: the image stays as it is.
    Nothing,
}

impl SortOrder {
    /// The factor a key is multiplied with before sorting: `1` keeps the
    /// natural order of the keys, `-1` turns it around.
    pub open spec fn sign(self) -> int {
        match self {
            SortOrder::Ascending => 1,
            SortOrder::Descending => -1,
        }
    }

    /// The opposite direction.
    pub open spec fn reversed(self) -> SortOrder {
        match self {
            SortOrder::Ascending => SortOrder::Descending,
            SortOrder::Descending => SortOrder::Ascending,
        }
    }

    /// The sign of the direction as a machine integer.
    pub fn dir(self) -> (d: i16)
        ensures
            d == self.sign(),
            d == 1 || d == -1,
    {
        match self {
            SortOrder::Ascending => 1,
            SortOrder::Descending => -1,
        }
    }

    /// The opposite direction.
    pub fn neg(self) -> (r: SortOrder)
        ensures
            r == self.reversed(),
    {
        match self {
            SortOrder::Ascending => SortOrder::Descending,
            SortOrder::Descending => SortOrder::Ascending,
        }
    }
}

/// Reversing a direction twice gives the direction back, and reversing it
/// once negates its sign.
pub proof fn lemma_reversed_involution(order: SortOrder)
    ensures
        order.reversed().reversed() == order,
        order.reversed().sign() == -order.sign(),
        order.reversed() != order,
{
}

} // verus!
