use vstd::prelude::*;

verus! {

/// A plain 2D grid coordinate: `x` is the column, `y` is the row.
///
/// A value of this type is copied freely and never aliased; equality is
/// field-by-field equality.
#[derive(Clone, Copy, Debug, PartialEq, Eq, Structural)]
pub struct Vector2<T: Copy> {
    pub x: T,
    pub y: T,
}

} // verus!
