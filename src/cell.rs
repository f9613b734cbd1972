use vstd::prelude::*;

verus! {

/// A cell of a grid: a given value, or a variable still to be filled.
#[derive(Debug, Clone, Copy, PartialEq, Eq, Structural)]
pub enum SimpleCell {
    Const(u8),
    Var,
}

impl SimpleCell {
    /// A given cell for a nonzero value, a variable for 0.
    pub fn new(val: u8) -> (r: Self)
        ensures
            val == 0 ==> r == SimpleCell::Var,
            val != 0 ==> r == SimpleCell::Const(val),
    {
        if val == 0 {
            Self::Var
        } else {
            Self::Const(val)
        }
    }

    /// The value held: 0 for a variable.
    pub fn value(&self) -> (r: &u8)
        ensures
            *r == (match *self {
                SimpleCell::Var => 0u8,
                SimpleCell::Const(v) => v,
            }),
    {
        match self {
            Self::Var => &0,
            Self::Const(v) => v,
        }
    }

    /// Whether the cell is a variable.
    pub fn empty(&self) -> (r: bool)
        ensures
            r == (*self == SimpleCell::Var),
    {
        match self {
            Self::Var => true,
            _ => false,
        }
    }
}

} // verus!
