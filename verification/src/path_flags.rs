use vstd::prelude::*;

verus! {

/// No flag set.
pub const FLAG_NONE: u32 = 0x0000;

/// A path separator stands before the node's name.
pub const PATH_SEPARATOR_PRE: u32 = 0x0001;

/// A path separator stands after the node's name.
pub const PATH_SEPARATOR_POST: u32 = 0x0002;

/// The node carries a value: a folder size or a file-table offset.
pub const IS_NODE_VALUE: u32 = 0x0004;

/// Flags of a node in the TVFS path table.
#[derive(Default, Debug, Clone, Copy, PartialEq, Eq, Structural)]
pub struct PathTableNodeFlags(pub u32);

/// Whether every bit of `b` is set in `a`.
pub open spec fn flags_contain(a: u32, b: u32) -> bool {
    a & b == b
}

/// The additive encoding of the three node flags sets exactly the
/// corresponding bits.
pub proof fn lemma_flag_bits(a: u32, b: u32, c: u32)
    requires
        a <= 1,
        b <= 1,
        c <= 1,
    ensures
        flags_contain(((a + 2 * b + 4 * c) as u32), PATH_SEPARATOR_PRE) == (a == 1),
        flags_contain(((a + 2 * b + 4 * c) as u32), PATH_SEPARATOR_POST) == (b == 1),
        flags_contain(((a + 2 * b + 4 * c) as u32), IS_NODE_VALUE) == (c == 1),
{
    assert((((a + 2 * b + 4 * c) as u32) & 1u32 == 1u32) == (a == 1) && (((a + 2 * b + 4 * c)
        as u32) & 2u32 == 2u32) == (b == 1) && (((a + 2 * b + 4 * c) as u32) & 4u32 == 4u32) == (c
        == 1))
        by (bit_vector)
        requires
            a <= 1,
            b <= 1,
            c <= 1,
    ;
}

impl PathTableNodeFlags {
    /// Whether every bit of the given flag is set.
    pub fn has_flag(self, other: Self) -> (r: bool)
        ensures
            r == flags_contain(self.0, other.0),
    {
        (self.0 & other.0) == other.0
    }

    /// The union of two flag sets.
    pub fn union(self, other: Self) -> (r: Self)
        ensures
            r.0 == self.0 | other.0,
    {
        PathTableNodeFlags(self.0 | other.0)
    }
}

} // verus!
