//! Which pass defines and which pass uses the result of a node.

use vstd::prelude::*;

verus! {

/// The flag of a result that the forward pass defines.
pub const FORWARD_DEFINED: u8 = 0b0000_0001;

/// The flag of a result that the forward pass uses.
pub const FORWARD_USED: u8 = 0b0000_0010;

/// The flag of a result that the backward pass defines.
pub const BACKWARD_DEFINED: u8 = 0b0000_0100;

/// The flag of a result that the backward pass uses.
pub const BACKWARD_USED: u8 = 0b0000_1000;

/// Which pass defines and which pass uses the result of a node.
#[derive(Debug, Clone, Copy, PartialEq, Eq, Structural)]
pub struct SaveIndicator {
    pub flags: u8,
}

/// Which pass defines and which pass uses a result, in that order, first the forward pass.
pub struct Saves {
    pub defined_in_forward: bool,
    pub used_by_forward: bool,
    pub defined_in_backward: bool,
    pub used_by_backward: bool,
}

impl View for SaveIndicator {
    type V = Saves;

    open spec fn view(&self) -> Saves {
        Saves {
            defined_in_forward: self.flags & FORWARD_DEFINED == FORWARD_DEFINED,
            used_by_forward: self.flags & FORWARD_USED == FORWARD_USED,
            defined_in_backward: self.flags & BACKWARD_DEFINED == BACKWARD_DEFINED,
            used_by_backward: self.flags & BACKWARD_USED == BACKWARD_USED,
        }
    }
}

impl Saves {
    /// Nothing defined and nothing used.
    pub open spec fn none() -> Saves {
        Saves {
            defined_in_forward: false,
            used_by_forward: false,
            defined_in_backward: false,
            used_by_backward: false,
        }
    }

    /// What either of two says.
    pub open spec fn or(self, other: Saves) -> Saves {
        Saves {
            defined_in_forward: self.defined_in_forward || other.defined_in_forward,
            used_by_forward: self.used_by_forward || other.used_by_forward,
            defined_in_backward: self.defined_in_backward || other.defined_in_backward,
            used_by_backward: self.used_by_backward || other.used_by_backward,
        }
    }
}

impl Saves {
    /// The flags that say this, and nothing else.
    pub open spec fn flags(self) -> int {
        (if self.defined_in_forward {
            1int
        } else {
            0
        }) + (if self.used_by_forward {
            2int
        } else {
            0
        }) + (if self.defined_in_backward {
            4int
        } else {
            0
        }) + (if self.used_by_backward {
            8int
        } else {
            0
        })
    }
}

/// Flags that say nothing else are those of what they say.
pub proof fn lemma_flags(a: SaveIndicator)
    requires
        a.flags < 16,
    ensures
        a.flags == a@.flags(),
{
    let x = a.flags;
    assert(x == (x & 1) + (x & 2) + (x & 4) + (x & 8) && (x & 1 == 0 || x & 1 == 1) && (x & 2 == 0
        || x & 2 == 2) && (x & 4 == 0 || x & 4 == 4) && (x & 8 == 0 || x & 8 == 8)) by (bit_vector)
        requires
            x < 16,
    ;
}

/// The flags of both say nothing else if neither does.
pub proof fn lemma_or_small(a: u8, b: u8)
    requires
        a < 16,
        b < 16,
    ensures
        a | b < 16,
{
    assert(a | b < 16) by (bit_vector)
        requires
            a < 16,
            b < 16,
    ;
}

/// The flags of both say what the flags of either say.
pub proof fn lemma_or(a: SaveIndicator, b: SaveIndicator)
    ensures
        (SaveIndicator { flags: a.flags | b.flags })@ == a@.or(b@),
{
    let x = a.flags;
    let y = b.flags;
    assert((x | y) & 1 == 1 <==> (x & 1 == 1 || y & 1 == 1)) by (bit_vector);
    assert((x | y) & 2 == 2 <==> (x & 2 == 2 || y & 2 == 2)) by (bit_vector);
    assert((x | y) & 4 == 4 <==> (x & 4 == 4 || y & 4 == 4)) by (bit_vector);
    assert((x | y) & 8 == 8 <==> (x & 8 == 8 || y & 8 == 8)) by (bit_vector);
}

impl core::ops::BitOr for SaveIndicator {
    type Output = Self;

    fn bitor(self, rhs: Self) -> (r: Self) {
        self.or(rhs)
    }
}

impl vstd::std_specs::ops::BitOrSpecImpl for SaveIndicator {
    open spec fn obeys_bitor_spec() -> bool {
        true
    }

    open spec fn bitor_req(self, rhs: Self) -> bool {
        true
    }

    open spec fn bitor_spec(self, rhs: Self) -> Self {
        SaveIndicator { flags: self.flags | rhs.flags }
    }
}

impl core::ops::BitOrAssign for SaveIndicator {
    fn bitor_assign(&mut self, rhs: Self)
        ensures
            *final(self) == (SaveIndicator { flags: old(self).flags | rhs.flags }),
    {
        *self = self.or(rhs);
    }
}

impl SaveIndicator {
    /// Nothing defined and nothing used.
    #[must_use]
    pub fn none() -> (r: Self)
        ensures
            r.flags == 0,
            r@ == Saves::none(),
    {
        assert(0u8 & 1 == 0 && 0u8 & 2 == 0 && 0u8 & 4 == 0 && 0u8 & 8 == 0) by (bit_vector);
        Self { flags: 0 }
    }

    /// Defined in the forward pass.
    #[must_use]
    pub fn defined_in_forward() -> (r: Self)
        ensures
            r.flags == FORWARD_DEFINED,
            r@ == (Saves { defined_in_forward: true, ..Saves::none() }),
    {
        assert(1u8 & 1 == 1 && 1u8 & 2 == 0 && 1u8 & 4 == 0 && 1u8 & 8 == 0) by (bit_vector);
        Self { flags: FORWARD_DEFINED }
    }

    /// Used by the forward pass.
    #[must_use]
    pub fn used_by_forward() -> (r: Self)
        ensures
            r.flags == FORWARD_USED,
            r@ == (Saves { used_by_forward: true, ..Saves::none() }),
    {
        assert(2u8 & 1 == 0 && 2u8 & 2 == 2 && 2u8 & 4 == 0 && 2u8 & 8 == 0) by (bit_vector);
        Self { flags: FORWARD_USED }
    }

    /// Defined in the backward pass.
    #[must_use]
    pub fn defined_in_backward() -> (r: Self)
        ensures
            r.flags == BACKWARD_DEFINED,
            r@ == (Saves { defined_in_backward: true, ..Saves::none() }),
    {
        assert(4u8 & 1 == 0 && 4u8 & 2 == 0 && 4u8 & 4 == 4 && 4u8 & 8 == 0) by (bit_vector);
        Self { flags: BACKWARD_DEFINED }
    }

    /// Used by the backward pass.
    #[must_use]
    pub fn used_by_backward() -> (r: Self)
        ensures
            r.flags == BACKWARD_USED,
            r@ == (Saves { used_by_backward: true, ..Saves::none() }),
    {
        assert(8u8 & 1 == 0 && 8u8 & 2 == 0 && 8u8 & 4 == 0 && 8u8 & 8 == 8) by (bit_vector);
        Self { flags: BACKWARD_USED }
    }

    /// What either of two says.
    #[must_use]
    pub fn or(self, other: Self) -> (r: Self)
        ensures
            r == (SaveIndicator { flags: self.flags | other.flags }),
            r@ == self@.or(other@),
    {
        proof {
            lemma_or(self, other);
        }
        Self { flags: self.flags | other.flags }
    }

    #[must_use]
    pub fn is_defined_in_forward(&self) -> (r: bool)
        ensures
            r == self@.defined_in_forward,
    {
        self.flags & FORWARD_DEFINED == FORWARD_DEFINED
    }

    #[must_use]
    pub fn is_used_by_forward(&self) -> (r: bool)
        ensures
            r == self@.used_by_forward,
    {
        self.flags & FORWARD_USED == FORWARD_USED
    }

    #[must_use]
    pub fn is_defined_in_backward(&self) -> (r: bool)
        ensures
            r == self@.defined_in_backward,
    {
        self.flags & BACKWARD_DEFINED == BACKWARD_DEFINED
    }

    #[must_use]
    pub fn is_used_by_backward(&self) -> (r: bool)
        ensures
            r == self@.used_by_backward,
    {
        self.flags & BACKWARD_USED == BACKWARD_USED
    }
}

} // verus!
