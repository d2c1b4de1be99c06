//! Handles, value types and integer condition codes.

use vstd::prelude::*;

verus! {

/// Handle of an SSA value: its index in the value table of a function.
#[derive(Clone, Copy, Debug, PartialEq, Eq, Structural)]
pub struct Value(pub usize);

/// Handle of an instruction: its index in the instruction table of a function.
#[derive(Clone, Copy, Debug, PartialEq, Eq, Structural)]
pub struct Inst(pub usize);

/// Handle of a basic block: its position in the layout order of a function.
#[derive(Clone, Copy, Debug, PartialEq, Eq, Structural)]
pub struct Block(pub usize);

/// Static type of a value.
#[derive(Clone, Copy, Debug, PartialEq, Eq, Structural)]
pub enum Type {
    B1,
    I8,
    I16,
    I32,
    I64,
}

impl Type {
    /// Width of the type in bits.
    pub open spec fn bits(self) -> nat {
        match self {
            Type::B1 => 1,
            Type::I8 => 8,
            Type::I16 => 16,
            Type::I32 => 32,
            Type::I64 => 64,
        }
    }

    /// Number of distinct values of the type, two to the power of its width.
    pub open spec fn modulus(self) -> int {
        match self {
            Type::B1 => 2,
            Type::I8 => 0x100,
            Type::I16 => 0x1_0000,
            Type::I32 => 0x1_0000_0000,
            Type::I64 => 0x1_0000_0000_0000_0000,
        }
    }

    /// Whether the type is an integer type (anything but the boolean).
    pub open spec fn is_int(self) -> bool {
        self != Type::B1
    }
}

/// Condition code of an integer comparison.
#[derive(Clone, Copy, Debug, PartialEq, Eq, Structural)]
pub enum IntCC {
    Equal,
    NotEqual,
    SignedLessThan,
    SignedGreaterThanOrEqual,
    SignedGreaterThan,
    SignedLessThanOrEqual,
    UnsignedLessThan,
    UnsignedGreaterThanOrEqual,
    UnsignedGreaterThan,
    UnsignedLessThanOrEqual,
}

impl IntCC {
    /// The condition that holds exactly when `self` does not.
    pub open spec fn spec_inverse(self) -> IntCC {
        match self {
            IntCC::Equal => IntCC::NotEqual,
            IntCC::NotEqual => IntCC::Equal,
            IntCC::SignedLessThan => IntCC::SignedGreaterThanOrEqual,
            IntCC::SignedGreaterThanOrEqual => IntCC::SignedLessThan,
            IntCC::SignedGreaterThan => IntCC::SignedLessThanOrEqual,
            IntCC::SignedLessThanOrEqual => IntCC::SignedGreaterThan,
            IntCC::UnsignedLessThan => IntCC::UnsignedGreaterThanOrEqual,
            IntCC::UnsignedGreaterThanOrEqual => IntCC::UnsignedLessThan,
            IntCC::UnsignedGreaterThan => IntCC::UnsignedLessThanOrEqual,
            IntCC::UnsignedLessThanOrEqual => IntCC::UnsignedGreaterThan,
        }
    }

    /// The condition that holds exactly when `self` does not.
    #[verifier::when_used_as_spec(spec_inverse)]
    pub fn inverse(self) -> (r: IntCC)
        ensures
            r == self.spec_inverse(),
    {
        match self {
            IntCC::Equal => IntCC::NotEqual,
            IntCC::NotEqual => IntCC::Equal,
            IntCC::SignedLessThan => IntCC::SignedGreaterThanOrEqual,
            IntCC::SignedGreaterThanOrEqual => IntCC::SignedLessThan,
            IntCC::SignedGreaterThan => IntCC::SignedLessThanOrEqual,
            IntCC::SignedLessThanOrEqual => IntCC::SignedGreaterThan,
            IntCC::UnsignedLessThan => IntCC::UnsignedGreaterThanOrEqual,
            IntCC::UnsignedGreaterThanOrEqual => IntCC::UnsignedLessThan,
            IntCC::UnsignedGreaterThan => IntCC::UnsignedLessThanOrEqual,
            IntCC::UnsignedLessThanOrEqual => IntCC::UnsignedGreaterThan,
        }
    }
}

} // verus!
