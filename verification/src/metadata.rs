//! Records that tell the embedder what the compiled code refers to: calls,
//! traps, memory accesses and symbolic addresses, each at an offset in the
//! code.

use vstd::prelude::*;

verus! {

/// Offset in bytes from the beginning of a function's code.
pub type CodeOffset = u32;

/// A source location: an opaque 32-bit number that the embedder chose,
/// here the offset of a bytecode in its module.
#[derive(Clone, Copy, Debug, PartialEq, Eq, Structural)]
pub struct SourceLoc(pub u32);

impl SourceLoc {
    /// The source location that stands for `bits`.
    pub fn new(bits: u32) -> (r: SourceLoc)
        ensures
            r.0 == bits,
    {
        SourceLoc(bits)
    }

    /// The number that the embedder chose.
    pub open spec fn spec_bits(self) -> u32 {
        self.0
    }

    /// The number that the embedder chose.
    #[verifier::when_used_as_spec(spec_bits)]
    pub fn bits(self) -> (r: u32)
        ensures
            r == self.spec_bits(),
    {
        self.0
    }
}

/// Index of a function in a module, imported functions first.
#[derive(Clone, Copy, Debug, PartialEq, Eq, Structural)]
pub struct FuncIndex(pub u32);

impl FuncIndex {
    /// The index as a number.
    pub open spec fn spec_index(self) -> usize {
        self.0 as usize
    }

    /// The index as a number.
    #[verifier::when_used_as_spec(spec_index)]
    pub fn index(self) -> (r: usize)
        ensures
            r == self.spec_index(),
            r == self.0,
    {
        self.0 as usize
    }
}

/// Why compiled code traps.
#[derive(Clone, Copy, Debug, PartialEq, Eq, Structural)]
pub enum Trap {
    Unreachable,
    IntegerOverflow,
    InvalidConversionToInteger,
    IntegerDivideByZero,
    OutOfBounds,
    UnalignedAccess,
    IndirectCallToNull,
    IndirectCallBadSig,
    StackOverflow,
    CheckInterrupt,
    ThrowReported,
    Limit,
}

impl Trap {
    /// The number of the trap: its place among the traps.
    pub open spec fn spec_code(self) -> usize {
        match self {
            Trap::Unreachable => 0,
            Trap::IntegerOverflow => 1,
            Trap::InvalidConversionToInteger => 2,
            Trap::IntegerDivideByZero => 3,
            Trap::OutOfBounds => 4,
            Trap::UnalignedAccess => 5,
            Trap::IndirectCallToNull => 6,
            Trap::IndirectCallBadSig => 7,
            Trap::StackOverflow => 8,
            Trap::CheckInterrupt => 9,
            Trap::ThrowReported => 10,
            Trap::Limit => 11,
        }
    }

    /// The number of the trap: its place among the traps.
    #[verifier::when_used_as_spec(spec_code)]
    pub fn code(self) -> (r: usize)
        ensures
            r == self.spec_code(),
    {
        match self {
            Trap::Unreachable => 0,
            Trap::IntegerOverflow => 1,
            Trap::InvalidConversionToInteger => 2,
            Trap::IntegerDivideByZero => 3,
            Trap::OutOfBounds => 4,
            Trap::UnalignedAccess => 5,
            Trap::IndirectCallToNull => 6,
            Trap::IndirectCallBadSig => 7,
            Trap::StackOverflow => 8,
            Trap::CheckInterrupt => 9,
            Trap::ThrowReported => 10,
            Trap::Limit => 11,
        }
    }
}

/// A routine of the runtime that compiled code calls by name.
#[allow(non_camel_case_types)]
#[derive(Clone, Copy, Debug, PartialEq, Eq, Structural)]
pub enum BD_SymbolicAddress {
    MemoryGrow,
    MemorySize,
    FloorF32,
    FloorF64,
    CeilF32,
    CeilF64,
    NearestF32,
    NearestF64,
    TruncF32,
    TruncF64,
    Limit,
}

impl BD_SymbolicAddress {
    /// The number of the routine: its place among the routines.
    pub open spec fn spec_code(self) -> usize {
        match self {
            BD_SymbolicAddress::MemoryGrow => 0,
            BD_SymbolicAddress::MemorySize => 1,
            BD_SymbolicAddress::FloorF32 => 2,
            BD_SymbolicAddress::FloorF64 => 3,
            BD_SymbolicAddress::CeilF32 => 4,
            BD_SymbolicAddress::CeilF64 => 5,
            BD_SymbolicAddress::NearestF32 => 6,
            BD_SymbolicAddress::NearestF64 => 7,
            BD_SymbolicAddress::TruncF32 => 8,
            BD_SymbolicAddress::TruncF64 => 9,
            BD_SymbolicAddress::Limit => 10,
        }
    }

    /// The number of the routine: its place among the routines.
    #[verifier::when_used_as_spec(spec_code)]
    pub fn code(self) -> (r: usize)
        ensures
            r == self.spec_code(),
    {
        match self {
            BD_SymbolicAddress::MemoryGrow => 0,
            BD_SymbolicAddress::MemorySize => 1,
            BD_SymbolicAddress::FloorF32 => 2,
            BD_SymbolicAddress::FloorF64 => 3,
            BD_SymbolicAddress::CeilF32 => 4,
            BD_SymbolicAddress::CeilF64 => 5,
            BD_SymbolicAddress::NearestF32 => 6,
            BD_SymbolicAddress::NearestF64 => 7,
            BD_SymbolicAddress::TruncF32 => 8,
            BD_SymbolicAddress::TruncF64 => 9,
            BD_SymbolicAddress::Limit => 10,
        }
    }
}

/// The kind of a metadata entry.
#[allow(non_camel_case_types)]
pub type CraneliftMetadataEntry_Which = u32;

/// The kind of an entry for a direct call.
#[allow(non_upper_case_globals)]
pub const CraneliftMetadataEntry_Which_DirectCall: CraneliftMetadataEntry_Which = 0;

/// The kind of an entry for an indirect call.
#[allow(non_upper_case_globals)]
pub const CraneliftMetadataEntry_Which_IndirectCall: CraneliftMetadataEntry_Which = 1;

/// The kind of an entry for an instruction that may trap.
#[allow(non_upper_case_globals)]
pub const CraneliftMetadataEntry_Which_Trap: CraneliftMetadataEntry_Which = 2;

/// The kind of an entry for a memory access.
#[allow(non_upper_case_globals)]
pub const CraneliftMetadataEntry_Which_MemoryAccess: CraneliftMetadataEntry_Which = 3;

/// The kind of an entry for a reference to a routine of the runtime.
#[allow(non_upper_case_globals)]
pub const CraneliftMetadataEntry_Which_SymbolicAccess: CraneliftMetadataEntry_Which = 4;

/// One thing that the code at `codeOffset` refers to. What `extra` holds
/// depends on the kind: the callee of a direct call, the number of a trap
/// or of a symbolic address, and zero otherwise.
#[allow(non_snake_case)]
#[derive(Clone, Copy, Debug, PartialEq, Eq, Structural)]
pub struct CraneliftMetadataEntry {
    pub which: CraneliftMetadataEntry_Which,
    pub codeOffset: CodeOffset,
    pub moduleBytecodeOffset: u32,
    pub extra: usize,
}

impl CraneliftMetadataEntry {
    /// The entry for a direct call of the function `func_index`.
    pub fn direct_call(code_offset: CodeOffset, func_index: FuncIndex, srcloc: SourceLoc) -> (r: Self)
        ensures
            r == (CraneliftMetadataEntry {
                which: CraneliftMetadataEntry_Which_DirectCall,
                codeOffset: code_offset,
                moduleBytecodeOffset: srcloc.bits(),
                extra: func_index.index(),
            }),
    {
        CraneliftMetadataEntry {
            which: CraneliftMetadataEntry_Which_DirectCall,
            codeOffset: code_offset,
            moduleBytecodeOffset: srcloc.bits(),
            extra: func_index.index(),
        }
    }

    /// The entry for an indirect call.
    pub fn indirect_call(code_offset: CodeOffset, srcloc: SourceLoc) -> (r: Self)
        ensures
            r == (CraneliftMetadataEntry {
                which: CraneliftMetadataEntry_Which_IndirectCall,
                codeOffset: code_offset,
                moduleBytecodeOffset: srcloc.bits(),
                extra: 0,
            }),
    {
        CraneliftMetadataEntry {
            which: CraneliftMetadataEntry_Which_IndirectCall,
            codeOffset: code_offset,
            moduleBytecodeOffset: srcloc.bits(),
            extra: 0,
        }
    }

    /// The entry for an instruction that may trap for the reason `which`.
    pub fn trap(code_offset: CodeOffset, srcloc: SourceLoc, which: Trap) -> (r: Self)
        ensures
            r == (CraneliftMetadataEntry {
                which: CraneliftMetadataEntry_Which_Trap,
                codeOffset: code_offset,
                moduleBytecodeOffset: srcloc.bits(),
                extra: which.code(),
            }),
    {
        CraneliftMetadataEntry {
            which: CraneliftMetadataEntry_Which_Trap,
            codeOffset: code_offset,
            moduleBytecodeOffset: srcloc.bits(),
            extra: which.code(),
        }
    }

    /// The entry for a memory access.
    pub fn memory_access(code_offset: CodeOffset, srcloc: SourceLoc) -> (r: Self)
        ensures
            r == (CraneliftMetadataEntry {
                which: CraneliftMetadataEntry_Which_MemoryAccess,
                codeOffset: code_offset,
                moduleBytecodeOffset: srcloc.bits(),
                extra: 0,
            }),
    {
        CraneliftMetadataEntry {
            which: CraneliftMetadataEntry_Which_MemoryAccess,
            codeOffset: code_offset,
            moduleBytecodeOffset: srcloc.bits(),
            extra: 0,
        }
    }

    /// The entry for a reference to the runtime routine `sym`.
    pub fn symbolic_access(code_offset: CodeOffset, sym: BD_SymbolicAddress) -> (r: Self)
        ensures
            r == (CraneliftMetadataEntry {
                which: CraneliftMetadataEntry_Which_SymbolicAccess,
                codeOffset: code_offset,
                moduleBytecodeOffset: 0,
                extra: sym.code(),
            }),
    {
        CraneliftMetadataEntry {
            which: CraneliftMetadataEntry_Which_SymbolicAccess,
            codeOffset: code_offset,
            moduleBytecodeOffset: 0,
            extra: sym.code(),
        }
    }
}

} // verus!
