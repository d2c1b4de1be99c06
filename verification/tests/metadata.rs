use preopt::metadata::{
    BD_SymbolicAddress, CraneliftMetadataEntry, CraneliftMetadataEntry_Which_DirectCall,
    CraneliftMetadataEntry_Which_IndirectCall, CraneliftMetadataEntry_Which_MemoryAccess,
    CraneliftMetadataEntry_Which_SymbolicAccess, CraneliftMetadataEntry_Which_Trap, FuncIndex,
    SourceLoc, Trap,
};

#[test]
fn direct_call_entry_holds_the_callee() {
    let e = CraneliftMetadataEntry::direct_call(8, FuncIndex(41), SourceLoc::new(1000));
    assert_eq!(e.which, CraneliftMetadataEntry_Which_DirectCall);
    assert_eq!(e.codeOffset, 8);
    assert_eq!(e.moduleBytecodeOffset, 1000);
    assert_eq!(e.extra, 41);
    assert_eq!(FuncIndex(41).index(), 41);
}

#[test]
fn indirect_call_entry_holds_offset_and_location() {
    let e = CraneliftMetadataEntry::indirect_call(12, SourceLoc::new(34));
    assert_eq!(e.which, CraneliftMetadataEntry_Which_IndirectCall);
    assert_eq!(e.codeOffset, 12);
    assert_eq!(e.moduleBytecodeOffset, 34);
    assert_eq!(e.extra, 0);
}

#[test]
fn trap_entry_holds_the_number_of_the_trap() {
    let e = CraneliftMetadataEntry::trap(16, SourceLoc::new(7), Trap::IntegerDivideByZero);
    assert_eq!(e.which, CraneliftMetadataEntry_Which_Trap);
    assert_eq!(e.codeOffset, 16);
    assert_eq!(e.moduleBytecodeOffset, 7);
    assert_eq!(e.extra, 3);
    assert_eq!(CraneliftMetadataEntry::trap(0, SourceLoc::new(0), Trap::Unreachable).extra, 0);
    assert_eq!(CraneliftMetadataEntry::trap(0, SourceLoc::new(0), Trap::Limit).extra, Trap::Limit.code());
}

#[test]
fn memory_access_entry_holds_offset_and_location() {
    let e = CraneliftMetadataEntry::memory_access(20, SourceLoc::new(u32::MAX));
    assert_eq!(e.which, CraneliftMetadataEntry_Which_MemoryAccess);
    assert_eq!(e.codeOffset, 20);
    assert_eq!(e.moduleBytecodeOffset, u32::MAX);
    assert_eq!(e.extra, 0);
    assert_eq!(SourceLoc::new(5).bits(), 5);
}

#[test]
fn symbolic_access_entry_holds_the_number_of_the_routine() {
    let e = CraneliftMetadataEntry::symbolic_access(24, BD_SymbolicAddress::MemorySize);
    assert_eq!(e.which, CraneliftMetadataEntry_Which_SymbolicAccess);
    assert_eq!(e.codeOffset, 24);
    assert_eq!(e.moduleBytecodeOffset, 0);
    assert_eq!(e.extra, 1);
    assert_eq!(
        CraneliftMetadataEntry::symbolic_access(0, BD_SymbolicAddress::TruncF64).extra,
        BD_SymbolicAddress::TruncF64.code()
    );
}

#[test]
fn kinds_are_distinct() {
    let kinds = [
        CraneliftMetadataEntry_Which_DirectCall,
        CraneliftMetadataEntry_Which_IndirectCall,
        CraneliftMetadataEntry_Which_Trap,
        CraneliftMetadataEntry_Which_MemoryAccess,
        CraneliftMetadataEntry_Which_SymbolicAccess,
    ];
    for i in 0..kinds.len() {
        for j in 0..kinds.len() {
            assert_eq!(kinds[i] == kinds[j], i == j);
        }
    }
}
