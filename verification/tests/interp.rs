use preopt::entities::{IntCC, Type};
use preopt::instructions::Opcode;
use preopt::interp::{
    bits_of, eval_binary_imm_of, eval_binary_of, floor_div, holds_of, modulus_of, pow2_of,
    rotate_of, signed_of, trunc_div_of, wrap_of,
};

const WORDS: [u32; 14] = [
    0, 1, 2, 3, 7, 31, 32, 100, 0x7fff_ffff, 0x8000_0000, 0x8000_0001, 0xffff_fffe, 0xffff_ffff,
    0x1234_5678,
];

const LONGS: [u64; 14] = [
    0,
    1,
    2,
    3,
    63,
    64,
    100,
    0xffff_ffff,
    0x7fff_ffff_ffff_ffff,
    0x8000_0000_0000_0000,
    0x8000_0000_0000_0001,
    0xffff_ffff_ffff_fffe,
    0xffff_ffff_ffff_ffff,
    0x0123_4567_89ab_cdef,
];

#[test]
fn types_have_their_width_and_modulus() {
    assert_eq!((bits_of(Type::B1), modulus_of(Type::B1)), (1, 2));
    assert_eq!((bits_of(Type::I8), modulus_of(Type::I8)), (8, 256));
    assert_eq!((bits_of(Type::I16), modulus_of(Type::I16)), (16, 65536));
    assert_eq!((bits_of(Type::I32), modulus_of(Type::I32)), (32, 1 << 32));
    assert_eq!((bits_of(Type::I64), modulus_of(Type::I64)), (64, 1 << 64));
    assert_eq!(pow2_of(0), 1);
    assert_eq!(pow2_of(10), 1024);
    assert_eq!(pow2_of(64), 1 << 64);
}

#[test]
fn signed_reading_and_reduction() {
    assert_eq!(signed_of(Type::I32, 0xffff_ffff), -1);
    assert_eq!(signed_of(Type::I32, 0x8000_0000), -0x8000_0000);
    assert_eq!(signed_of(Type::I32, 0x7fff_ffff), 0x7fff_ffff);
    assert_eq!(signed_of(Type::I64, u64::MAX), -1);
    assert_eq!(signed_of(Type::I8, 0x80), -128);
    assert_eq!(wrap_of(Type::I32, -1), 0xffff_ffff);
    assert_eq!(wrap_of(Type::I32, 0x1_0000_0005), 5);
    assert_eq!(wrap_of(Type::I32, -0x1_0000_0000), 0);
    assert_eq!(wrap_of(Type::I64, -1), u64::MAX);
    assert_eq!(wrap_of(Type::I64, i64::MIN as i128), 0x8000_0000_0000_0000);
    assert_eq!(wrap_of(Type::I8, 257), 1);
    assert_eq!(floor_div(7, 2), 3);
    assert_eq!(floor_div(-7, 2), -4);
    assert_eq!(floor_div(-8, 2), -4);
    assert_eq!(floor_div(-1, 1 << 64), -1);
    assert_eq!(trunc_div_of(7, 2), 3);
    assert_eq!(trunc_div_of(-7, 2), -3);
    assert_eq!(trunc_div_of(7, -2), -3);
    assert_eq!(trunc_div_of(-7, -2), 3);
    assert_eq!(rotate_of(Type::I32, 0x8000_0001, 4), 0x0000_0018);
    assert_eq!(rotate_of(Type::I32, 0x8000_0001, 0), 0x8000_0001);
    assert_eq!(rotate_of(Type::I32, 0x8000_0001, 32), 0x8000_0001);
}

#[test]
fn operations_on_32_bit_values_are_those_of_the_machine() {
    for a in WORDS {
        for b in WORDS {
            let ev = |op| eval_binary_of(op, Type::I32, a as u64, b as u64);
            let (sa, sb) = (a as i32, b as i32);
            assert_eq!(ev(Opcode::Iadd), Some(a.wrapping_add(b) as u64));
            assert_eq!(ev(Opcode::Isub), Some(a.wrapping_sub(b) as u64));
            assert_eq!(ev(Opcode::Imul), Some(a.wrapping_mul(b) as u64));
            assert_eq!(ev(Opcode::Umulhi), Some((a as u64 * b as u64) >> 32));
            assert_eq!(ev(Opcode::Smulhi), Some((((sa as i64 * sb as i64) >> 32) as u32) as u64));
            assert_eq!(ev(Opcode::Band), Some((a & b) as u64));
            assert_eq!(ev(Opcode::Bor), Some((a | b) as u64));
            assert_eq!(ev(Opcode::Bxor), Some((a ^ b) as u64));
            assert_eq!(ev(Opcode::Ishl), Some(a.wrapping_shl(b) as u64));
            assert_eq!(ev(Opcode::Ushr), Some(a.wrapping_shr(b) as u64));
            assert_eq!(ev(Opcode::Sshr), Some((sa.wrapping_shr(b) as u32) as u64));
            assert_eq!(ev(Opcode::Rotl), Some(a.rotate_left(b % 32) as u64));
            assert_eq!(ev(Opcode::Rotr), Some(a.rotate_right(b % 32) as u64));
            if b == 0 {
                assert_eq!(ev(Opcode::Udiv), None);
                assert_eq!(ev(Opcode::Urem), None);
                assert_eq!(ev(Opcode::Sdiv), None);
                assert_eq!(ev(Opcode::Srem), None);
            } else {
                assert_eq!(ev(Opcode::Udiv), Some((a / b) as u64));
                assert_eq!(ev(Opcode::Urem), Some((a % b) as u64));
                if sa == i32::MIN && sb == -1 {
                    assert_eq!(ev(Opcode::Sdiv), None);
                    assert_eq!(ev(Opcode::Srem), Some(0));
                } else {
                    assert_eq!(ev(Opcode::Sdiv), Some((sa / sb) as u32 as u64));
                    assert_eq!(ev(Opcode::Srem), Some((sa % sb) as u32 as u64));
                }
            }
            assert_eq!(holds_of(IntCC::Equal, Type::I32, a as u64, b as u64), a == b);
            assert_eq!(holds_of(IntCC::NotEqual, Type::I32, a as u64, b as u64), a != b);
            assert_eq!(holds_of(IntCC::SignedLessThan, Type::I32, a as u64, b as u64), sa < sb);
            assert_eq!(holds_of(IntCC::SignedGreaterThanOrEqual, Type::I32, a as u64, b as u64), sa >= sb);
            assert_eq!(holds_of(IntCC::SignedGreaterThan, Type::I32, a as u64, b as u64), sa > sb);
            assert_eq!(holds_of(IntCC::SignedLessThanOrEqual, Type::I32, a as u64, b as u64), sa <= sb);
            assert_eq!(holds_of(IntCC::UnsignedLessThan, Type::I32, a as u64, b as u64), a < b);
            assert_eq!(holds_of(IntCC::UnsignedGreaterThanOrEqual, Type::I32, a as u64, b as u64), a >= b);
            assert_eq!(holds_of(IntCC::UnsignedGreaterThan, Type::I32, a as u64, b as u64), a > b);
            assert_eq!(holds_of(IntCC::UnsignedLessThanOrEqual, Type::I32, a as u64, b as u64), a <= b);
        }
    }
}

#[test]
fn operations_on_64_bit_values_are_those_of_the_machine() {
    for a in LONGS {
        for b in LONGS {
            let ev = |op| eval_binary_of(op, Type::I64, a, b);
            let (sa, sb) = (a as i64, b as i64);
            assert_eq!(ev(Opcode::Iadd), Some(a.wrapping_add(b)));
            assert_eq!(ev(Opcode::Isub), Some(a.wrapping_sub(b)));
            assert_eq!(ev(Opcode::Imul), Some(a.wrapping_mul(b)));
            assert_eq!(ev(Opcode::Umulhi), Some(((a as u128 * b as u128) >> 64) as u64));
            assert_eq!(ev(Opcode::Smulhi), Some(((sa as i128 * sb as i128) >> 64) as u64));
            assert_eq!(ev(Opcode::Band), Some(a & b));
            assert_eq!(ev(Opcode::Bor), Some(a | b));
            assert_eq!(ev(Opcode::Bxor), Some(a ^ b));
            assert_eq!(ev(Opcode::Ishl), Some(a.wrapping_shl(b as u32)));
            assert_eq!(ev(Opcode::Ushr), Some(a.wrapping_shr(b as u32)));
            assert_eq!(ev(Opcode::Sshr), Some(sa.wrapping_shr(b as u32) as u64));
            assert_eq!(ev(Opcode::Rotl), Some(a.rotate_left((b % 64) as u32)));
            assert_eq!(ev(Opcode::Rotr), Some(a.rotate_right((b % 64) as u32)));
            if b == 0 {
                assert_eq!(ev(Opcode::Udiv), None);
                assert_eq!(ev(Opcode::Srem), None);
            } else {
                assert_eq!(ev(Opcode::Udiv), Some(a / b));
                assert_eq!(ev(Opcode::Urem), Some(a % b));
                if sa == i64::MIN && sb == -1 {
                    assert_eq!(ev(Opcode::Sdiv), None);
                    assert_eq!(ev(Opcode::Srem), Some(0));
                } else {
                    assert_eq!(ev(Opcode::Sdiv), Some((sa / sb) as u64));
                    assert_eq!(ev(Opcode::Srem), Some((sa % sb) as u64));
                }
            }
        }
    }
}

#[test]
fn immediates_are_reduced_to_the_type() {
    assert_eq!(eval_binary_imm_of(Opcode::IaddImm, Type::I32, 5, -1), Some(4));
    assert_eq!(eval_binary_imm_of(Opcode::IaddImm, Type::I32, 5, 0x1_0000_0001), Some(6));
    assert_eq!(eval_binary_imm_of(Opcode::IrsubImm, Type::I32, 5, 0), Some(0xffff_fffb));
    assert_eq!(eval_binary_imm_of(Opcode::IrsubImm, Type::I64, 5, 7), Some(2));
    assert_eq!(eval_binary_imm_of(Opcode::ImulImm, Type::I64, 5, -2), Some((-10i64) as u64));
    assert_eq!(eval_binary_imm_of(Opcode::UdivImm, Type::I32, 100, 7), Some(14));
    assert_eq!(eval_binary_imm_of(Opcode::UdivImm, Type::I32, 100, 0x1_0000_0000), None);
    assert_eq!(eval_binary_imm_of(Opcode::UremImm, Type::I32, 100, 7), Some(2));
    assert_eq!(eval_binary_imm_of(Opcode::SdivImm, Type::I32, (-9i32) as u32 as u64, -4), Some(2));
    assert_eq!(eval_binary_imm_of(Opcode::SdivImm, Type::I32, 0x8000_0000, -1), None);
    assert_eq!(eval_binary_imm_of(Opcode::SremImm, Type::I32, (-9i32) as u32 as u64, 4), Some((-1i32) as u32 as u64));
    assert_eq!(eval_binary_imm_of(Opcode::BandImm, Type::I32, 0xff, -4), Some(0xfc));
    assert_eq!(eval_binary_imm_of(Opcode::BorImm, Type::I32, 0xf0, 0x0f), Some(0xff));
    assert_eq!(eval_binary_imm_of(Opcode::BxorImm, Type::I32, 0xff, 0x0f), Some(0xf0));
    assert_eq!(eval_binary_imm_of(Opcode::IshlImm, Type::I32, 1, 33), Some(2));
    assert_eq!(eval_binary_imm_of(Opcode::UshrImm, Type::I64, 0x8000_0000_0000_0000, 63), Some(1));
    assert_eq!(eval_binary_imm_of(Opcode::SshrImm, Type::I32, 0x8000_0000, 31), Some(0xffff_ffff));
    assert_eq!(eval_binary_imm_of(Opcode::RotlImm, Type::I32, 0x8000_0000, 1), Some(1));
    assert_eq!(eval_binary_imm_of(Opcode::RotrImm, Type::I32, 1, 1), Some(0x8000_0000));
    assert_eq!(eval_binary_imm_of(Opcode::Iadd, Type::I32, 1, 1), None);
    assert_eq!(eval_binary_of(Opcode::IaddImm, Type::I32, 1, 1), None);
}
