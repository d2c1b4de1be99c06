use preopt::magic::{magic_s32, magic_s64, magic_u32, magic_u64, MS32, MS64, MU32, MU64};

fn mu32(mul_by: u32, do_add: bool, shift_by: i32) -> MU32 {
    MU32 { mul_by, do_add, shift_by }
}

fn mu64(mul_by: u64, do_add: bool, shift_by: i32) -> MU64 {
    MU64 { mul_by, do_add, shift_by }
}

fn ms32(mul_by: u32, shift_by: i32) -> MS32 {
    MS32 { mul_by: mul_by as i32, shift_by }
}

fn ms64(mul_by: u64, shift_by: i32) -> MS64 {
    MS64 { mul_by: mul_by as i64, shift_by }
}

fn udiv32(n: u32, m: MU32) -> u32 {
    let q1 = ((n as u64 * m.mul_by as u64) >> 32) as u32;
    if m.do_add {
        let t1 = n.wrapping_sub(q1);
        let t2 = t1 >> 1;
        let t3 = t2.wrapping_add(q1);
        t3 >> (m.shift_by - 1)
    } else {
        q1 >> m.shift_by
    }
}

fn udiv64(n: u64, m: MU64) -> u64 {
    let q1 = ((n as u128 * m.mul_by as u128) >> 64) as u64;
    if m.do_add {
        let t1 = n.wrapping_sub(q1);
        let t2 = t1 >> 1;
        let t3 = t2.wrapping_add(q1);
        t3 >> (m.shift_by - 1)
    } else {
        q1 >> m.shift_by
    }
}

fn sdiv32(n: i32, d: i32, m: MS32) -> i32 {
    let q1 = ((n as i64 * m.mul_by as i64) >> 32) as i32;
    let q2 = if d > 0 && m.mul_by < 0 {
        q1.wrapping_add(n)
    } else if d < 0 && m.mul_by > 0 {
        q1.wrapping_sub(n)
    } else {
        q1
    };
    let q3 = q2 >> m.shift_by;
    q3.wrapping_add(((q3 as u32) >> 31) as i32)
}

fn sdiv64(n: i64, d: i64, m: MS64) -> i64 {
    let q1 = ((n as i128 * m.mul_by as i128) >> 64) as i64;
    let q2 = if d > 0 && m.mul_by < 0 {
        q1.wrapping_add(n)
    } else if d < 0 && m.mul_by > 0 {
        q1.wrapping_sub(n)
    } else {
        q1
    };
    let q3 = q2 >> m.shift_by;
    q3.wrapping_add(((q3 as u64) >> 63) as i64)
}

#[test]
fn magic_u32_known_multipliers() {
    assert_eq!(magic_u32(2), mu32(0x8000_0000, false, 0));
    assert_eq!(magic_u32(3), mu32(0xaaaa_aaab, false, 1));
    assert_eq!(magic_u32(4), mu32(0x4000_0000, false, 0));
    assert_eq!(magic_u32(5), mu32(0xcccc_cccd, false, 2));
    assert_eq!(magic_u32(6), mu32(0xaaaa_aaab, false, 2));
    assert_eq!(magic_u32(7), mu32(0x2492_4925, true, 3));
    assert_eq!(magic_u32(9), mu32(0x38e3_8e39, false, 1));
    assert_eq!(magic_u32(10), mu32(0xcccc_cccd, false, 3));
    assert_eq!(magic_u32(11), mu32(0xba2e_8ba3, false, 3));
    assert_eq!(magic_u32(12), mu32(0xaaaa_aaab, false, 3));
    assert_eq!(magic_u32(25), mu32(0x51eb_851f, false, 3));
    assert_eq!(magic_u32(125), mu32(0x1062_4dd3, false, 3));
    assert_eq!(magic_u32(625), mu32(0xd1b7_1759, false, 9));
    assert_eq!(magic_u32(1337), mu32(0x8823_3b2b, true, 11));
    assert_eq!(magic_u32(65535), mu32(0x8000_8001, false, 15));
    assert_eq!(magic_u32(65536), mu32(0x0001_0000, false, 0));
    assert_eq!(magic_u32(65537), mu32(0xffff_0001, false, 16));
    assert_eq!(magic_u32(31415927), mu32(0x445b_4553, false, 23));
    assert_eq!(magic_u32(0xdead_beef), mu32(0x9327_5ab3, false, 31));
    assert_eq!(magic_u32(0xffff_fffd), mu32(0x4000_0001, false, 30));
    assert_eq!(magic_u32(0xffff_fffe), mu32(0x0000_0003, true, 32));
    assert_eq!(magic_u32(0xffff_ffff), mu32(0x8000_0001, false, 31));
}

#[test]
fn magic_u32_where_the_quotient_leaves_the_word() {
    let m = magic_u32(0x8000_0001);
    assert_eq!(m, mu32(0xffff_fffd, true, 32));
    for n in [0u32, 1, 0x8000_0000, 0x8000_0001, 0x8000_0002, 0xffff_ffff] {
        assert_eq!(udiv32(n, m), n / 0x8000_0001);
    }
}

#[test]
fn magic_u64_known_multipliers() {
    assert_eq!(magic_u64(2), mu64(0x8000_0000_0000_0000, false, 0));
    assert_eq!(magic_u64(3), mu64(0xaaaa_aaaa_aaaa_aaab, false, 1));
    assert_eq!(magic_u64(4), mu64(0x4000_0000_0000_0000, false, 0));
    assert_eq!(magic_u64(5), mu64(0xcccc_cccc_cccc_cccd, false, 2));
    assert_eq!(magic_u64(6), mu64(0xaaaa_aaaa_aaaa_aaab, false, 2));
    assert_eq!(magic_u64(7), mu64(0x2492_4924_9249_2493, true, 3));
    assert_eq!(magic_u64(9), mu64(0xe38e_38e3_8e38_e38f, false, 3));
    assert_eq!(magic_u64(10), mu64(0xcccc_cccc_cccc_cccd, false, 3));
    assert_eq!(magic_u64(11), mu64(0x2e8b_a2e8_ba2e_8ba3, false, 1));
    assert_eq!(magic_u64(12), mu64(0xaaaa_aaaa_aaaa_aaab, false, 3));
    assert_eq!(magic_u64(25), mu64(0x47ae_147a_e147_ae15, true, 5));
    assert_eq!(magic_u64(125), mu64(0x0624_dd2f_1a9f_be77, true, 7));
    assert_eq!(magic_u64(625), mu64(0x346d_c5d6_3886_594b, false, 7));
    assert_eq!(magic_u64(1337), mu64(0xc411_9d95_2866_a139, false, 10));
    assert_eq!(magic_u64(31415927), mu64(0x116d_154b_9c3d_2f85, true, 25));
    assert_eq!(magic_u64(0xdead_beef), mu64(0x9327_5ab2_dfc9_094b, false, 31));
    assert_eq!(magic_u64(0xffff_fffd), mu64(0x8000_0001_8000_0005, false, 31));
    assert_eq!(magic_u64(0xffff_fffe), mu64(0x0000_0002_0000_0005, true, 32));
    assert_eq!(magic_u64(0xffff_ffff), mu64(0x8000_0000_8000_0001, false, 31));
    assert_eq!(magic_u64(0x1_0000_0000), mu64(0x0000_0001_0000_0000, false, 0));
    assert_eq!(magic_u64(0x1_0000_0001), mu64(0xffff_ffff_0000_0001, false, 32));
    assert_eq!(magic_u64(0x0ddc_0ffe_ebad_f00d), mu64(0x2788_e9d3_94b7_7da1, true, 60));
    assert_eq!(magic_u64(0xffff_ffff_ffff_fffd), mu64(0x4000_0000_0000_0001, false, 62));
    assert_eq!(magic_u64(0xffff_ffff_ffff_fffe), mu64(0x0000_0000_0000_0003, true, 64));
    assert_eq!(magic_u64(0xffff_ffff_ffff_ffff), mu64(0x8000_0000_0000_0001, false, 63));
}

#[test]
fn magic_s32_known_multipliers() {
    assert_eq!(magic_s32(-0x8000_0000), ms32(0x7fff_ffff, 30));
    assert_eq!(magic_s32(-0x7fff_ffff), ms32(0xbfff_ffff, 29));
    assert_eq!(magic_s32(-0x7fff_fffe), ms32(0x7fff_fffd, 30));
    assert_eq!(magic_s32(-31415927), ms32(0xbba4_baad, 23));
    assert_eq!(magic_s32(-1337), ms32(0x9df7_3135, 9));
    assert_eq!(magic_s32(-256), ms32(0x7fff_ffff, 7));
    assert_eq!(magic_s32(-5), ms32(0x9999_9999, 1));
    assert_eq!(magic_s32(-3), ms32(0x5555_5555, 1));
    assert_eq!(magic_s32(-2), ms32(0x7fff_ffff, 0));
    assert_eq!(magic_s32(2), ms32(0x8000_0001, 0));
    assert_eq!(magic_s32(3), ms32(0x5555_5556, 0));
    assert_eq!(magic_s32(4), ms32(0x8000_0001, 1));
    assert_eq!(magic_s32(5), ms32(0x6666_6667, 1));
    assert_eq!(magic_s32(6), ms32(0x2aaa_aaab, 0));
    assert_eq!(magic_s32(7), ms32(0x9249_2493, 2));
    assert_eq!(magic_s32(9), ms32(0x38e3_8e39, 1));
    assert_eq!(magic_s32(10), ms32(0x6666_6667, 2));
    assert_eq!(magic_s32(11), ms32(0x2e8b_a2e9, 1));
    assert_eq!(magic_s32(12), ms32(0x2aaa_aaab, 1));
    assert_eq!(magic_s32(25), ms32(0x51eb_851f, 3));
    assert_eq!(magic_s32(125), ms32(0x1062_4dd3, 3));
    assert_eq!(magic_s32(625), ms32(0x68db_8bad, 8));
    assert_eq!(magic_s32(1337), ms32(0x6208_cecb, 9));
    assert_eq!(magic_s32(31415927), ms32(0x445b_4553, 23));
    assert_eq!(magic_s32(0x7fff_fffe), ms32(0x8000_0003, 30));
    assert_eq!(magic_s32(0x7fff_ffff), ms32(0x4000_0001, 29));
}

#[test]
fn magic_s64_known_multipliers() {
    assert_eq!(magic_s64(-0x8000_0000_0000_0000), ms64(0x7fff_ffff_ffff_ffff, 62));
    assert_eq!(magic_s64(-0x7fff_ffff_ffff_ffff), ms64(0xbfff_ffff_ffff_ffff, 61));
    assert_eq!(magic_s64(-0x7fff_ffff_ffff_fffe), ms64(0x7fff_ffff_ffff_fffd, 62));
    assert_eq!(magic_s64(-0x0ddc_0ffe_ebad_f00d), ms64(0x6c3b_8b16_35a4_412f, 59));
    assert_eq!(magic_s64(-0x1_0000_0001), ms64(0x8000_0000_7fff_ffff, 31));
    assert_eq!(magic_s64(-0x1_0000_0000), ms64(0x7fff_ffff_ffff_ffff, 31));
    assert_eq!(magic_s64(-0xffff_ffff), ms64(0x7fff_ffff_7fff_ffff, 31));
    assert_eq!(magic_s64(-31415927), ms64(0x7749_755a_31e1_683d, 24));
    assert_eq!(magic_s64(-1337), ms64(0x9df7_3135_6bcc_af63, 9));
    assert_eq!(magic_s64(-256), ms64(0x7fff_ffff_ffff_ffff, 7));
    assert_eq!(magic_s64(-5), ms64(0x9999_9999_9999_9999, 1));
    assert_eq!(magic_s64(-3), ms64(0x5555_5555_5555_5555, 1));
    assert_eq!(magic_s64(-2), ms64(0x7fff_ffff_ffff_ffff, 0));
    assert_eq!(magic_s64(2), ms64(0x8000_0000_0000_0001, 0));
    assert_eq!(magic_s64(3), ms64(0x5555_5555_5555_5556, 0));
    assert_eq!(magic_s64(4), ms64(0x8000_0000_0000_0001, 1));
    assert_eq!(magic_s64(5), ms64(0x6666_6666_6666_6667, 1));
    assert_eq!(magic_s64(6), ms64(0x2aaa_aaaa_aaaa_aaab, 0));
    assert_eq!(magic_s64(7), ms64(0x4924_9249_2492_4925, 1));
    assert_eq!(magic_s64(9), ms64(0x1c71_c71c_71c7_1c72, 0));
    assert_eq!(magic_s64(10), ms64(0x6666_6666_6666_6667, 2));
    assert_eq!(magic_s64(25), ms64(0xa3d7_0a3d_70a3_d70b, 4));
    assert_eq!(magic_s64(1337), ms64(0x6208_ceca_9433_509d, 9));
    assert_eq!(magic_s64(0x7fff_ffff_ffff_fffd), ms64(0x2000_0000_0000_0001, 60));
    assert_eq!(magic_s64(0x7fff_ffff_ffff_fffe), ms64(0x8000_0000_0000_0003, 62));
    assert_eq!(magic_s64(0x7fff_ffff_ffff_ffff), ms64(0x4000_0000_0000_0001, 61));
}

#[test]
fn magic_u32_divides_every_sampled_dividend() {
    let divisors = [2u32, 3, 5, 6, 7, 9, 10, 100, 641, 1000, 65535, 65537, 0x7fff_ffff, 0x8000_0000, 0x8000_0001, 0xffff_fffe, 0xffff_ffff];
    let dividends = [0u32, 1, 2, 6, 7, 8, 99, 100, 101, 0x7fff_ffff, 0x8000_0000, 0x8000_0001, 0xffff_fffd, 0xffff_fffe, 0xffff_ffff];
    for d in divisors {
        let m = magic_u32(d);
        for n in dividends {
            assert_eq!(udiv32(n, m), n / d, "{} / {}", n, d);
        }
        let mut n: u32 = 12345;
        for _ in 0..500 {
            n = n.wrapping_mul(1664525).wrapping_add(1013904223);
            assert_eq!(udiv32(n, m), n / d, "{} / {}", n, d);
        }
    }
}

#[test]
fn magic_u64_divides_every_sampled_dividend() {
    let divisors = [2u64, 3, 7, 10, 1000, 0xffff_ffff, 0x1_0000_0001, 0x7fff_ffff_ffff_ffff, 0x8000_0000_0000_0001, 0xffff_ffff_ffff_fffe, 0xffff_ffff_ffff_ffff];
    let dividends = [0u64, 1, 6, 7, 8, 100, 0xffff_ffff, 0x1_0000_0000, 0x7fff_ffff_ffff_ffff, 0x8000_0000_0000_0000, 0x8000_0000_0000_0001, 0xffff_ffff_ffff_fffe, 0xffff_ffff_ffff_ffff];
    for d in divisors {
        let m = magic_u64(d);
        for n in dividends {
            assert_eq!(udiv64(n, m), n / d, "{} / {}", n, d);
        }
        let mut n: u64 = 12345;
        for _ in 0..500 {
            n = n.wrapping_mul(6364136223846793005).wrapping_add(1442695040888963407);
            assert_eq!(udiv64(n, m), n / d, "{} / {}", n, d);
        }
    }
}

#[test]
fn magic_s32_divides_every_sampled_dividend() {
    let divisors = [2i32, -2, 3, -3, 5, -5, 7, -7, 10, -10, 641, -641, 0x7fff_ffff, -0x7fff_ffff, i32::MIN];
    let dividends = [0i32, 1, -1, 6, -6, 7, -7, 8, -8, 100, -100, i32::MAX, i32::MIN, i32::MIN + 1, i32::MAX - 1];
    for d in divisors {
        let m = magic_s32(d);
        for n in dividends {
            assert_eq!(sdiv32(n, d, m), n.wrapping_div(d), "{} / {}", n, d);
        }
        let mut n: u32 = 54321;
        for _ in 0..500 {
            n = n.wrapping_mul(1664525).wrapping_add(1013904223);
            assert_eq!(sdiv32(n as i32, d, m), (n as i32).wrapping_div(d), "{} / {}", n as i32, d);
        }
    }
}

#[test]
fn magic_s64_divides_every_sampled_dividend() {
    let divisors = [2i64, -2, 3, -3, 7, -7, 10, -10, 0x1_0000_0001, -0x1_0000_0001, i64::MAX, -i64::MAX, i64::MIN];
    let dividends = [0i64, 1, -1, 6, -6, 7, -7, 100, -100, i64::MAX, i64::MIN, i64::MIN + 1, i64::MAX - 1];
    for d in divisors {
        let m = magic_s64(d);
        for n in dividends {
            assert_eq!(sdiv64(n, d, m), n.wrapping_div(d), "{} / {}", n, d);
        }
        let mut n: u64 = 54321;
        for _ in 0..500 {
            n = n.wrapping_mul(6364136223846793005).wrapping_add(1442695040888963407);
            assert_eq!(sdiv64(n as i64, d, m), (n as i64).wrapping_div(d), "{} / {}", n as i64, d);
        }
    }
}

#[test]
fn magic_u32_small_divisors_sum() {
    let mut total: u64 = 0;
    for x in 2..(200 * 1000u32) {
        let m = magic_u32(x);
        total = total ^ (m.mul_by as u64);
        total = total + (m.shift_by as u64);
        total = total + (if m.do_add { 123 } else { 456 });
    }
    assert_eq!(total, 2481999609);
}

#[test]
fn magic_u32_middle_divisors_sum() {
    let mut total: u64 = 0;
    for x in 0x8000_0000u32 - 10 * 1000u32..0x8000_0000u32 + 10 * 1000u32 {
        let m = magic_u32(x);
        total = total ^ (m.mul_by as u64);
        total = total + (m.shift_by as u64);
        total = total + (if m.do_add { 123 } else { 456 });
    }
    assert_eq!(total, 2399809723);
}

#[test]
fn magic_u32_large_divisors_sum() {
    let mut total: u64 = 0;
    for x in 0..(200 * 1000u32) {
        let m = magic_u32(0xFFFF_FFFFu32 - x);
        total = total ^ (m.mul_by as u64);
        total = total + (m.shift_by as u64);
        total = total + (if m.do_add { 123 } else { 456 });
    }
    assert_eq!(total, 271138267);
}
