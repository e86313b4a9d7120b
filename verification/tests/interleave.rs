use sparse_octree::Interleavable;

#[test]
fn interleave_u8_places_first_operand_at_even_bits() {
    assert_eq!(0xffu8.interleave(0x00), 0x5555u16);
    assert_eq!(0x01u8.interleave(0x00), 0x0001u16);
    assert_eq!(0x80u8.interleave(0x00), 0x4000u16);
}

#[test]
fn interleave_u8_places_second_operand_at_odd_bits() {
    assert_eq!(0x00u8.interleave(0xff), 0xaaaau16);
    assert_eq!(0x00u8.interleave(0x01), 0x0002u16);
    assert_eq!(0x00u8.interleave(0x80), 0x8000u16);
}

#[test]
fn interleave_u8_mixed_operands() {
    assert_eq!(0xa5u8.interleave(0x3c), 0x4eb1u16);
    assert_eq!(0x00u8.interleave(0x00), 0x0000u16);
    assert_eq!(0xffu8.interleave(0xff), 0xffffu16);
}

#[test]
fn interleave_u8_every_bit_lands_at_its_place() {
    for i in 0..8u32 {
        for j in 0..8u32 {
            let woven: u16 = (1u8 << i).interleave(1u8 << j);
            assert_eq!(woven, (1u16 << (2 * i)) | (1u16 << (2 * j + 1)));
        }
    }
}

#[test]
fn interleave_u16_exact_values() {
    assert_eq!(0xffffu16.interleave(0x0000), 0x5555_5555u32);
    assert_eq!(0x0000u16.interleave(0xffff), 0xaaaa_aaaau32);
    assert_eq!(0x1234u16.interleave(0xabcd), 0x898e_a5b2u32);
}

#[test]
fn interleave_u16_every_bit_lands_at_its_place() {
    for i in 0..16u32 {
        for j in 0..16u32 {
            let woven: u32 = (1u16 << i).interleave(1u16 << j);
            assert_eq!(woven, (1u32 << (2 * i)) | (1u32 << (2 * j + 1)));
        }
    }
}

#[test]
fn interleave_u32_exact_values() {
    assert_eq!(0xffff_ffffu32.interleave(0), 0x5555_5555_5555_5555u64);
    assert_eq!(0xdead_beefu32.interleave(0x0123_4567), 0x5156_4c5b_6576_7c7fu64);
}

#[test]
fn interleave_u32_every_bit_lands_at_its_place() {
    for i in 0..32u32 {
        for j in 0..32u32 {
            let woven: u64 = (1u32 << i).interleave(1u32 << j);
            assert_eq!(woven, (1u64 << (2 * i)) | (1u64 << (2 * j + 1)));
        }
    }
}

#[test]
fn interleave_u64_exact_values() {
    assert_eq!(
        0u64.interleave(0xffff_ffff_ffff_ffff),
        0xaaaa_aaaa_aaaa_aaaa_aaaa_aaaa_aaaa_aaaau128
    );
    assert_eq!(
        0x0123_4567_89ab_cdefu64.interleave(0xfedc_ba98_7654_3210),
        0xaaa9_a6a5_9a99_9695_6a69_6665_5a59_5655u128
    );
}

#[test]
fn interleave_u64_every_bit_lands_at_its_place() {
    for i in 0..64u32 {
        for j in 0..64u32 {
            let woven: u128 = (1u64 << i).interleave(1u64 << j);
            assert_eq!(woven, (1u128 << (2 * i)) | (1u128 << (2 * j + 1)));
        }
    }
}
