use sparse_octree::morton::{encode_position, lane};
use sparse_octree::Octree;

#[test]
fn lane_reverses_and_flips_the_top_bit() {
    assert_eq!(lane(0, 1), 0x1);
    assert_eq!(lane(-1, 1), 0x0);
    assert_eq!(lane(3, 3), 0x7);
    assert_eq!(lane(-4, 3), 0x0);
    assert_eq!(lane(5, 32), 0xa000_0001);
    assert_eq!(lane(-1, 32), 0xffff_fffe);
}

#[test]
fn lane_of_a_tree_without_levels_is_zero() {
    assert_eq!(lane(0, 0), 0);
    assert_eq!(lane(-1, 0), 0);
    assert_eq!(lane(i32::MAX, 0), 0);
}

#[test]
fn lane_is_not_its_argument() {
    // 1 at depth 2 is the offset value 3: both halves are the upper ones.
    assert_eq!(lane(1, 2), 0x3);
    // -2 at depth 2 is the lowest value of the range: both halves are lower.
    assert_eq!(lane(-2, 2), 0x0);
    assert_eq!(lane(0, 2), 0x1);
    assert_eq!(lane(-1, 2), 0x2);
}

#[test]
fn encode_position_depth_one() {
    assert_eq!(encode_position(-1, -1, -1, 1), 0x0);
    assert_eq!(encode_position(0, 0, 0, 1), 0x7);
    assert_eq!(encode_position(0, -1, -1, 1), 0x1);
    assert_eq!(encode_position(-1, 0, -1, 1), 0x4);
    assert_eq!(encode_position(-1, -1, 0, 1), 0x2);
}

#[test]
fn encode_position_deeper_trees() {
    assert_eq!(encode_position(0, 0, 0, 2), 0x07);
    assert_eq!(encode_position(1, 1, 1, 2), 0x77);
    assert_eq!(encode_position(-2, -2, -2, 2), 0x00);
    assert_eq!(encode_position(1, -2, 0, 2), 0x13);
    assert_eq!(encode_position(3, -4, 2, 3), 0x133);
    assert_eq!(encode_position(-128, 127, 5, 8), 0x6464_4446);
    assert_eq!(encode_position(123456, -654321, 42, 21), 0x4_6460_2100_1400_1111_4403);
}

#[test]
fn encode_position_full_depth() {
    assert_eq!(
        encode_position(i32::MAX, i32::MIN, 0, 32),
        0x1111_1111_1111_1111_1111_1111_1111_1113
    );
    assert_eq!(
        encode_position(i32::MAX, i32::MAX, i32::MAX, 32),
        0x7777_7777_7777_7777_7777_7777_7777_7777
    );
    assert_eq!(encode_position(i32::MIN, i32::MIN, i32::MIN, 32), 0);
}

#[test]
fn encode_position_without_levels_is_zero() {
    assert_eq!(encode_position(5, 5, 5, 0), 0);
    assert_eq!(encode_position(i32::MIN, i32::MAX, -1, 0), 0);
}

#[test]
fn encode_position_through_the_tree_type() {
    assert_eq!(Octree::<u8>::encode_position(1, -2, 0, 2), 0x13);
    assert_eq!(Octree::<u8>::encode_position(3, -4, 2, 3), 0x133);
}

#[test]
fn every_fourth_bit_of_a_key_is_zero() {
    let depth: u32 = 4;
    for x in -8..8 {
        for y in -8..8 {
            for z in -8..8 {
                let key = encode_position(x, y, z, depth);
                assert_eq!(key & 0x8888_8888_8888_8888_8888_8888_8888_8888, 0);
                assert!(key < (1u128 << (4 * depth)));
            }
        }
    }
}

#[test]
fn keys_are_distinct_over_the_whole_lattice() {
    let depth: u32 = 3;
    let mut seen: Vec<u128> = Vec::new();
    for x in -4..4 {
        for y in -4..4 {
            for z in -4..4 {
                seen.push(encode_position(x, y, z, depth));
            }
        }
    }
    seen.sort();
    seen.dedup();
    assert_eq!(seen.len(), 512);
}

#[test]
fn first_digit_of_a_key_is_the_coarsest_octant() {
    // Upper half of x alone is octant 1, of z alone 2, of y alone 4.
    assert_eq!(encode_position(0, -4, -4, 3) & 15, 1);
    assert_eq!(encode_position(-4, -4, 0, 3) & 15, 2);
    assert_eq!(encode_position(-4, 0, -4, 3) & 15, 4);
    // The finest subdivision is read last.
    assert_eq!(encode_position(-3, -4, -4, 3), 0x100);
}

#[test]
fn coordinates_out_of_range_fall_on_the_cell_they_wrap_to() {
    // At depth 2 the range of an axis is -2..2, so 2 wraps to -2 and -3 to 1.
    assert_eq!(encode_position(2, 0, 0, 2), encode_position(-2, 0, 0, 2));
    assert_eq!(encode_position(2, 0, 0, 2), 0x06);
    assert_eq!(encode_position(-3, 0, 0, 2), encode_position(1, 0, 0, 2));
    assert_eq!(encode_position(-3, 0, 0, 2), 0x17);
    assert_eq!(encode_position(6, -6, 10, 2), encode_position(-2, -2, -2, 2));
}
