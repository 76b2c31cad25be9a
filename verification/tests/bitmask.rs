use spyglass::bitmask::{
    cell_bits, get_bit_at, get_bit_at_index, hamming_distance, invert, set_bit_at,
    set_bit_at_index,
};

#[test]
fn test_get_bit_at_index() {
    let lower_half = 0x0000ffff;
    assert_eq!(false, get_bit_at_index(lower_half, 0));
    assert_eq!(false, get_bit_at_index(lower_half, 1));
    assert_eq!(false, get_bit_at_index(lower_half, 15));
    assert_eq!(true, get_bit_at_index(lower_half, 16));
    assert_eq!(true, get_bit_at_index(lower_half, 31));
}

#[test]
fn test_set_bit_at_index_counts_from_the_top() {
    let mut bitmap = 0;
    set_bit_at_index(&mut bitmap, 0);
    assert_eq!(bitmap, 0x8000_0000);
    set_bit_at_index(&mut bitmap, 31);
    assert_eq!(bitmap, 0x8000_0001);
    set_bit_at_index(&mut bitmap, 16);
    assert_eq!(bitmap, 0x8000_8001);
}

#[test]
fn test_set_bit_at_index_keeps_ink() {
    let mut bitmap = 0x0000_ffff;
    set_bit_at_index(&mut bitmap, 20);
    assert_eq!(bitmap, 0x0000_ffff);
    for index in 0..32 {
        let mut one = 0;
        set_bit_at_index(&mut one, index);
        for other in 0..32 {
            assert_eq!(get_bit_at_index(one, other), other == index);
        }
    }
}

#[test]
fn test_get_bit_at_counts_from_the_top_of_the_cell() {
    let lower_half = 0x0000_ffff;
    assert_eq!(false, get_bit_at(lower_half, 32, 0));
    assert_eq!(false, get_bit_at(lower_half, 32, 15));
    assert_eq!(true, get_bit_at(lower_half, 32, 16));
    assert_eq!(true, get_bit_at(lower_half, 32, 31));
    // The same word as a pattern of 16 positions is all ink.
    assert_eq!(true, get_bit_at(lower_half, 16, 0));
    assert_eq!(true, get_bit_at(lower_half, 16, 15));
    // As a pattern of 128 positions it is ink on the last 16 only.
    assert_eq!(false, get_bit_at(lower_half, 128, 0));
    assert_eq!(false, get_bit_at(lower_half, 128, 111));
    assert_eq!(true, get_bit_at(lower_half, 128, 112));
    assert_eq!(true, get_bit_at(lower_half, 128, 127));
    assert_eq!(true, get_bit_at(1 << 127, 128, 0));
    assert_eq!(true, get_bit_at(1, 1, 0));
}

#[test]
fn test_set_bit_at() {
    let mut bitmap = 0;
    set_bit_at(&mut bitmap, 128, 0);
    assert_eq!(bitmap, 1 << 127);
    set_bit_at(&mut bitmap, 128, 127);
    assert_eq!(bitmap, (1 << 127) | 1);
    let mut small = 0;
    set_bit_at(&mut small, 16, 0);
    assert_eq!(small, 0x8000);
    set_bit_at(&mut small, 16, 15);
    set_bit_at(&mut small, 16, 15);
    assert_eq!(small, 0x8001);
    for positions in [1u32, 4, 16, 32, 100, 128] {
        for index in 0..positions {
            let mut one = 0;
            set_bit_at(&mut one, positions, index);
            assert_eq!(one, 1u128 << (positions - 1 - index));
            for other in 0..positions {
                assert_eq!(get_bit_at(one, positions, other), other == index);
            }
        }
    }
}

#[test]
fn test_cell_bits() {
    assert_eq!(cell_bits(0), 0);
    assert_eq!(cell_bits(1), 1);
    assert_eq!(cell_bits(16), 0xffff);
    assert_eq!(cell_bits(32), 0xffff_ffff);
    assert_eq!(cell_bits(127), u128::MAX >> 1);
    assert_eq!(cell_bits(128), u128::MAX);
    assert_eq!(cell_bits(200), u128::MAX);
}

#[test]
fn test_invert_stays_in_the_cell() {
    assert_eq!(invert(0x00ff, 16), 0xff00);
    assert_eq!(invert(0xff00, 16), 0x00ff);
    assert_eq!(invert(0x0000_ffff, 32), 0xffff_0000);
    assert_eq!(invert(0, 128), u128::MAX);
    assert_eq!(invert(0, 0), 0);
    assert_eq!(invert(0xf_00ff, 16), 0xff00);
    assert_eq!(invert(invert(0x1234, 16), 16), 0x1234);
}

#[test]
fn test_hamming_distance() {
    assert_eq!(hamming_distance(0, 0, 32), 0);
    assert_eq!(hamming_distance(0x0000_ffff, 0x0000_ffff, 32), 0);
    assert_eq!(hamming_distance(0x0000_ffff, 0xffff_0000, 32), 32);
    assert_eq!(hamming_distance(0x8000_0000, 0x0000_ffff, 32), 17);
    assert_eq!(hamming_distance(0x7fff_ffff, 0x0000_ffff, 32), 15);
    assert_eq!(hamming_distance(0x0000_000f, 0x0000_00ff, 32), 4);
    assert_eq!(hamming_distance(0, u128::MAX, 128), 128);
    assert_eq!(hamming_distance(0, u128::MAX, 0), 0);
}

#[test]
fn test_hamming_distance_counts_the_cell_alone() {
    assert_eq!(hamming_distance(0x00ff, 0xff00, 16), 16);
    assert_eq!(hamming_distance(0x00ff, 0xffff_ff00, 16), 16);
    assert_eq!(hamming_distance(0x00ff, 0xffff_00ff, 16), 0);
    assert_eq!(hamming_distance(0x00ff, 0xffff_00ff, 32), 16);
    assert_eq!(hamming_distance(0b1010, 0b0111, 2), 1);
}

#[test]
fn test_hamming_distance_to_complement() {
    let patterns = [0u128, 0x0000_ffff, 0x1234_5678, 0xffff_ffff, 0x8000_0001, u128::MAX];
    for positions in [4u32, 16, 32, 128] {
        for a in patterns {
            for b in patterns {
                assert_eq!(
                    hamming_distance(a, b, positions)
                        + hamming_distance(a, invert(b, positions), positions),
                    positions
                );
                assert_eq!(hamming_distance(a, b, positions), hamming_distance(b, a, positions));
            }
        }
    }
}
