use sudoku_solver::bits::DIGIT_BITS;
use sudoku_solver::sudoku::{bits_to_nums, nums_to_bits};

#[test]
fn test_nums_to_bits() {
    let v = vec![1, 2, 4, 5];
    assert_eq!(nums_to_bits(&v), 0b110110);
}

#[test]
fn test_bits_to_nums() {
    let v = vec![1, 2, 4, 5];
    let i = 0b110110;
    assert_eq!(bits_to_nums(i), v);
}

#[test]
fn nums_to_bits_sets_one_bit_for_each_digit() {
    assert_eq!(nums_to_bits(&[]), 0);
    assert_eq!(nums_to_bits(&[1]), 2);
    assert_eq!(nums_to_bits(&[9]), 512);
    assert_eq!(nums_to_bits(&[1, 2, 3, 4, 5, 6, 7, 8, 9]), 1022);
    assert_eq!(nums_to_bits(&[0]), 1);
    assert_eq!(nums_to_bits(&[15]), 0x8000);
}

#[test]
fn nums_to_bits_ignores_order_and_repetition() {
    assert_eq!(nums_to_bits(&[5, 4, 2, 1]), 0b110110);
    assert_eq!(nums_to_bits(&[2, 5, 2, 1, 4, 4, 1]), 0b110110);
    assert_eq!(nums_to_bits(&[7, 7, 7]), 128);
}

#[test]
fn bits_to_nums_lists_the_digits_in_ascending_order() {
    assert_eq!(bits_to_nums(0), Vec::<u8>::new());
    assert_eq!(bits_to_nums(2), vec![1]);
    assert_eq!(bits_to_nums(512), vec![9]);
    assert_eq!(bits_to_nums(1022), vec![1, 2, 3, 4, 5, 6, 7, 8, 9]);
    assert_eq!(bits_to_nums(0b10_1000_1000), vec![3, 7, 9]);
}

#[test]
fn bits_to_nums_ignores_the_filler_bits() {
    assert_eq!(bits_to_nums(1), Vec::<u8>::new());
    assert_eq!(bits_to_nums(0xfc01), Vec::<u8>::new());
    assert_eq!(bits_to_nums(0xffff), vec![1, 2, 3, 4, 5, 6, 7, 8, 9]);
    assert_eq!(bits_to_nums(0xfeff), vec![1, 2, 3, 4, 5, 6, 7, 9]);
}

#[test]
fn digit_bits_are_the_bits_one_to_nine() {
    assert_eq!(DIGIT_BITS, 0b11_1111_1110);
    assert_eq!(bits_to_nums(DIGIT_BITS), vec![1, 2, 3, 4, 5, 6, 7, 8, 9]);
}

#[test]
fn listing_a_built_mask_gives_the_digits_back() {
    for m in 0u16..512 {
        let mut v = Vec::new();
        for d in 1u8..10 {
            if (m >> (d - 1)) & 1 == 1 {
                v.push(d);
            }
        }
        assert_eq!(bits_to_nums(nums_to_bits(&v)), v);
        let mut shuffled = v.clone();
        shuffled.reverse();
        shuffled.extend_from_slice(&v);
        assert_eq!(bits_to_nums(nums_to_bits(&shuffled)), v);
    }
}

#[test]
fn building_the_mask_of_a_listing_gives_the_digit_bits_back() {
    for m in 0u16..=u16::MAX {
        assert_eq!(nums_to_bits(&bits_to_nums(m)), m & 0x03fe);
    }
}
