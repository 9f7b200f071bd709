use hcp_rs::bits::highest_set_bit;
use hcp_rs::bits::insert_zero_at;
use hcp_rs::bits::remove_bit_at;

#[test]
fn insert_zero_shifts_high_bits_up() {
    assert_eq!(insert_zero_at(0b1111, 2, 4), 0b11011);
    assert_eq!(insert_zero_at(0b1111, 2, 5), 0b11011);
    assert_eq!(insert_zero_at(0b1, 1, 1), 0b1);
    assert_eq!(insert_zero_at(0b101, 0, 3), 0b1010);
}

#[test]
fn remove_bit_shifts_high_bits_down() {
    assert_eq!(remove_bit_at(0b11011, 2, 5), 0b1111);
    assert_eq!(remove_bit_at(0b1010, 0, 4), 0b101);
    assert_eq!(remove_bit_at(0b11, 1, 2), 0b1);
}

#[test]
fn insert_then_remove_restores() {
    for mask in [0b1u64, 0b1011, 0b110101, 0xff] {
        for pos in 1..=8usize {
            let widened = insert_zero_at(mask, pos, 8);
            assert_eq!(remove_bit_at(widened, pos, 9), mask);
        }
    }
}

#[test]
fn highest_set_bit_examples() {
    assert_eq!(highest_set_bit(1), 0);
    assert_eq!(highest_set_bit(0b100), 2);
    assert_eq!(highest_set_bit(0b101), 2);
    assert_eq!(highest_set_bit(u64::MAX), 63);
    assert_eq!(highest_set_bit(1u64 << 63), 63);
}
