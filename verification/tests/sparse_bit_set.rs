use font_toolkit::branch_factor::BranchFactor;
use font_toolkit::int_set::IntSet;
use font_toolkit::sparse_bit_set::to_sparse_bit_set_with_bf;

fn set_of(values: &[u32]) -> IntSet {
    IntSet::from_values(values)
}

fn range(lo: u32, hi: u32) -> IntSet {
    let mut s = IntSet::empty();
    s.insert_range(lo, hi);
    s
}

#[test]
fn spec_example_2() {
    let bytes = [
        0b00001110, 0b00100001, 0b00010001, 0b00000001, 0b00000100, 0b00000010, 0b00001000,
    ];

    let set = IntSet::from_sparse_bit_set(&bytes).unwrap();
    let expected: IntSet = set_of(&[2, 33, 323]);
    assert_eq!(set, expected);
}

#[test]
fn spec_example_3() {
    let bytes = [0b00000000];

    let set = IntSet::from_sparse_bit_set(&bytes).unwrap();
    let expected: IntSet = set_of(&[]);
    assert_eq!(set, expected);
}

#[test]
fn spec_example_4() {
    let bytes = [0b00001101, 0b00000011, 0b00110001];

    let set = IntSet::from_sparse_bit_set(&bytes).unwrap();

    let mut expected: IntSet = IntSet::empty();
    expected.insert_range(0, 17);

    assert_eq!(set, expected);
}

#[test]
fn invalid() {
    // The stream of {2, 33, 323} with one byte missing.
    let bytes = [
        0b00001110, 0b00100001, 0b00010001, 0b00000001, 0b00000100, 0b00000010,
    ];
    assert!(IntSet::from_sparse_bit_set(&bytes).is_err());
}

#[test]
fn test_tree_height_for() {
    assert_eq!(BranchFactor::Two.tree_height_for(0), 1);
    assert_eq!(BranchFactor::Two.tree_height_for(1), 1);
    assert_eq!(BranchFactor::Two.tree_height_for(2), 2);
    assert_eq!(BranchFactor::Two.tree_height_for(117), 7);

    assert_eq!(BranchFactor::Four.tree_height_for(0), 1);
    assert_eq!(BranchFactor::Four.tree_height_for(3), 1);
    assert_eq!(BranchFactor::Four.tree_height_for(4), 2);
    assert_eq!(BranchFactor::Four.tree_height_for(63), 3);
    assert_eq!(BranchFactor::Four.tree_height_for(64), 4);

    assert_eq!(BranchFactor::Eight.tree_height_for(0), 1);
    assert_eq!(BranchFactor::Eight.tree_height_for(7), 1);
    assert_eq!(BranchFactor::Eight.tree_height_for(8), 2);
    assert_eq!(BranchFactor::Eight.tree_height_for(32767), 5);
    assert_eq!(BranchFactor::Eight.tree_height_for(32768), 6);

    assert_eq!(BranchFactor::ThirtyTwo.tree_height_for(0), 1);
    assert_eq!(BranchFactor::ThirtyTwo.tree_height_for(31), 1);
    assert_eq!(BranchFactor::ThirtyTwo.tree_height_for(32), 2);
    assert_eq!(BranchFactor::ThirtyTwo.tree_height_for(1_048_575), 4);
    assert_eq!(BranchFactor::ThirtyTwo.tree_height_for(1_048_576), 5);
}

#[test]
fn generate_spec_example_2() {
    let actual_bytes = to_sparse_bit_set_with_bf::<8>(&set_of(&[2, 33, 323]));
    let expected_bytes = [
        0b00001110, 0b00100001, 0b00010001, 0b00000001, 0b00000100, 0b00000010, 0b00001000,
    ];

    assert_eq!(actual_bytes, expected_bytes);
}

#[test]
fn generate_spec_example_3() {
    let actual_bytes = to_sparse_bit_set_with_bf::<2>(&IntSet::empty());
    let expected_bytes = [0b00000000];

    assert_eq!(actual_bytes, expected_bytes);
}

#[test]
fn generate_spec_example_4() {
    let actual_bytes = to_sparse_bit_set_with_bf::<4>(&range(0, 17));
    let expected_bytes = [0b00001101, 0b0000_0011, 0b0011_0001];

    assert_eq!(actual_bytes, expected_bytes);
}

#[test]
fn encode_one_level() {
    let actual_bytes = to_sparse_bit_set_with_bf::<8>(&set_of(&[2, 6]));
    let expected_bytes = [0b0_00001_10, 0b01000100];
    assert_eq!(actual_bytes, expected_bytes);
}

#[test]
fn encode_one_level_filled() {
    let actual_bytes = to_sparse_bit_set_with_bf::<8>(&range(0, 7));
    let expected_bytes = [0b0_00001_10, 0b00000000];
    assert_eq!(actual_bytes, expected_bytes);
}

#[test]
fn encode_two_level_filled() {
    let actual_bytes = to_sparse_bit_set_with_bf::<8>(&range(3, 21));
    let expected_bytes = [0b0_00010_10, 0b00000111, 0b11111000, 0b00000000, 0b00111111];
    assert_eq!(actual_bytes, expected_bytes);
}

#[test]
fn encode_two_level_not_filled() {
    let actual_bytes = to_sparse_bit_set_with_bf::<4>(&set_of(&[0, 4, 8, 12]));
    let expected_bytes = [0b0_00010_01, 0b0001_1111, 0b0001_0001, 0b0000_0001];
    assert_eq!(actual_bytes, expected_bytes);
}

#[test]
fn encode_four_level_filled() {
    let mut s = IntSet::empty();
    s.insert_range(64, 127); // Filled node on level 3
    s.insert_range(512, 1023); // Filled node on level 2
    s.insert(4000);

    let actual_bytes = to_sparse_bit_set_with_bf::<8>(&s);
    let expected_bytes = [
        // Header
        0b0_00100_10,
        // L1
        0b10000011,
        // L2
        0b00000010,
        0b00000000,
        0b01000000,
        // L3,
        0b00000000,
        0b00010000,
        // L4
        0b00000001,
    ];
    assert_eq!(actual_bytes, expected_bytes);
}

#[test]
fn encode_bf32() {
    let actual_bytes = to_sparse_bit_set_with_bf::<32>(&set_of(&[2, 31, 323]));
    let expected_bytes = [
        0b0_00010_11,
        // node 0
        0b00000001,
        0b00000100,
        0b00000000,
        0b00000000,
        // node 1
        0b00000100,
        0b00000000,
        0b00000000,
        0b10000000,
        // node 2
        0b00001000,
        0b00000000,
        0b00000000,
        0b00000000,
    ];

    assert_eq!(actual_bytes, expected_bytes);
}

fn check_round_trip<const BF: u8>(s: &IntSet) {
    let bytes = to_sparse_bit_set_with_bf::<BF>(s);
    let s_prime = IntSet::from_sparse_bit_set(&bytes).unwrap();
    assert_eq!(*s, s_prime);
}

#[test]
fn round_trip() {
    let s1: IntSet = set_of(&[11, 74, 9358]);
    let mut s2: IntSet = s1.clone();
    s2.insert_range(67, 412);

    check_round_trip::<2>(&s1);
    check_round_trip::<4>(&s1);
    check_round_trip::<8>(&s1);
    check_round_trip::<32>(&s1);

    check_round_trip::<2>(&s2);
    check_round_trip::<4>(&s2);
    check_round_trip::<8>(&s2);
    check_round_trip::<32>(&s2);
}

#[test]
fn find_smallest_bf() {
    let s: IntSet = set_of(&[11, 74, 9358]);
    let bytes = s.to_sparse_bit_set();
    // BF4
    assert_eq!(vec![0b0_00111_01], bytes[0..1]);

    let s: IntSet = set_of(&[
        16, 0, 2, 4, 6, 8, 10, 12, 14, 16, 18, 20, 22, 24, 26, 28, 30,
    ]);
    let bytes = s.to_sparse_bit_set();
    // BF32
    assert_eq!(vec![0b0_00001_11], bytes[0..1]);
}

#[test]
fn encode_maxu32() {
    let s: IntSet = set_of(&[1, u32::MAX]);
    let bytes = s.to_sparse_bit_set();
    let s_prime = IntSet::from_sparse_bit_set(&bytes);
    assert_eq!(s, s_prime.unwrap());
}
