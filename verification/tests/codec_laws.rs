use font_toolkit::bit_stream::{InputBitStream, OutputBitStream};
use font_toolkit::branch_factor::BranchFactor;
use font_toolkit::int_set::IntSet;
use font_toolkit::sparse_bit_set::{
    is_encodable, to_sparse_bit_set_with, to_sparse_bit_set_with_bf,
};

const FACTORS: [BranchFactor; 4] = [
    BranchFactor::Two,
    BranchFactor::Four,
    BranchFactor::Eight,
    BranchFactor::ThirtyTwo,
];

fn sample_sets() -> Vec<IntSet> {
    let mut sets = vec![
        IntSet::empty(),
        IntSet::from_values(&[0]),
        IntSet::from_values(&[1]),
        IntSet::from_values(&[2, 33, 323]),
        IntSet::from_values(&[11, 74, 9358]),
        IntSet::from_values(&[0, 1, 2, 3, 4, 5, 6, 7, 9, 200, 201, 202, 1023, 1024]),
        IntSet::from_values(&[0x3fff_ffff, 0x4000_0000, 0x7fff_ffff]),
    ];
    let mut dense = IntSet::empty();
    dense.insert_range(0, 4095);
    sets.push(dense);
    let mut mixed = IntSet::empty();
    mixed.insert_range(64, 127);
    mixed.insert_range(512, 1023);
    mixed.insert_range(3000, 3017);
    mixed.insert(4000);
    sets.push(mixed);
    sets
}

fn can_encode(set: &IntSet, bf: BranchFactor) -> bool {
    match set.last() {
        None => true,
        Some(max) => bf.tree_height_for(max) <= 31,
    }
}

#[test]
fn round_trip_for_every_branch_factor() {
    for set in sample_sets() {
        for bf in FACTORS {
            if can_encode(&set, bf) {
                let bytes = to_sparse_bit_set_with(&set, bf);
                assert_eq!(IntSet::from_sparse_bit_set(&bytes).unwrap(), set);
            }
        }
        let bytes = set.to_sparse_bit_set();
        assert_eq!(IntSet::from_sparse_bit_set(&bytes).unwrap(), set);
    }
}

#[test]
fn smallest_is_no_longer_than_any_branch_factor() {
    for set in sample_sets() {
        let smallest = set.to_sparse_bit_set();
        let mut lengths = Vec::new();
        for bf in FACTORS {
            if can_encode(&set, bf) {
                let bytes = to_sparse_bit_set_with(&set, bf);
                assert!(smallest.len() <= bytes.len());
                lengths.push(bytes.len());
            }
        }
        assert!(lengths.contains(&smallest.len()));
    }
}

#[test]
fn smallest_takes_the_first_of_equal_length() {
    // With one member below 4 the streams of the branch factors 2 and 4 are
    // two bytes long; that of 2 comes first.
    let set = IntSet::from_values(&[3]);
    assert_eq!(set.to_sparse_bit_set(), vec![0b0_00010_00, 0b0000_1010]);
    assert_eq!(
        to_sparse_bit_set_with_bf::<4>(&set),
        vec![0b0_00001_01, 0b0000_1000]
    );
}

#[test]
fn tree_of_height_31_is_encoded() {
    // The greatest value for which branch factor 2 still fits the header.
    let set = IntSet::from_values(&[0x7fff_ffff]);
    let bytes = to_sparse_bit_set_with_bf::<2>(&set);
    assert_eq!(bytes[0], 0b0_11111_00);
    // 31 words of two bits.
    assert_eq!(bytes.len(), 1 + 8);
    assert_eq!(IntSet::from_sparse_bit_set(&bytes).unwrap(), set);
    assert_eq!(set.to_sparse_bit_set(), bytes);
}

#[test]
fn filled_range_is_one_zero_word() {
    // 64 values from a multiple of 64 on: one node of the second level from
    // below.
    let mut set = IntSet::empty();
    set.insert_range(128, 191);
    let bytes = to_sparse_bit_set_with_bf::<8>(&set);
    // Height 3: the root with its third child, and the zero word of that
    // child. No word of the lowest level follows.
    assert_eq!(bytes, vec![0b0_00011_10, 0b0000_0100, 0b0000_0000]);

    // 16 values from a multiple of 16 on, branch factor 4.
    let mut set = IntSet::empty();
    set.insert_range(16, 31);
    let bytes = to_sparse_bit_set_with_bf::<4>(&set);
    assert_eq!(bytes, vec![0b0_00011_01, 0b0000_0010]);

    // A root that is full.
    let mut set = IntSet::empty();
    set.insert_range(0, 1023);
    assert_eq!(
        to_sparse_bit_set_with_bf::<32>(&set),
        vec![0b0_00010_11, 0, 0, 0, 0]
    );
}

#[test]
fn empty_set_is_one_byte() {
    let empty = IntSet::empty();
    assert_eq!(empty.to_sparse_bit_set(), vec![0b0_00000_00]);
    assert_eq!(to_sparse_bit_set_with_bf::<2>(&empty), vec![0b0_00000_00]);
    assert_eq!(to_sparse_bit_set_with_bf::<4>(&empty), vec![0b0_00000_01]);
    assert_eq!(to_sparse_bit_set_with_bf::<8>(&empty), vec![0b0_00000_10]);
    assert_eq!(to_sparse_bit_set_with_bf::<32>(&empty), vec![0b0_00000_11]);
    for code in 0..4u8 {
        assert_eq!(IntSet::from_sparse_bit_set(&[code]).unwrap(), empty);
    }
}

#[test]
fn truncated_stream_is_refused() {
    for set in sample_sets() {
        for bf in FACTORS {
            if can_encode(&set, bf) {
                let bytes = to_sparse_bit_set_with(&set, bf);
                for len in 0..bytes.len() {
                    assert!(IntSet::from_sparse_bit_set(&bytes[..len]).is_err());
                }
            }
        }
    }
}

#[test]
fn decoding_error_in_words() {
    let error = IntSet::from_sparse_bit_set(&[]).err().unwrap();
    assert_eq!(
        error.message(),
        "The input data stream was too short to be a valid sparse bit set."
    );
}

#[test]
fn bytes_behind_the_stream_are_not_read() {
    let bytes = [0b0_00001_10, 0b01000100, 0xff, 0xff];
    assert_eq!(
        IntSet::from_sparse_bit_set(&bytes).unwrap(),
        IntSet::from_values(&[2, 6])
    );
}

#[test]
fn values_beyond_32_bits_are_left_out() {
    // Branch factor 8, height 11: the tree covers 2^33 values. The root
    // names its first child and its fifth, which begins at 2^32.
    let mut bytes = vec![0b0_01011_10, 0b0001_0001];
    // Ten more levels below each of the two children, always the first
    // child.
    for _ in 0..10 {
        bytes.push(1);
        bytes.push(1);
    }
    assert_eq!(
        IntSet::from_sparse_bit_set(&bytes).unwrap(),
        IntSet::from_values(&[0])
    );
    // A zero word for the root stands for all values of the tree, of which
    // the set keeps those of 32 bits.
    assert_eq!(
        IntSet::from_sparse_bit_set(&[0b0_01011_10, 0]).unwrap(),
        IntSet::all()
    );
    // The same with the greatest height and branch factor.
    assert_eq!(
        IntSet::from_sparse_bit_set(&[0b0_11111_11, 0, 0, 0, 0]).unwrap(),
        IntSet::all()
    );
}

#[test]
fn branch_factor_values() {
    let expected = [(2, 1, 0x3, 0x3), (4, 2, 0xf, 0xf), (8, 3, 0xff, 0xff), (32, 5, 0xff, 0xffff_ffff)];
    for (bf, (value, log2, byte_mask, u32_mask)) in FACTORS.iter().zip(expected) {
        assert_eq!(bf.value(), value);
        assert_eq!(bf.node_size_log2(), log2);
        assert_eq!(bf.byte_mask(), byte_mask);
        assert_eq!(bf.u32_mask(), u32_mask);
        assert_eq!(BranchFactor::from_val(value as u8), *bf);
    }
    assert_eq!(BranchFactor::Two.tree_height_for(u32::MAX), 32);
    assert_eq!(BranchFactor::Four.tree_height_for(u32::MAX), 16);
    assert_eq!(BranchFactor::Eight.tree_height_for(u32::MAX), 11);
    assert_eq!(BranchFactor::ThirtyTwo.tree_height_for(u32::MAX), 7);
}

#[test]
fn bit_streams_write_and_read_words() {
    let words: [u32; 5] = [1, 2, 3, 0, 0xffff_ffff];
    for bf in FACTORS {
        let mut out = OutputBitStream::new(bf, 5);
        for w in words {
            out.write_node(w);
        }
        let bytes = out.into_bytes();
        assert_eq!(InputBitStream::decode_header(&bytes), Some((bf, 5)));
        let mut input = InputBitStream::from(&bytes, bf);
        for w in words {
            assert_eq!(input.next(), Some(w & bf.u32_mask()));
        }
    }
    // Two-bit words fill a byte from its lowest bits up.
    let mut out = OutputBitStream::new(BranchFactor::Two, 1);
    out.write_node(0b01);
    out.write_node(0b10);
    out.write_node(0b11);
    assert_eq!(out.into_bytes(), vec![0b0_00001_00, 0b0011_1001]);
    // A 32-bit word takes four bytes, the lowest first.
    let mut out = OutputBitStream::new(BranchFactor::ThirtyTwo, 31);
    out.write_node(0x0403_0201);
    assert_eq!(out.into_bytes(), vec![0b0_11111_11, 1, 2, 3, 4]);
    assert_eq!(InputBitStream::decode_header(&[]), None);
    let mut input = InputBitStream::from(&[0u8, 1, 2, 3], BranchFactor::ThirtyTwo);
    assert_eq!(input.next(), None);
}

#[test]
fn which_sets_a_branch_factor_can_encode() {
    // Two children per node reach 2^31 - 1 within 31 levels, and no more.
    let low = IntSet::from_values(&[5, 0x7fff_ffff]);
    let high = IntSet::from_values(&[5, 0x8000_0000]);
    assert!(is_encodable(&low, BranchFactor::Two));
    assert!(!is_encodable(&high, BranchFactor::Two));
    for bf in [BranchFactor::Four, BranchFactor::Eight, BranchFactor::ThirtyTwo] {
        assert!(is_encodable(&high, bf));
        assert!(is_encodable(&IntSet::from_values(&[u32::MAX]), bf));
    }
    for bf in FACTORS {
        assert!(is_encodable(&IntSet::empty(), bf));
        for set in sample_sets() {
            assert_eq!(is_encodable(&set, bf), can_encode(&set, bf));
        }
    }
}

#[test]
fn large_sets_round_trip() {
    let mut state: u64 = 0x9e37_79b9_7f4a_7c15;
    let mut step = move || {
        state ^= state << 13;
        state ^= state >> 7;
        state ^= state << 17;
        state
    };
    for (count, spread) in [(20_000u32, 1u64 << 20), (5_000, 1 << 32), (30_000, 40_000)] {
        let mut values = Vec::new();
        for _ in 0..count {
            values.push((step() % spread) as u32);
        }
        let set = IntSet::from_values(&values);
        for bf in FACTORS {
            if is_encodable(&set, bf) {
                let bytes = to_sparse_bit_set_with(&set, bf);
                assert_eq!(IntSet::from_sparse_bit_set(&bytes).unwrap(), set);
                assert!(set.to_sparse_bit_set().len() <= bytes.len());
            }
        }
        for v in &values {
            assert!(set.contains(*v));
        }
    }
}
