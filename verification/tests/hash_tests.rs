use img_hash_core::alg::{next_multiple_of_2, next_multiple_of_4, HashAlg, HashCtxt};
use img_hash_core::bits::{BitOrder, BitSet};
use img_hash_core::blockhash::{blockhash_bits, Image};
use img_hash_core::luma::{
    double_gradient_hash, gradient_hash, gradient_hash_impl, mean_hash_u8, median_hash_u8,
    median_u8, vert_gradient_hash,
};

fn bools(bits: &[u8]) -> Vec<bool> {
    bits.iter().map(|&b| b != 0).collect()
}

#[test]
fn mean_hash_scenario() {
    // 8 samples, mean = 360 / 8 = 45: four below, four at or above
    let buf: Vec<u8> = vec![10, 20, 30, 40, 50, 60, 70, 80];
    let r = mean_hash_u8(&buf);
    assert_eq!(r, bools(&[0, 0, 0, 0, 1, 1, 1, 1]));
    let lsb = BitSet::from_bools(&r, BitOrder::LsbFirst);
    assert_eq!(lsb.bytes, vec![0xF0]);
    assert_eq!(lsb.bit_len, 8);
    let msb = BitSet::from_bools(&r, BitOrder::MsbFirst);
    assert_eq!(msb.bytes, vec![0x0F]);
}

#[test]
fn mean_hash_all_equal() {
    let buf: Vec<u8> = vec![7, 7, 7];
    assert_eq!(mean_hash_u8(&buf), vec![true, true, true]);
}

#[test]
fn gradient_scenario() {
    // strictly increasing row of 8: all 7 comparisons are true
    let buf: Vec<u8> = vec![10, 20, 30, 40, 50, 60, 70, 80];
    let r = gradient_hash(&buf, 8);
    assert_eq!(r, vec![true; 7]);
}

#[test]
fn gradient_hash_impl_row() {
    let row: Vec<u8> = vec![1, 3, 2];
    assert_eq!(gradient_hash_impl(&row), vec![true, false]);
    let empty: Vec<u8> = Vec::new();
    assert_eq!(gradient_hash_impl(&empty), Vec::<bool>::new());
}

#[test]
fn median_even_scenario() {
    // median of [1,2,3,4] is (2+3)/2 = 2, integer-truncated; under `>=`
    // the lower middle sample 2 itself passes that threshold
    let buf: Vec<u8> = vec![1, 2, 3, 4];
    assert_eq!(median_u8(&buf), 2);
    assert_eq!(median_hash_u8(&buf), bools(&[0, 1, 1, 1]));
}

#[test]
fn median_odd() {
    let buf: Vec<u8> = vec![5, 1, 3];
    assert_eq!(median_u8(&buf), 3);
    assert_eq!(median_hash_u8(&buf), vec![true, false, true]);
}

#[test]
fn pack_roundtrip_lsb() {
    // length deliberately not a multiple of 8
    let r = bools(&[1, 0, 1, 1, 0, 0, 1, 0, 1, 1, 0]);
    let packed = BitSet::from_bools(&r, BitOrder::LsbFirst);
    assert_eq!(packed.bit_len, 11);
    assert_eq!(packed.bytes.len(), 2);
    assert_eq!(packed.to_bools(BitOrder::LsbFirst), r);
}

#[test]
fn pack_roundtrip_msb() {
    let r = bools(&[1, 0, 1, 1, 0, 0, 1, 0, 1, 1, 0]);
    let packed = BitSet::from_bools(&r, BitOrder::MsbFirst);
    assert_eq!(packed.bit_len, 11);
    assert_eq!(packed.to_bools(BitOrder::MsbFirst), r);
}

#[test]
fn pack_single_bit() {
    // one true boolean: 0x01 under LsbFirst, 0x80 under MsbFirst
    let r = vec![true];
    assert_eq!(BitSet::from_bools(&r, BitOrder::LsbFirst).bytes, vec![0x01]);
    assert_eq!(BitSet::from_bools(&r, BitOrder::MsbFirst).bytes, vec![0x80]);
}

#[test]
fn double_gradient_is_concatenation() {
    let buf: Vec<u8> = vec![9, 2, 7, 4, 8, 1, 6, 3, 5, 0, 11, 13, 12, 10, 15, 14];
    let mut expected = gradient_hash(&buf, 4);
    expected.extend(vert_gradient_hash(&buf, 4));
    assert_eq!(double_gradient_hash(&buf, 4), expected);
}

#[test]
fn vert_gradient_columns() {
    // 2x2 buffer: both columns increase downward
    let buf: Vec<u8> = vec![1, 2, 3, 4];
    assert_eq!(vert_gradient_hash(&buf, 2), vec![true, true]);
    assert_eq!(gradient_hash(&buf, 2), vec![true, true]);
}

#[test]
fn gradient_shift_invariance() {
    let a: Vec<u8> = vec![30, 10, 20, 40, 25, 35, 15, 5, 45];
    let b: Vec<u8> = a.iter().map(|&x| x + 100).collect();
    assert_eq!(gradient_hash(&a, 3), gradient_hash(&b, 3));
    assert_eq!(vert_gradient_hash(&a, 3), vert_gradient_hash(&b, 3));
    assert_eq!(double_gradient_hash(&a, 3), double_gradient_hash(&b, 3));
}

#[test]
fn threshold_reorder_invariance() {
    // same samples in another order: same mean and median threshold
    let a: Vec<u8> = vec![10, 20, 30, 40];
    let b: Vec<u8> = vec![40, 30, 20, 10];
    assert_eq!(median_u8(&a), median_u8(&b));
    assert_eq!(mean_hash_u8(&a), bools(&[0, 0, 1, 1]));
    assert_eq!(mean_hash_u8(&b), bools(&[1, 1, 0, 0]));
}

#[test]
fn threshold_crossing_sensitivity() {
    // moving one sample across the mean flips bits
    let a: Vec<u8> = vec![10, 20, 30, 40];
    let c: Vec<u8> = vec![10, 20, 20, 40];
    // mean of a is 25, mean of c is 22
    assert_eq!(mean_hash_u8(&a), bools(&[0, 0, 1, 1]));
    assert_eq!(mean_hash_u8(&c), bools(&[0, 0, 0, 1]));
}

fn gray(width: u32, height: u32, pixels: Vec<u8>) -> Image {
    assert_eq!(pixels.len(), (width * height) as usize);
    Image { width, height, pixels }
}

fn ctxt(width: u32, height: u32, bit_order: BitOrder) -> HashCtxt {
    HashCtxt { width, height, bit_order }
}

#[test]
fn hash_image_bit_counts() {
    let c = ctxt(4, 4, BitOrder::LsbFirst);
    let samples16: Vec<u8> = (0u8..16).collect();
    let samples20: Vec<u8> = (0u8..20).collect();
    let samples9: Vec<u8> = (0u8..9).collect();
    // Mean and Median read a buffer at the hash dimensions
    assert_eq!(HashAlg::Mean.hash_image(&c, &gray(4, 4, samples16.clone())).bit_len, 16);
    assert_eq!(HashAlg::Median.hash_image(&c, &gray(4, 4, samples16.clone())).bit_len, 16);
    // Gradient resizes to (w+1) x h, VertGradient to w x (h+1)
    assert_eq!(HashAlg::Gradient.hash_image(&c, &gray(5, 4, samples20.clone())).bit_len, 16);
    assert_eq!(HashAlg::VertGradient.hash_image(&c, &gray(4, 5, samples20)).bit_len, 16);
    // DoubleGradient resizes to (w/2+1) x (h/2+1): 3 x 3 here, 6 + 6 bits
    assert_eq!(HashAlg::DoubleGradient.hash_image(&c, &gray(3, 3, samples9)).bit_len, 12);
    // Blockhash reads raw pixels and emits one bit per block
    let raw: Vec<u8> = (0u8..64).collect();
    assert_eq!(HashAlg::Blockhash.hash_image(&c, &gray(8, 8, raw)).bit_len, 16);
}

#[test]
fn hash_image_msb_matches_lsb_bools() {
    // the two bit orders pack the same boolean sequence
    let samples: Vec<u8> = vec![10, 20, 30, 40, 50, 60, 70, 80, 5, 15, 25, 35, 45, 55, 65, 75];
    let lsb = HashAlg::Mean.hash_image(&ctxt(4, 4, BitOrder::LsbFirst), &gray(4, 4, samples.clone()));
    let msb = HashAlg::Mean.hash_image(&ctxt(4, 4, BitOrder::MsbFirst), &gray(4, 4, samples.clone()));
    assert_eq!(lsb.to_bools(BitOrder::LsbFirst), msb.to_bools(BitOrder::MsbFirst));
    assert_eq!(lsb.to_bools(BitOrder::LsbFirst), mean_hash_u8(&samples));
}

#[test]
fn blockhash_uniform_image() {
    // a uniform image thresholds every block alike: all bits set
    let img = gray(8, 12, vec![77; 96]);
    let r = blockhash_bits(&img, 4, 4);
    assert_eq!(r, vec![true; 16]);
    let packed = HashAlg::Blockhash.hash_image(&ctxt(4, 4, BitOrder::LsbFirst), &img);
    assert_eq!(packed.bytes, vec![0xFF, 0xFF]);
}

#[test]
fn blockhash_blocks() {
    // four 2x2 blocks with averages 10, 50, 100, 200; median = 75
    let img = gray(
        4,
        4,
        vec![10, 10, 50, 50, 10, 10, 50, 50, 100, 100, 200, 200, 100, 100, 200, 200],
    );
    assert_eq!(blockhash_bits(&img, 2, 2), vec![false, false, true, true]);
}

#[test]
fn round_hash_size_rules() {
    assert_eq!(HashAlg::DoubleGradient.round_hash_size(3, 5), (4, 6));
    assert_eq!(HashAlg::DoubleGradient.round_hash_size(4, 6), (4, 6));
    assert_eq!(HashAlg::Blockhash.round_hash_size(5, 9), (8, 12));
    assert_eq!(HashAlg::Blockhash.round_hash_size(8, 12), (8, 12));
    assert_eq!(HashAlg::Mean.round_hash_size(7, 7), (7, 7));
    assert_eq!(HashAlg::Gradient.round_hash_size(7, 7), (7, 7));
}

#[test]
fn resize_dimensions_rules() {
    assert_eq!(HashAlg::Mean.resize_dimensions(8, 8), (8, 8));
    assert_eq!(HashAlg::Median.resize_dimensions(8, 8), (8, 8));
    assert_eq!(HashAlg::Gradient.resize_dimensions(8, 8), (9, 8));
    assert_eq!(HashAlg::VertGradient.resize_dimensions(8, 8), (8, 9));
    assert_eq!(HashAlg::DoubleGradient.resize_dimensions(8, 8), (5, 5));
}

#[test]
fn next_multiples() {
    assert_eq!(next_multiple_of_2(0), 0);
    assert_eq!(next_multiple_of_2(1), 2);
    assert_eq!(next_multiple_of_2(2), 2);
    assert_eq!(next_multiple_of_4(0), 0);
    assert_eq!(next_multiple_of_4(1), 4);
    assert_eq!(next_multiple_of_4(4), 4);
    assert_eq!(next_multiple_of_4(5), 8);
}

#[test]
fn bitset_accessors() {
    let r = vec![true, false, true];
    let packed = BitSet::from_bools(&r, BitOrder::LsbFirst);
    assert_eq!(packed.bit_len(), 3);
    assert_eq!(packed.as_bytes(), &vec![0x05]);
}
