use rpeg::codec::{compress_blocks, decompress_blocks, get_index, pack_block, unpack_block, QuantizedBlock};

#[test]
fn get_index_in_and_out() {
    assert_eq!(get_index(2, 1, 4, 3), Some(6));
    assert_eq!(get_index(4, 1, 4, 3), None);
    assert_eq!(get_index(0, 3, 4, 3), None);
    assert_eq!(get_index(0, 0, 0, 0), None);
}

#[test]
fn pack_block_matches_bitpack_word() {
    let q = QuantizedBlock { a: 133, b: -1, c: -1, d: 0, index_pb: 2, index_pr: 3 };
    assert_eq!(pack_block(&q), Some(1124065315));
    assert_eq!(unpack_block(1124065315), q);
}

#[test]
fn pack_block_refuses_values_too_wide() {
    let q = QuantizedBlock { a: 512, b: 0, c: 0, d: 0, index_pb: 0, index_pr: 0 };
    assert_eq!(pack_block(&q), None);
    let q = QuantizedBlock { a: 0, b: 16, c: 0, d: 0, index_pb: 0, index_pr: 0 };
    assert_eq!(pack_block(&q), None);
    let q = QuantizedBlock { a: 0, b: 0, c: -17, d: 0, index_pb: 0, index_pr: 0 };
    assert_eq!(pack_block(&q), None);
    let q = QuantizedBlock { a: 0, b: 0, c: 0, d: 0, index_pb: 16, index_pr: 0 };
    assert_eq!(pack_block(&q), None);
}

#[test]
fn pack_and_unpack_are_inverse() {
    let q = QuantizedBlock { a: 511, b: -16, c: 15, d: 7, index_pb: 15, index_pr: 0 };
    let w = pack_block(&q).unwrap();
    assert_eq!(unpack_block(w), q);
    for w in [0u32, 1, 0xdead_beef, u32::MAX, 0x8000_0000] {
        assert_eq!(pack_block(&unpack_block(w)), Some(w));
    }
}

#[test]
fn compress_blocks_of_even_image() {
    let b = compress_blocks(4, 4);
    assert_eq!(b, vec![[0, 1, 4, 5], [2, 3, 6, 7], [8, 9, 12, 13], [10, 11, 14, 15]]);
}

#[test]
fn compress_blocks_trims_odd_sides() {
    let b = compress_blocks(5, 3);
    assert_eq!(b, vec![[0, 1, 4, 5], [2, 3, 6, 7]]);
    assert!(compress_blocks(1, 9).is_empty());
}

#[test]
fn decompress_blocks_follow_compress_order() {
    assert_eq!(decompress_blocks(4, 4, 4), Some(compress_blocks(4, 4)));
    assert_eq!(decompress_blocks(6, 2, 3), Some(compress_blocks(6, 2)));
}

#[test]
fn decompress_blocks_stay_on_last_row() {
    let b = decompress_blocks(4, 2, 3).unwrap();
    assert_eq!(b, vec![[0, 1, 4, 5], [2, 3, 6, 7], [0, 1, 4, 5]]);
}

#[test]
fn decompress_blocks_refuse_leaving_the_image() {
    assert_eq!(decompress_blocks(3, 2, 2), None);
    assert_eq!(decompress_blocks(4, 1, 1), None);
    assert_eq!(decompress_blocks(4, 3, 3), None);
    assert_eq!(decompress_blocks(0, 0, 0), Some(vec![]));
}
