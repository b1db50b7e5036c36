//! The integer side of the rpeg codec: where each 2x2 block of pixels lives
//! in an image, and how a block's quantized values are packed into a 32-bit
//! code word.
//!
//! A code word holds, from its most significant bit down:
//! `a` (9 unsigned bits at 23), `b`, `c`, `d` (5 signed bits each at 18, 13
//! and 8), the chroma index of Pb (4 unsigned bits at 4) and that of Pr
//! (4 unsigned bits at 0).

use vstd::prelude::*;

verus! {

use vstd::arithmetic::power2::pow2;
use crate::bitpack::{
    fits_signed, fits_unsigned, field_bits, signed_field, with_field, newu, news, getu, gets,
    lemma_with_field, law_getu_newu, law_gets_news, law_disjoint_fields, law_fields_fit,
};

/// Position of the pixel `(c, r)` in the row-major pixel vector of an image
/// `width` pixels wide, or `None` when the pixel is outside the
/// `width` by `height` image.
pub fn get_index(c: usize, r: usize, width: usize, height: usize) -> (index: Option<usize>)
    requires
        c < width && r < height ==> r * width + c <= usize::MAX,
    ensures
        index is Some <==> c < width && r < height,
        index matches Some(i) ==> i == r * width + c,
{
    if c < width && r < height {
        proof {
            assert(r * width <= r * width + c);
        }
        Some(r * width + c)
    } else {
        None
    }
}

/// The six quantized values of a 2x2 block: the cosine coefficients `a`,
/// `b`, `c`, `d` of its luma and the chroma indices of its average Pb and Pr.
#[derive(Clone, Copy, Debug, PartialEq, Eq, Structural)]
pub struct QuantizedBlock {
    pub a: u64,
    pub b: i64,
    pub c: i64,
    pub d: i64,
    pub index_pb: u64,
    pub index_pr: u64,
}

/// Each value of the block fits in its field of the code word.
pub open spec fn block_fits(q: QuantizedBlock) -> bool {
    &&& fits_unsigned(q.a as int, 9)
    &&& fits_signed(q.b as int, 5)
    &&& fits_signed(q.c as int, 5)
    &&& fits_signed(q.d as int, 5)
    &&& fits_unsigned(q.index_pb as int, 4)
    &&& fits_unsigned(q.index_pr as int, 4)
}

/// The code word of a block: each value, in two's complement where signed,
/// shifted to its field.
pub open spec fn code_word(q: QuantizedBlock) -> int {
    q.a * 0x80_0000 + (q.b as int % 32) * 0x4_0000 + (q.c as int % 32) * 0x2000 + (q.d as int % 32)
        * 0x100 + q.index_pb * 0x10 + q.index_pr
}

/// The block that a code word holds.
pub open spec fn block_of_word(word: u32) -> QuantizedBlock {
    QuantizedBlock {
        a: field_bits(word as u64, 9, 23) as u64,
        b: signed_field(word as u64, 5, 18) as i64,
        c: signed_field(word as u64, 5, 13) as i64,
        d: signed_field(word as u64, 5, 8) as i64,
        index_pb: field_bits(word as u64, 4, 4) as u64,
        index_pr: field_bits(word as u64, 4, 0) as u64,
    }
}

/// Writing a field above every set bit of `word` adds the field's value.
proof fn lemma_append_field(word: u64, width: nat, lsb: nat, bits: nat)
    requires
        word < pow2(lsb),
        bits < pow2(width),
    ensures
        with_field(word, width, lsb, bits) == word + bits * pow2(lsb),
{
    vstd::arithmetic::power2::lemma_pow2_pos(lsb);
    vstd::arithmetic::power2::lemma_pow2_pos(width);
    vstd::arithmetic::power2::lemma_pow2_adds(lsb, width);
    assert(pow2(lsb) <= pow2(lsb) * pow2(width)) by (nonlinear_arith)
        requires
            0 < pow2(width),
    ;
    vstd::arithmetic::div_mod::lemma_fundamental_div_mod_converse(
        word as int,
        pow2(lsb + width) as int,
        0,
        word as int,
    );
    vstd::arithmetic::div_mod::lemma_fundamental_div_mod_converse(
        word as int,
        pow2(lsb) as int,
        0,
        word as int,
    );
}

/// Every 32-bit word is the code word of the block it holds: unpacking a
/// word and packing the result gives the word back.
pub proof fn law_pack_of_unpack(word: u32)
    ensures
        block_fits(block_of_word(word)),
        code_word(block_of_word(word)) == word,
{
    let w = word as u64;
    let x = word as int;
    vstd::arithmetic::power2::lemma2_to64();
    law_fields_fit(w, 9, 23);
    law_fields_fit(w, 5, 18);
    law_fields_fit(w, 5, 13);
    law_fields_fit(w, 5, 8);
    law_fields_fit(w, 4, 4);
    law_fields_fit(w, 4, 0);
    vstd::arithmetic::div_mod::lemma_mod_breakdown(x, 0x80_0000, 0x200);
    vstd::arithmetic::div_mod::lemma_mod_breakdown(x, 0x4_0000, 0x20);
    vstd::arithmetic::div_mod::lemma_mod_breakdown(x, 0x2000, 0x20);
    vstd::arithmetic::div_mod::lemma_mod_breakdown(x, 0x100, 0x20);
    vstd::arithmetic::div_mod::lemma_mod_breakdown(x, 0x10, 0x10);
    vstd::arithmetic::div_mod::lemma_mod_breakdown(x, 0x1, 0x10);
    vstd::arithmetic::div_mod::lemma_small_mod(x as nat, 0x1_0000_0000);
    let q = block_of_word(word);
    let fb = field_bits(w, 5, 18) as int;
    let fc = field_bits(w, 5, 13) as int;
    let fd = field_bits(w, 5, 8) as int;
    vstd::arithmetic::div_mod::lemma_fundamental_div_mod_converse(q.b as int, 32, if fb >= 16 { -1 } else { 0 }, fb);
    vstd::arithmetic::div_mod::lemma_fundamental_div_mod_converse(q.c as int, 32, if fc >= 16 { -1 } else { 0 }, fc);
    vstd::arithmetic::div_mod::lemma_fundamental_div_mod_converse(q.d as int, 32, if fd >= 16 { -1 } else { 0 }, fd);
}

/// Unpacking the code word of a block whose values fit gives back the
/// block.
pub proof fn law_unpack_of_pack(q: QuantizedBlock)
    requires
        block_fits(q),
    ensures
        0 <= code_word(q) < 0x1_0000_0000,
        block_of_word(code_word(q) as u32) == q,
{
    vstd::arithmetic::power2::lemma2_to64();
    let bb = (q.b as int % 32) as nat;
    let cc = (q.c as int % 32) as nat;
    let dd = (q.d as int % 32) as nat;
    vstd::arithmetic::div_mod::lemma_mod_bound(q.b as int, 32);
    vstd::arithmetic::div_mod::lemma_mod_bound(q.c as int, 32);
    vstd::arithmetic::div_mod::lemma_mod_bound(q.d as int, 32);
    let w0: u64 = 0;
    lemma_append_field(w0, 4, 0, q.index_pr as nat);
    lemma_with_field(w0, 4, 0, q.index_pr as nat);
    let w1 = with_field(w0, 4, 0, q.index_pr as nat) as u64;
    lemma_append_field(w1, 4, 4, q.index_pb as nat);
    lemma_with_field(w1, 4, 4, q.index_pb as nat);
    let w2 = with_field(w1, 4, 4, q.index_pb as nat) as u64;
    lemma_append_field(w2, 5, 8, dd);
    lemma_with_field(w2, 5, 8, dd);
    let w3 = with_field(w2, 5, 8, dd) as u64;
    lemma_append_field(w3, 5, 13, cc);
    lemma_with_field(w3, 5, 13, cc);
    let w4 = with_field(w3, 5, 13, cc) as u64;
    lemma_append_field(w4, 5, 18, bb);
    lemma_with_field(w4, 5, 18, bb);
    let w5 = with_field(w4, 5, 18, bb) as u64;
    lemma_append_field(w5, 9, 23, q.a as nat);
    lemma_with_field(w5, 9, 23, q.a as nat);
    let w6 = with_field(w5, 9, 23, q.a as nat) as u64;
    assert(w6 == code_word(q));
    assert((code_word(q) as u32) as u64 == w6);
    // a
    law_getu_newu(w5, 9, 23, q.a as nat);
    // b
    law_disjoint_fields(w5, 9, 23, q.a as nat, 5, 18);
    law_gets_news(w4, 5, 18, q.b as int);
    // c
    law_disjoint_fields(w5, 9, 23, q.a as nat, 5, 13);
    law_disjoint_fields(w4, 5, 18, bb, 5, 13);
    law_gets_news(w3, 5, 13, q.c as int);
    // d
    law_disjoint_fields(w5, 9, 23, q.a as nat, 5, 8);
    law_disjoint_fields(w4, 5, 18, bb, 5, 8);
    law_disjoint_fields(w3, 5, 13, cc, 5, 8);
    law_gets_news(w2, 5, 8, q.d as int);
    // Pb
    law_disjoint_fields(w5, 9, 23, q.a as nat, 4, 4);
    law_disjoint_fields(w4, 5, 18, bb, 4, 4);
    law_disjoint_fields(w3, 5, 13, cc, 4, 4);
    law_disjoint_fields(w2, 5, 8, dd, 4, 4);
    law_getu_newu(w1, 4, 4, q.index_pb as nat);
    // Pr
    law_disjoint_fields(w5, 9, 23, q.a as nat, 4, 0);
    law_disjoint_fields(w4, 5, 18, bb, 4, 0);
    law_disjoint_fields(w3, 5, 13, cc, 4, 0);
    law_disjoint_fields(w2, 5, 8, dd, 4, 0);
    law_disjoint_fields(w1, 4, 4, q.index_pb as nat, 4, 0);
    law_getu_newu(w0, 4, 0, q.index_pr as nat);
}

/// In the code word of a block whose values fit, `a` is the 9 bits at 23,
/// `b`, `c` and `d` are the 5 bits at 18, 13 and 8 (in two's complement), and
/// the chroma indices of Pb and Pr are the 4 bits at 4 and at 0.
pub proof fn law_code_word_fields(q: QuantizedBlock)
    requires
        block_fits(q),
    ensures
        0 <= code_word(q) < 0x1_0000_0000,
        field_bits(code_word(q) as u64, 9, 23) == q.a,
        field_bits(code_word(q) as u64, 5, 18) == q.b as int % 32,
        field_bits(code_word(q) as u64, 5, 13) == q.c as int % 32,
        field_bits(code_word(q) as u64, 5, 8) == q.d as int % 32,
        field_bits(code_word(q) as u64, 4, 4) == q.index_pb,
        field_bits(code_word(q) as u64, 4, 0) == q.index_pr,
        signed_field(code_word(q) as u64, 5, 18) == q.b,
        signed_field(code_word(q) as u64, 5, 13) == q.c,
        signed_field(code_word(q) as u64, 5, 8) == q.d,
{
    law_unpack_of_pack(q);
    let w = code_word(q) as u32;
    assert((w as u64) == (code_word(q) as u64));
    law_fields_fit(w as u64, 5, 18);
    law_fields_fit(w as u64, 5, 13);
    law_fields_fit(w as u64, 5, 8);
    vstd::arithmetic::power2::lemma2_to64();
    let fb = field_bits(w as u64, 5, 18) as int;
    let fc = field_bits(w as u64, 5, 13) as int;
    let fd = field_bits(w as u64, 5, 8) as int;
    vstd::arithmetic::div_mod::lemma_fundamental_div_mod_converse(q.b as int, 32, if fb >= 16 { -1 } else { 0 }, fb);
    vstd::arithmetic::div_mod::lemma_fundamental_div_mod_converse(q.c as int, 32, if fc >= 16 { -1 } else { 0 }, fc);
    vstd::arithmetic::div_mod::lemma_fundamental_div_mod_converse(q.d as int, 32, if fd >= 16 { -1 } else { 0 }, fd);
}

/// Packs the quantized values of a block into its 32-bit code word, or
/// `None` when one of them does not fit in its field.
pub fn pack_block(q: &QuantizedBlock) -> (word: Option<u32>)
    ensures
        word is Some <==> block_fits(*q),
        word matches Some(w) ==> w == code_word(*q),
        word matches Some(w) ==> {
            &&& field_bits(w as u64, 9, 23) == q.a
            &&& field_bits(w as u64, 5, 18) == q.b as int % 32
            &&& field_bits(w as u64, 5, 13) == q.c as int % 32
            &&& field_bits(w as u64, 5, 8) == q.d as int % 32
            &&& field_bits(w as u64, 4, 4) == q.index_pb
            &&& field_bits(w as u64, 4, 0) == q.index_pr
            &&& signed_field(w as u64, 5, 18) == q.b
            &&& signed_field(w as u64, 5, 13) == q.c
            &&& signed_field(w as u64, 5, 8) == q.d
        },
{
    proof {
        vstd::arithmetic::power2::lemma2_to64();
    }
    let w0: u64 = 0;
    let w1 = match newu(w0, 4, 0, q.index_pr) {
        Some(w) => w,
        None => return None,
    };
    proof {
        lemma_append_field(w0, 4, 0, q.index_pr as nat);
    }
    let w2 = match newu(w1, 4, 4, q.index_pb) {
        Some(w) => w,
        None => return None,
    };
    proof {
        lemma_append_field(w1, 4, 4, q.index_pb as nat);
    }
    let w3 = match news(w2, 5, 8, q.d) {
        Some(w) => w,
        None => return None,
    };
    proof {
        vstd::arithmetic::div_mod::lemma_mod_bound(q.d as int, 32);
        lemma_append_field(w2, 5, 8, (q.d as int % 32) as nat);
    }
    let w4 = match news(w3, 5, 13, q.c) {
        Some(w) => w,
        None => return None,
    };
    proof {
        vstd::arithmetic::div_mod::lemma_mod_bound(q.c as int, 32);
        lemma_append_field(w3, 5, 13, (q.c as int % 32) as nat);
    }
    let w5 = match news(w4, 5, 18, q.b) {
        Some(w) => w,
        None => return None,
    };
    proof {
        vstd::arithmetic::div_mod::lemma_mod_bound(q.b as int, 32);
        lemma_append_field(w4, 5, 18, (q.b as int % 32) as nat);
    }
    let w6 = match newu(w5, 9, 23, q.a) {
        Some(w) => w,
        None => return None,
    };
    proof {
        lemma_append_field(w5, 9, 23, q.a as nat);
        law_code_word_fields(*q);
    }
    Some(w6 as u32)
}

/// Unpacks the quantized values of a block from its 32-bit code word.
pub fn unpack_block(word: u32) -> (q: QuantizedBlock)
    ensures
        q == block_of_word(word),
        q.a == field_bits(word as u64, 9, 23),
        q.b == signed_field(word as u64, 5, 18),
        q.c == signed_field(word as u64, 5, 13),
        q.d == signed_field(word as u64, 5, 8),
        q.index_pb == field_bits(word as u64, 4, 4),
        q.index_pr == field_bits(word as u64, 4, 0),
{
    let w = word as u64;
    QuantizedBlock {
        a: getu(w, 9, 23),
        b: gets(w, 5, 18),
        c: gets(w, 5, 13),
        d: gets(w, 5, 8),
        index_pb: getu(w, 4, 4),
        index_pr: getu(w, 4, 0),
    }
}

/// `n` rounded down to an even number.
pub open spec fn even_part(n: int) -> int {
    n - n % 2
}

/// The row-major positions, in an image `stride` pixels wide, of the four
/// pixels of the 2x2 block whose top-left pixel is `(col, row)`: top-left,
/// top-right, bottom-left, bottom-right.
pub open spec fn block_quad(stride: int, col: int, row: int) -> Seq<int> {
    seq![
        row * stride + col,
        row * stride + col + 1,
        (row + 1) * stride + col,
        (row + 1) * stride + col + 1,
    ]
}

/// The array of `usize` positions equals the four positions of a block.
pub open spec fn quad_matches(found: [usize; 4], stride: int, col: int, row: int) -> bool {
    found@.map_values(|i: usize| i as int) == block_quad(stride, col, row)
}

/// Each of the four positions of the block at `(col, row)` is a pixel of
/// that block: position `j` is the pixel at column `col + j % 2` and row
/// `row + j / 2` of an image `stride` pixels wide (its remainder and its
/// quotient by the stride).
pub proof fn law_block_quad_pixels(stride: int, col: int, row: int)
    requires
        0 <= col,
        col + 1 < stride,
        0 <= row,
    ensures
        0 <= block_quad(stride, col, row)[0],
        block_quad(stride, col, row)[0] % stride == col,
        block_quad(stride, col, row)[0] / stride == row,
        block_quad(stride, col, row)[1] % stride == col + 1,
        block_quad(stride, col, row)[1] / stride == row,
        block_quad(stride, col, row)[2] % stride == col,
        block_quad(stride, col, row)[2] / stride == row + 1,
        block_quad(stride, col, row)[3] % stride == col + 1,
        block_quad(stride, col, row)[3] / stride == row + 1,
        block_quad(stride, col, row).len() == 4,
{
    vstd::arithmetic::div_mod::lemma_fundamental_div_mod_converse(row * stride + col, stride, row, col);
    vstd::arithmetic::div_mod::lemma_fundamental_div_mod_converse(
        row * stride + col + 1,
        stride,
        row,
        col + 1,
    );
    vstd::arithmetic::div_mod::lemma_fundamental_div_mod_converse(
        (row + 1) * stride + col,
        stride,
        row + 1,
        col,
    );
    vstd::arithmetic::div_mod::lemma_fundamental_div_mod_converse(
        (row + 1) * stride + col + 1,
        stride,
        row + 1,
        col + 1,
    );
    assert(0 <= row * stride) by (nonlinear_arith)
        requires
            0 <= row,
            0 < stride,
    ;
}

/// Clearing the low bit rounds down to an even number.
proof fn lemma_clear_low_bit(n: u32)
    ensures
        (n & !1u32) as int == even_part(n as int),
        (n & !1u32) as int % 2 == 0,
{
    assert((n & !1u32) == n - n % 2 && (n & !1u32) % 2 == 0) by (bit_vector);
}

/// Computes the four positions of the block at `(col, row)` in an image
/// `stride` pixels wide and `rows` pixels high.
fn quad_at(stride: usize, rows: usize, col: usize, row: usize) -> (found: [usize; 4])
    requires
        col + 1 < stride,
        row + 1 < rows,
        stride * rows <= usize::MAX,
    ensures
        quad_matches(found, stride as int, col as int, row as int),
        forall|j: int|
            0 <= j < 4 ==> {
                &&& (#[trigger] found@[j]) as int % stride as int == col + j % 2
                &&& found@[j] as int / stride as int == row + j / 2
            },
{
    proof {
        crate::array2::lemma_index_in_range(stride as int, rows as int, col as int, row as int);
        crate::array2::lemma_index_in_range(
            stride as int,
            rows as int,
            (col + 1) as int,
            (row + 1) as int,
        );
        assert((row + 1) * stride == row * stride + stride) by (nonlinear_arith);
    }
    let top = row * stride + col;
    let bottom = top + stride;
    let found = [top, top + 1, bottom, bottom + 1];
    proof {
        assert(found@.map_values(|i: usize| i as int) =~= block_quad(
            stride as int,
            col as int,
            row as int,
        ));
        law_block_quad_pixels(stride as int, col as int, row as int);
        assert forall|j: int| 0 <= j < 4 implies {
            &&& (#[trigger] found@[j]) as int % stride as int == col + j % 2
            &&& found@[j] as int / stride as int == row + j / 2
        } by {
            assert(found@[j] as int == found@.map_values(|i: usize| i as int)[j]);
        }
    }
    found
}

/// The blocks that compression reads, in the order it reads them: the
/// image is cut down to even width and height, and its 2x2 blocks are taken
/// row by row, each row from left to right. Block `k` has its top-left pixel
/// at column `2 * (k % (w / 2))` and row `2 * (k / (w / 2))`, where `w` and
/// `h` are the even width and height, and its positions are counted with
/// the even width `w` as the length of a row.
pub fn compress_blocks(width: u32, height: u32) -> (blocks: Vec<[usize; 4]>)
    requires
        width as int * height as int <= usize::MAX,
    ensures
        ({
            let w = even_part(width as int);
            let h = even_part(height as int);
            &&& blocks@.len() == (w / 2) * (h / 2)
            &&& forall|k: int|
                0 <= k < blocks@.len() ==> #[trigger] quad_matches(
                    blocks@[k],
                    w,
                    2 * (k % (w / 2)),
                    2 * (k / (w / 2)),
                )
            &&& forall|k: int, j: int|
                0 <= k < blocks@.len() && 0 <= j < 4 ==> {
                    &&& (#[trigger] blocks@[k]@[j]) as int % w == 2 * (k % (w / 2)) + j % 2
                    &&& blocks@[k]@[j] as int / w == 2 * (k / (w / 2)) + j / 2
                }
        }),
{
    let w32 = width & !1u32;
    let h32 = height & !1u32;
    proof {
        lemma_clear_low_bit(width);
        lemma_clear_low_bit(height);
        assert(w32 as int * h32 as int <= width as int * height as int) by (nonlinear_arith)
            requires
                w32 <= width,
                h32 <= height,
        ;
    }
    let w = w32 as usize;
    let h = h32 as usize;
    let ghost bw = w as int / 2;
    let ghost bh = h as int / 2;
    let mut blocks: Vec<[usize; 4]> = Vec::new();
    let mut row: usize = 0;
    proof {
        assert(0 * bw == 0) by (nonlinear_arith);
    }
    while row < h
        invariant
            w as int == even_part(width as int),
            h as int == even_part(height as int),
            w % 2 == 0,
            h % 2 == 0,
            bw == w / 2,
            bh == h / 2,
            w * h <= usize::MAX,
            row % 2 == 0,
            row <= h,
            blocks@.len() == (row / 2) * bw,
            forall|k: int|
                0 <= k < blocks@.len() ==> #[trigger] quad_matches(
                    blocks@[k],
                    w as int,
                    2 * (k % bw),
                    2 * (k / bw),
                ),
        decreases h - row,
    {
        let mut col: usize = 0;
        while col < w
            invariant
                w as int == even_part(width as int),
                w % 2 == 0,
                h % 2 == 0,
                bw == w / 2,
                w * h <= usize::MAX,
                row % 2 == 0,
                row < h,
                col % 2 == 0,
                col <= w,
                blocks@.len() == (row / 2) * bw + col / 2,
                forall|k: int|
                    0 <= k < blocks@.len() ==> #[trigger] quad_matches(
                        blocks@[k],
                        w as int,
                        2 * (k % bw),
                        2 * (k / bw),
                    ),
            decreases w - col,
        {
            let quad = quad_at(w, h, col, row);
            proof {
                vstd::arithmetic::div_mod::lemma_fundamental_div_mod_converse(
                    blocks@.len() as int,
                    bw,
                    row as int / 2,
                    col as int / 2,
                );
            }
            blocks.push(quad);
            col = col + 2;
        }
        proof {
            assert((row / 2) * bw + bw == ((row + 2) / 2) * bw) by (nonlinear_arith)
                requires
                    row % 2 == 0,
            ;
        }
        row = row + 2;
    }
    proof {
        assert((h as int / 2) * bw == bw * bh) by (nonlinear_arith)
            requires
                bh == h as int / 2,
        ;
        assert forall|k: int, j: int| 0 <= k < blocks@.len() && 0 <= j < 4 implies {
            &&& (#[trigger] blocks@[k]@[j]) as int % w as int == 2 * (k % bw) + j % 2
            &&& blocks@[k]@[j] as int / w as int == 2 * (k / bw) + j / 2
        } by {
            assert(quad_matches(blocks@[k], w as int, 2 * (k % bw), 2 * (k / bw)));
            assert(0 < bw);
            vstd::arithmetic::div_mod::lemma_mod_bound(k, bw);
            vstd::arithmetic::div_mod::lemma_div_pos_is_pos(k, bw);
            law_block_quad_pixels(w as int, 2 * (k % bw), 2 * (k / bw));
            assert(blocks@[k]@[j] as int == blocks@[k]@.map_values(|i: usize| i as int)[j]);
        }
    }
    blocks
}

/// The top-left pixel of the block that decompression fills next when its
/// cursor is at `(col, row)`: a cursor past the right edge goes back to
/// column 0.
pub open spec fn block_origin_at(width: int, col: int, row: int) -> (int, int) {
    (if col >= width {
        0
    } else {
        col
    }, row)
}

/// The cursor after decompression has filled the block at
/// `block_origin_at(width, col, row)`: two columns right, and two rows down
/// when that passes the right edge, unless that would leave fewer than two
/// rows below it.
pub open spec fn cursor_step(width: int, height: int, col: int, row: int) -> (int, int) {
    let next = block_origin_at(width, col, row).0 + 2;
    (next, if next >= width && row + 2 < height {
        row + 2
    } else {
        row
    })
}

/// The cursor `(col, row)` of decompression after `i` code words.
pub open spec fn cursor_after(width: int, height: int, i: nat) -> (int, int)
    decreases i,
{
    if i == 0 {
        (0, 0)
    } else {
        let (col, row) = cursor_after(width, height, (i - 1) as nat);
        cursor_step(width, height, col, row)
    }
}

/// The top-left pixel `(col, row)` of the block that decompression fills
/// from code word `i`.
pub open spec fn decoded_origin(width: int, height: int, i: nat) -> (int, int) {
    let (col, row) = cursor_after(width, height, i);
    block_origin_at(width, col, row)
}

/// The block filled from code word `i` lies inside the image.
pub open spec fn decoded_in_image(width: int, height: int, i: nat) -> bool {
    let (col, row) = decoded_origin(width, height, i);
    col + 1 < width && row + 1 < height
}

/// One step of decompression with its cursor at `(col, row)`: the positions
/// of the four pixels of the block that the next code word fills, and the
/// cursor after it. `None` when that block does not lie inside the `width`
/// by `height` image.
pub fn place_block(width: usize, height: usize, col: usize, row: usize) -> (placed: Option<
    ([usize; 4], usize, usize),
>)
    requires
        width * height <= usize::MAX,
    ensures
        ({
            let (c, r) = block_origin_at(width as int, col as int, row as int);
            &&& placed is Some <==> c + 1 < width && r + 1 < height
            &&& placed matches Some((quad, next_col, next_row)) ==> {
                &&& quad_matches(quad, width as int, c, r)
                &&& forall|j: int|
                    0 <= j < 4 ==> {
                        &&& (#[trigger] quad@[j]) as int % width as int == c + j % 2
                        &&& quad@[j] as int / width as int == r + j / 2
                    }
                &&& (next_col as int, next_row as int) == cursor_step(
                    width as int,
                    height as int,
                    col as int,
                    row as int,
                )
            }
        }),
{
    let c = if col >= width {
        0
    } else {
        col
    };
    if !(c + 1 < width && row < height && height - row > 1) {
        return None;
    }
    let quad = quad_at(width, height, c, row);
    let next_col = c + 2;
    let next_row = if next_col >= width && row + 2 < height {
        row + 2
    } else {
        row
    };
    Some((quad, next_col, next_row))
}

/// The blocks that decompression fills from `count` code words, in the
/// order of the words: block `i` has its top-left pixel at
/// `decoded_origin(width, height, i)`. `None` when one of these blocks does
/// not lie inside the `width` by `height` image.
pub fn decompress_blocks(width: usize, height: usize, count: usize) -> (blocks: Option<
    Vec<[usize; 4]>,
>)
    requires
        width * height <= usize::MAX,
    ensures
        blocks is Some <==> forall|i: nat| i < count ==> #[trigger] decoded_in_image(
            width as int,
            height as int,
            i,
        ),
        blocks matches Some(v) ==> {
            &&& v@.len() == count
            &&& forall|i: int|
                0 <= i < count ==> #[trigger] quad_matches(
                    v@[i],
                    width as int,
                    decoded_origin(width as int, height as int, i as nat).0,
                    decoded_origin(width as int, height as int, i as nat).1,
                )
            &&& forall|i: int, j: int|
                0 <= i < count && 0 <= j < 4 ==> {
                    &&& (#[trigger] v@[i]@[j]) as int % width as int == decoded_origin(
                        width as int,
                        height as int,
                        i as nat,
                    ).0 + j % 2
                    &&& v@[i]@[j] as int / width as int == decoded_origin(
                        width as int,
                        height as int,
                        i as nat,
                    ).1 + j / 2
                }
        },
{
    let mut blocks: Vec<[usize; 4]> = Vec::new();
    let mut col: usize = 0;
    let mut row: usize = 0;
    let mut i: usize = 0;
    while i < count
        invariant
            width * height <= usize::MAX,
            i <= count,
            (col as int, row as int) == cursor_after(width as int, height as int, i as nat),
            blocks@.len() == i,
            forall|j: nat| j < i ==> #[trigger] decoded_in_image(width as int, height as int, j),
            forall|j: int|
                0 <= j < i ==> #[trigger] quad_matches(
                    blocks@[j],
                    width as int,
                    decoded_origin(width as int, height as int, j as nat).0,
                    decoded_origin(width as int, height as int, j as nat).1,
                ),
            forall|j: int, t: int|
                0 <= j < i && 0 <= t < 4 ==> {
                    &&& (#[trigger] blocks@[j]@[t]) as int % width as int == decoded_origin(
                        width as int,
                        height as int,
                        j as nat,
                    ).0 + t % 2
                    &&& blocks@[j]@[t] as int / width as int == decoded_origin(
                        width as int,
                        height as int,
                        j as nat,
                    ).1 + t / 2
                },
        decreases count - i,
    {
        match place_block(width, height, col, row) {
            Some((quad, next_col, next_row)) => {
                blocks.push(quad);
                col = next_col;
                row = next_row;
            },
            None => {
                assert(!decoded_in_image(width as int, height as int, i as nat));
                return None;
            },
        }
        i = i + 1;
    }
    Some(blocks)
}

/// Two pixels read by compression (position `j1` of block `k1` and
/// position `j2` of block `k2`, in the order of `compress_blocks`) lie inside
/// the even part of the image, and they are the same pixel only when they
/// are the same position of the same block: no pixel is read twice.
pub proof fn law_compress_blocks_disjoint(
    width: int,
    height: int,
    k1: int,
    j1: int,
    k2: int,
    j2: int,
)
    requires
        width % 2 == 0,
        height % 2 == 0,
        0 <= width,
        0 <= height,
        0 <= k1 < (width / 2) * (height / 2),
        0 <= k2 < (width / 2) * (height / 2),
        0 <= j1 < 4,
        0 <= j2 < 4,
    ensures
        0 <= block_quad(width, 2 * (k1 % (width / 2)), 2 * (k1 / (width / 2)))[j1] < width
            * height,
        block_quad(width, 2 * (k1 % (width / 2)), 2 * (k1 / (width / 2)))[j1] == block_quad(
            width,
            2 * (k2 % (width / 2)),
            2 * (k2 / (width / 2)),
        )[j2] ==> k1 == k2 && j1 == j2,
{
    let bw = width / 2;
    let bh = height / 2;
    assert(0 < bw && 0 < bh) by (nonlinear_arith)
        requires
            0 <= k1 < bw * bh,
            0 <= bw,
            0 <= bh,
    ;
    vstd::arithmetic::div_mod::lemma_fundamental_div_mod(k1, bw);
    vstd::arithmetic::div_mod::lemma_fundamental_div_mod(k2, bw);
    vstd::arithmetic::div_mod::lemma_mod_bound(k1, bw);
    vstd::arithmetic::div_mod::lemma_mod_bound(k2, bw);
    vstd::arithmetic::div_mod::lemma_div_pos_is_pos(k1, bw);
    vstd::arithmetic::div_mod::lemma_div_pos_is_pos(k2, bw);
    assert(k1 / bw < bh) by (nonlinear_arith)
        requires
            k1 == bw * (k1 / bw) + k1 % bw,
            0 <= k1 % bw,
            k1 < bw * bh,
            0 < bw,
    ;
    law_block_quad_pixels(width, 2 * (k1 % bw), 2 * (k1 / bw));
    law_block_quad_pixels(width, 2 * (k2 % bw), 2 * (k2 / bw));
    let q1 = block_quad(width, 2 * (k1 % bw), 2 * (k1 / bw));
    let q2 = block_quad(width, 2 * (k2 % bw), 2 * (k2 / bw));
    let c1 = 2 * (k1 % bw) + j1 % 2;
    let r1 = 2 * (k1 / bw) + j1 / 2;
    assert(q1[j1] % width == c1 && q1[j1] / width == r1);
    assert(q2[j2] % width == 2 * (k2 % bw) + j2 % 2 && q2[j2] / width == 2 * (k2 / bw) + j2 / 2);
    vstd::arithmetic::div_mod::lemma_fundamental_div_mod(q1[j1], width);
    crate::array2::lemma_index_in_range(width, height, c1, r1);
    if q1[j1] == q2[j2] {
        assert(k1 % bw == k2 % bw && k1 / bw == k2 / bw);
    }
}

/// Every pixel of the even part of the image is read by compression: pixel
/// `p` is position `2 * (r % 2) + c % 2` of block `(r / 2) * (width / 2) +
/// c / 2`, where `c = p % width` and `r = p / width`.
pub proof fn law_compress_blocks_cover(width: int, height: int, p: int)
    requires
        width % 2 == 0,
        height % 2 == 0,
        0 <= width,
        0 <= height,
        0 <= p < width * height,
    ensures
        ({
            let bw = width / 2;
            let c = p % width;
            let r = p / width;
            let k = (r / 2) * bw + c / 2;
            let j = 2 * (r % 2) + c % 2;
            &&& 0 <= k < bw * (height / 2)
            &&& 0 <= j < 4
            &&& block_quad(width, 2 * (k % bw), 2 * (k / bw))[j] == p
        }),
{
    let bw = width / 2;
    assert(0 < width) by (nonlinear_arith)
        requires
            0 <= p < width * height,
            0 <= width,
            0 <= height,
    ;
    vstd::arithmetic::div_mod::lemma_fundamental_div_mod(p, width);
    vstd::arithmetic::div_mod::lemma_mod_bound(p, width);
    vstd::arithmetic::div_mod::lemma_div_pos_is_pos(p, width);
    let c = p % width;
    let r = p / width;
    assert(r < height) by (nonlinear_arith)
        requires
            p == width * r + c,
            0 <= c,
            p < width * height,
            0 < width,
    ;
    let k = (r / 2) * bw + c / 2;
    assert(0 < bw * (height / 2)) by (nonlinear_arith)
        requires
            0 <= r < height,
            0 <= c < width,
            width % 2 == 0,
            height % 2 == 0,
            bw == width / 2,
    ;
    law_compress_blocks_tile(width, height, c, r, 0);
    crate::array2::lemma_index_unique(bw, c / 2, r / 2);
    assert(k == crate::array2::row_major_index(bw, c / 2, r / 2));
    law_block_quad_pixels(width, 2 * (c / 2), 2 * (r / 2));
    let j = 2 * (r % 2) + c % 2;
    let q = block_quad(width, 2 * (c / 2), 2 * (r / 2));
    assert(q[j] % width == c && q[j] / width == r);
    vstd::arithmetic::div_mod::lemma_fundamental_div_mod(q[j], width);
}

/// The cursor of decompression walks the blocks of an even-sized image row
/// by row.
proof fn lemma_cursor_walks_rows(width: int, height: int, i: nat)
    requires
        width % 2 == 0,
        height % 2 == 0,
        0 <= width,
        0 <= height,
        i < (width / 2) * (height / 2),
    ensures
        ({
            let bw = width / 2;
            let (col, row) = cursor_after(width, height, i);
            &&& row == 2 * ((i as int) / bw)
            &&& col == (if (i as int) % bw == 0 {
                if i == 0 {
                    0
                } else {
                    width
                }
            } else {
                2 * ((i as int) % bw)
            })
        }),
    decreases i,
{
    let bw = width / 2;
    let bh = height / 2;
    assert(0 < bw && 0 < bh) by (nonlinear_arith)
        requires
            i < bw * bh,
            0 <= bw,
            0 <= bh,
            0 <= i,
    ;
    if i == 0 {
        vstd::arithmetic::div_mod::lemma_fundamental_div_mod_converse(0, bw, 0, 0);
    } else {
        let p = (i - 1) as nat;
        assert(p < bw * bh);
        lemma_cursor_walks_rows(width, height, p);
        vstd::arithmetic::div_mod::lemma_fundamental_div_mod(p as int, bw);
        vstd::arithmetic::div_mod::lemma_mod_bound(p as int, bw);
        vstd::arithmetic::div_mod::lemma_div_pos_is_pos(p as int, bw);
        if (p as int) % bw + 1 < bw {
            vstd::arithmetic::div_mod::lemma_fundamental_div_mod_converse(
                i as int,
                bw,
                (p as int) / bw,
                (p as int) % bw + 1,
            );
        } else {
            assert(((p as int) / bw + 1) * bw == bw * ((p as int) / bw) + bw) by (nonlinear_arith);
            assert((p as int) % bw == bw - 1);
            assert(i == ((p as int) / bw + 1) * bw);
            vstd::arithmetic::div_mod::lemma_fundamental_div_mod_converse(
                i as int,
                bw,
                (p as int) / bw + 1,
                0,
            );
            assert(2 * ((p as int) / bw) + 2 < height) by (nonlinear_arith)
                requires
                    i == ((p as int) / bw + 1) * bw,
                    i < bw * bh,
                    height == 2 * bh,
                    0 < bw,
            ;
        }
    }
}

/// Decompressing the code words of an image with even width and height puts
/// block `k` back where compression took it from: at column
/// `2 * (k % (width / 2))` and row `2 * (k / (width / 2))`, inside the image.
pub proof fn law_decompress_inverts_compress_layout(width: int, height: int, k: nat)
    requires
        width % 2 == 0,
        height % 2 == 0,
        0 <= width,
        0 <= height,
        k < (width / 2) * (height / 2),
    ensures
        decoded_in_image(width, height, k),
        decoded_origin(width, height, k) == (2 * ((k as int) % (width / 2)), 2 * ((k as int) / (width / 2))),
{
    let bw = width / 2;
    let bh = height / 2;
    lemma_cursor_walks_rows(width, height, k);
    assert(0 < bw && 0 < bh) by (nonlinear_arith)
        requires
            k < bw * bh,
            0 <= bw,
            0 <= bh,
            0 <= k,
    ;
    vstd::arithmetic::div_mod::lemma_mod_bound(k as int, bw);
    vstd::arithmetic::div_mod::lemma_fundamental_div_mod(k as int, bw);
    assert((k as int) / bw < bh) by (nonlinear_arith)
        requires
            k == bw * ((k as int) / bw) + (k as int) % bw,
            0 <= (k as int) % bw,
            k < bw * bh,
            0 < bw,
    ;
}

/// The 2x2 block number `k` of an image `width` pixels wide (in blocks of
/// the order of `compress_blocks`) covers the pixel `(c, r)`.
pub open spec fn block_covers(width: int, k: int, c: int, r: int) -> bool {
    let col = 2 * (k % (width / 2));
    let row = 2 * (k / (width / 2));
    col <= c <= col + 1 && row <= r <= row + 1
}

/// The blocks of `compress_blocks` tile the even part of the image: every
/// pixel in it is covered by exactly one block, block
/// `(r / 2) * (width / 2) + c / 2`.
pub proof fn law_compress_blocks_tile(width: int, height: int, c: int, r: int, k2: int)
    requires
        width % 2 == 0,
        height % 2 == 0,
        0 <= c < width,
        0 <= r < height,
        0 <= k2 < (width / 2) * (height / 2),
    ensures
        ({
            let k = (r / 2) * (width / 2) + c / 2;
            &&& 0 <= k < (width / 2) * (height / 2)
            &&& block_covers(width, k, c, r)
            &&& block_covers(width, k2, c, r) ==> k2 == k
        }),
{
    let bw = width / 2;
    let bh = height / 2;
    let k = (r / 2) * bw + c / 2;
    assert(0 <= c / 2 < bw && 0 <= r / 2 < bh);
    crate::array2::lemma_index_in_range(bw, bh, c / 2, r / 2);
    crate::array2::lemma_index_unique(bw, c / 2, r / 2);
    vstd::arithmetic::div_mod::lemma_fundamental_div_mod(k2, bw);
    vstd::arithmetic::div_mod::lemma_mod_bound(k2, bw);
    if block_covers(width, k2, c, r) {
        assert(k2 % bw == c / 2);
        assert(k2 / bw == r / 2);
        assert(k2 == bw * (r / 2) + c / 2);
        assert(bw * (r / 2) == (r / 2) * bw) by (nonlinear_arith);
    }
}

} // verus!
