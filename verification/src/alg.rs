//! Algorithm dispatcher: the hash algorithm variants, their hash-size
//! rounding and resize-dimension rules, and the computation that routes a
//! sample buffer to the matching comparison primitive and packs the
//! resulting booleans under the configured bit order.

use vstd::prelude::*;
use crate::bits::{unpacked, BitOrder, BitSet};
use crate::blockhash::{blockhash_bits, blockhash_bits_of, Image};
use crate::luma::{
    col_gradient_of, double_gradient_hash, double_gradient_of, gradient_hash, mean_bits_of,
    mean_hash_u8, median_bits_of, median_hash_u8, row_gradient_of, vert_gradient_hash,
};

verus! {

/// Hash algorithms implemented by this crate.
#[derive(Clone, Copy, Debug, PartialEq, Eq, Structural)]
pub enum HashAlg {
    /// Mean hash: every sample is compared against the arithmetic mean
    /// of the buffer.
    Mean,
    /// Median hash: every sample is compared against the median of the
    /// buffer.
    Median,
    /// Gradient hash: adjacent samples are compared along each row.
    Gradient,
    /// Vertical-gradient hash: adjacent samples are compared down each
    /// column.
    VertGradient,
    /// Double-gradient hash: row comparisons followed by column
    /// comparisons of the same buffer.
    DoubleGradient,
    /// Block-average hash: raw pixels are partitioned into a grid of
    /// blocks and each block's average is compared against the median of
    /// all block averages.
    Blockhash,
}

/// The configuration of one hash computation: the requested hash
/// dimensions and the bit order of the packed output.
pub struct HashCtxt {
    pub width: u32,
    pub height: u32,
    pub bit_order: BitOrder,
}

/// The next even number at or above `x`.
pub open spec fn next_even(x: int) -> int {
    if x % 2 == 0 {
        x
    } else {
        x + 1
    }
}

/// The next multiple of four at or above `x`.
pub open spec fn next_mult4(x: int) -> int {
    if x % 4 == 0 {
        x
    } else {
        x + (4 - x % 4)
    }
}

/// Round up to the next even number.
pub fn next_multiple_of_2(x: u32) -> (r: u32)
    requires
        x < u32::MAX,
    ensures
        r == next_even(x as int),
{
    let s = x + 1;
    let r = s & !1u32;
    proof {
        assert((x % 2 == 0 ==> r == x) && (x % 2 != 0 ==> r == x + 1)) by (bit_vector)
            requires
                s == x + 1,
                r == (s & !1u32),
                x < 0xffff_ffffu32,
        ;
    }
    r
}

/// Round up to the next multiple of four.
pub fn next_multiple_of_4(x: u32) -> (r: u32)
    requires
        x <= u32::MAX - 3,
    ensures
        r == next_mult4(x as int),
{
    let s = x + 3;
    let r = s & !3u32;
    proof {
        assert((x % 4 == 0 ==> r == x) && (x % 4 != 0 ==> r == x + (4 - x % 4))) by (bit_vector)
            requires
                s == x + 3,
                r == (s & !3u32),
                x <= 0xffff_fffcu32,
        ;
    }
    r
}

impl HashAlg {
    /// The hash dimensions each algorithm can work with: DoubleGradient
    /// needs even dimensions, Blockhash multiples of four, and every
    /// other algorithm takes them as given.
    pub open spec fn rounded_hash_size(self, width: int, height: int) -> (int, int) {
        match self {
            HashAlg::DoubleGradient => (next_even(width), next_even(height)),
            HashAlg::Blockhash => (next_mult4(width), next_mult4(height)),
            _ => (width, height),
        }
    }

    /// The dimensions to which the grayscale image is resized before
    /// hashing, for every algorithm that resizes. Blockhash partitions
    /// the raw pixels itself and never resizes.
    pub open spec fn resize_dims(self, width: int, height: int) -> (int, int)
        recommends
            self != HashAlg::Blockhash,
    {
        match self {
            HashAlg::Mean => (width, height),
            HashAlg::Median => (width, height),
            HashAlg::Gradient => (width + 1, height),
            HashAlg::VertGradient => (width, height + 1),
            HashAlg::DoubleGradient => (width / 2 + 1, height / 2 + 1),
            HashAlg::Blockhash => (0, 0),
        }
    }

    /// Round the requested hash dimensions up as this algorithm needs.
    pub fn round_hash_size(&self, width: u32, height: u32) -> (r: (u32, u32))
        requires
            width <= u32::MAX - 3,
            height <= u32::MAX - 3,
        ensures
            (r.0 as int, r.1 as int) == self.rounded_hash_size(width as int, height as int),
    {
        match *self {
            HashAlg::DoubleGradient => (next_multiple_of_2(width), next_multiple_of_2(height)),
            HashAlg::Blockhash => (next_multiple_of_4(width), next_multiple_of_4(height)),
            _ => (width, height),
        }
    }

    /// The resize dimensions for this algorithm and the given hash
    /// dimensions. Requesting them for Blockhash is a programming error,
    /// excluded by contract: Blockhash computes its own block partition
    /// directly from the pixel dimensions.
    pub fn resize_dimensions(&self, width: u32, height: u32) -> (r: (u32, u32))
        requires
            *self != HashAlg::Blockhash,
            width < u32::MAX,
            height < u32::MAX,
        ensures
            (r.0 as int, r.1 as int) == self.resize_dims(width as int, height as int),
    {
        match *self {
            HashAlg::Mean => (width, height),
            HashAlg::Median => (width, height),
            HashAlg::Gradient => (width + 1, height),
            HashAlg::VertGradient => (width, height + 1),
            HashAlg::DoubleGradient => (width / 2 + 1, height / 2 + 1),
            HashAlg::Blockhash => {
                proof {
                    assert(false);
                }
                (0, 0)
            },
        }
    }

    /// The boolean comparison sequence this algorithm derives from a
    /// sample buffer `img` of dimensions `iw x ih`, for requested hash
    /// dimensions `hw x hh` (the hash dimensions matter to Blockhash
    /// alone).
    pub open spec fn hash_bits(self, img: Seq<u8>, iw: int, ih: int, hw: int, hh: int) -> Seq<
        bool,
    > {
        match self {
            HashAlg::Mean => mean_bits_of(img),
            HashAlg::Median => median_bits_of(img),
            HashAlg::Gradient => row_gradient_of(img, iw),
            HashAlg::VertGradient => col_gradient_of(img, iw),
            HashAlg::DoubleGradient => double_gradient_of(img, iw),
            HashAlg::Blockhash => blockhash_bits_of(img, iw, ih, hw, hh),
        }
    }

    /// Compute the hash of an image under this algorithm and pack it
    /// under the context's bit order.
    ///
    /// For every algorithm but Blockhash, `image` must already hold the
    /// grayscale samples resized to this algorithm's resize dimensions
    /// for the context's hash size: resizing and grayscale conversion are
    /// the context's collaborators' work. Blockhash instead reads raw
    /// pixels at their own dimensions, which must split evenly into a
    /// `width x height` grid of equal-area blocks.
    pub fn hash_image(&self, ctxt: &HashCtxt, image: &Image) -> (r: BitSet)
        requires
            image.wf(),
            255 * image.pixels@.len() <= u64::MAX,
            *self == HashAlg::Blockhash ==> 1 <= ctxt.width <= image.width && 1 <= ctxt.height
                <= image.height && image.width as int % ctxt.width as int == 0
                && image.height as int % ctxt.height as int == 0,
            *self != HashAlg::Blockhash ==> 1 <= ctxt.width && 1 <= ctxt.height && ctxt.width
                < u32::MAX && ctxt.height < u32::MAX && (image.width as int, image.height as int)
                == self.resize_dims(ctxt.width as int, ctxt.height as int),
        ensures
            r.wf(),
            r.bit_len == self.hash_bits(
                image.pixels@,
                image.width as int,
                image.height as int,
                ctxt.width as int,
                ctxt.height as int,
            ).len(),
            unpacked(r.bytes@, ctxt.bit_order, r.bit_len as int) == self.hash_bits(
                image.pixels@,
                image.width as int,
                image.height as int,
                ctxt.width as int,
                ctxt.height as int,
            ),
            r.bit_len as int == (match *self {
                HashAlg::Mean => image.pixels@.len() as int,
                HashAlg::Median => image.pixels@.len() as int,
                HashAlg::Gradient => (image.height as int) * (image.width as int - 1),
                HashAlg::VertGradient => (image.width as int) * (image.height as int - 1),
                HashAlg::DoubleGradient => (image.height as int) * (image.width as int - 1) + (
                image.width as int) * (image.height as int - 1),
                HashAlg::Blockhash => (ctxt.width as int) * (ctxt.height as int),
            }),
    {
        let iw = image.width as usize;
        let ih = image.height as usize;
        proof {
            if *self != HashAlg::Blockhash {
                assert(image.pixels@.len() >= 1 && iw >= 1 && ih >= 1) by (nonlinear_arith)
                    requires
                        iw as int >= 1,
                        ih as int >= 1,
                        image.pixels@.len() == (iw as int) * (ih as int),
                ;
                assert(image.pixels@.len() == (ih as int) * (iw as int)) by (nonlinear_arith)
                    requires
                        image.pixels@.len() == (iw as int) * (ih as int),
                ;
                vstd::arithmetic::div_mod::lemma_fundamental_div_mod_converse_mod(
                    image.pixels@.len() as int,
                    iw as int,
                    ih as int,
                    0,
                );
                vstd::arithmetic::div_mod::lemma_fundamental_div_mod_converse_div(
                    image.pixels@.len() as int,
                    iw as int,
                    ih as int,
                    0,
                );
            }
        }
        let bools: Vec<bool> = match *self {
            HashAlg::Mean => mean_hash_u8(&image.pixels),
            HashAlg::Median => median_hash_u8(&image.pixels),
            HashAlg::Gradient => gradient_hash(&image.pixels, iw),
            HashAlg::VertGradient => vert_gradient_hash(&image.pixels, iw),
            HashAlg::DoubleGradient => double_gradient_hash(&image.pixels, iw),
            HashAlg::Blockhash => blockhash_bits(image, ctxt.width, ctxt.height),
        };
        BitSet::from_bools(&bools, ctxt.bit_order)
    }
}

} // verus!
