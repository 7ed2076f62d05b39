//! The pixel grid that messages are hidden in: an RGB image held as one flat
//! row of 8-bit channel values.
//!
//! The values are stored in exactly the order the stream visits them: pixels
//! row-major (all of row 0, then row 1, ...), and within each pixel the red,
//! green and blue channels in that order. Channel `3 * (y * width + x) + c`
//! is channel `c` of the pixel at column `x`, row `y`.

use vstd::prelude::*;
use crate::bit_iter::with_lsb;

verus! {

/// An RGB pixel grid of fixed dimensions, three channel values per pixel.
pub struct PixelGrid {
    width: usize,
    height: usize,
    channels: Vec<u8>,
}

impl PixelGrid {
    /// The channel values, in the order the stream visits them.
    pub closed spec fn channel_seq(&self) -> Seq<u8> {
        self.channels@
    }

    pub closed spec fn spec_width(&self) -> int {
        self.width as int
    }

    pub closed spec fn spec_height(&self) -> int {
        self.height as int
    }

    /// A well-formed grid holds exactly three channel values per pixel.
    pub open spec fn wf(&self) -> bool {
        self.channel_seq().len() == self.spec_width() * self.spec_height() * 3
    }

    /// Build a grid from its dimensions and flat channel values; refused
    /// unless the values are exactly three per pixel.
    pub fn new(width: usize, height: usize, channels: Vec<u8>) -> (r: Option<PixelGrid>)
        ensures
            r is Some <==> channels@.len() == width * height * 3,
            r is Some ==> r.unwrap().wf() && r.unwrap().channel_seq() == channels@ && r.unwrap().spec_width()
                == width && r.unwrap().spec_height() == height,
    {
        let n = channels.len();
        let pixels = match width.checked_mul(height) {
            Some(p) => p,
            None => {
                proof {
                    assert(width * height * 3 >= width * height) by (nonlinear_arith)
                        requires
                            width >= 0 && height >= 0,
                    ;
                    assert(channels@.len() == n <= usize::MAX);
                }
                return None;
            },
        };
        let expected = match pixels.checked_mul(3) {
            Some(e) => e,
            None => {
                proof {
                    assert(channels@.len() == n <= usize::MAX);
                }
                return None;
            },
        };
        if n == expected {
            Some(PixelGrid { width, height, channels })
        } else {
            None
        }
    }

    /// The width the grid was built with.
    pub fn width(&self) -> (r: usize)
        ensures
            r == self.spec_width(),
    {
        self.width
    }

    /// The height the grid was built with.
    pub fn height(&self) -> (r: usize)
        ensures
            r == self.spec_height(),
    {
        self.height
    }

    /// How many bits the grid can carry: one per channel value.
    pub fn capacity(&self) -> (r: usize)
        ensures
            r == self.channel_seq().len(),
    {
        self.channels.len()
    }

    /// The channel value at position `i` of the stream order.
    pub fn get_channel(&self, i: usize) -> (r: u8)
        requires
            i < self.channel_seq().len(),
        ensures
            r == self.channel_seq()[i as int],
    {
        self.channels[i]
    }

    /// Borrow all channel values, in stream order.
    pub fn channel_values(&self) -> (r: &Vec<u8>)
        ensures
            r@ == self.channel_seq(),
    {
        &self.channels
    }

    /// Overwrite the least-significant bit of the channel at position `i`.
    pub fn set_channel_lsb(&mut self, i: usize, bit: bool)
        requires
            i < old(self).channel_seq().len(),
        ensures
            final(self).channel_seq() == old(self).channel_seq().update(
                i as int,
                with_lsb(old(self).channel_seq()[i as int], bit),
            ),
            final(self).spec_width() == old(self).spec_width(),
            final(self).spec_height() == old(self).spec_height(),
    {
        let c = self.channels[i];
        let v: u8 = if bit {
            c | 1
        } else {
            c & 0xfe
        };
        self.channels.set(i, v);
    }

    /// Whether a message of `message_len` bytes fits in the grid together
    /// with the six-byte marker: the stream's bit length is at most the
    /// number of channels. Hiding a message that does not fit silently
    /// truncates it; this check lets a caller tell the two cases apart.
    pub fn fits(&self, message_len: usize) -> (r: bool)
        ensures
            r == (8 * (message_len + 6) <= self.channel_seq().len()),
    {
        let n = self.channels.len();
        let bytes = match message_len.checked_add(6) {
            Some(b) => b,
            None => {
                proof {
                    assert(self.channel_seq().len() == n <= usize::MAX);
                }
                return false;
            },
        };
        let bits = match bytes.checked_mul(8) {
            Some(b) => b,
            None => {
                proof {
                    assert(self.channel_seq().len() == n <= usize::MAX);
                }
                return false;
            },
        };
        bits <= n
    }
}

} // verus!
