//! Encoder-side checks and pixel packing: encoder options, the frame-size
//! check on every pushed frame, and copying tight RGBA rows into a codec
//! frame plane whose rows may be padded.
use vstd::prelude::*;
use vstd::string::*;

use crate::format::{decimal, decimal_string};

verus! {

/// Optional tuning knobs for the encoder.
#[derive(Clone, Copy, Debug, PartialEq, Eq, Structural)]
pub struct EncoderOptions {
    /// Constant Rate Factor; `None` keeps the codec's default. Values are
    /// passed through unchecked; the codec rejects out-of-range ones.
    pub crf: Option<u8>,
}

impl Default for EncoderOptions {
    /// No knob set.
    fn default() -> (o: EncoderOptions)
        ensures
            o.crf.is_none(),
    {
        EncoderOptions { crf: None }
    }
}

impl EncoderOptions {
    /// The value passed to the codec's `crf` option, if one is set: the
    /// decimal rendering of the factor.
    pub fn crf_setting(&self) -> (s: Option<String>)
        ensures
            match self.crf {
                Some(c) => s.is_some() && s.unwrap()@ == decimal(c as nat),
                None => s.is_none(),
            },
    {
        match self.crf {
            Some(c) => Some(decimal_string(c as u64)),
            None => None,
        }
    }
}

/// A pushed frame whose byte count does not match the encoder's size.
#[derive(Clone, Copy, Debug, PartialEq, Eq, Structural)]
pub struct FrameSizeMismatch {
    pub expected: usize,
    pub got: usize,
}

impl FrameSizeMismatch {
    pub open spec fn spec_message(self) -> Seq<char> {
        "frame size mismatch: expected "@ + decimal(self.expected as nat) + " bytes, got "@ + decimal(
            self.got as nat,
        )
    }

    /// Human-readable description of the mismatch.
    pub fn message(&self) -> (s: String)
        ensures
            s@ == self.spec_message(),
    {
        let s = String::from_str("frame size mismatch: expected ");
        let s = s.concat(decimal_string(self.expected as u64).as_str());
        let s = s.concat(" bytes, got ");
        s.concat(decimal_string(self.got as u64).as_str())
    }
}

/// Check that a frame of `len` bytes is a tight `width * height` RGBA
/// frame.
pub fn check_frame_size(width: u32, height: u32, len: usize) -> (r: Result<(), FrameSizeMismatch>)
    requires
        width * height * 4 <= u32::MAX,
    ensures
        len == width * height * 4 ==> r == Ok::<(), FrameSizeMismatch>(()),
        len != width * height * 4 ==> r == Err::<(), FrameSizeMismatch>(
            FrameSizeMismatch { expected: (width * height * 4) as usize, got: len },
        ),
{
    assert(width * height <= u32::MAX) by (nonlinear_arith)
        requires
            width * height * 4 <= u32::MAX,
    ;
    let expected = (width * height * 4) as usize;
    if len != expected {
        return Err(FrameSizeMismatch { expected, got: len });
    }
    Ok(())
}

/// Copy `height` tight RGBA rows of `width` pixels into a frame plane whose
/// rows are `stride` bytes apart, leaving the padding bytes of every row
/// untouched. A plane's stride never falls short of a row.
pub fn copy_rows_into_plane(plane: &mut [u8], rgba: &[u8], width: u32, height: u32, stride: usize)
    requires
        rgba@.len() == width * height * 4,
        stride >= width * 4,
        height == 0 || (height - 1) * stride + width * 4 <= old(plane)@.len(),
    ensures
        final(plane)@.len() == old(plane)@.len(),
        forall|y: int, c: int|
            0 <= y < height && 0 <= c < width * 4 ==> #[trigger] final(plane)@[y * stride + c]
                == rgba@[y * (width * 4) + c],
        forall|k: int|
            0 <= k < old(plane)@.len() && (k / (stride as int) >= height || k % (stride as int) >= width
                * 4) ==> #[trigger] final(plane)@[k] == old(plane)@[k],
{
    let row_bytes: usize = (width as usize) * 4;
    let rows: usize = height as usize;
    let ghost orig = plane@;
    let plen = plane.len();
    let rlen = rgba.len();
    let mut y: usize = 0;
    while y < rows
        invariant
            rlen == rgba@.len(),
            plen == plane@.len(),
            plane@.len() == orig.len(),
            row_bytes == width * 4,
            rows == height,
            rgba@.len() == width * height * 4,
            stride >= row_bytes,
            height == 0 || (height - 1) * stride + width * 4 <= orig.len(),
            y <= rows,
            forall|yy: int, c: int|
                0 <= yy < y && 0 <= c < row_bytes ==> #[trigger] plane@[yy * stride + c] == rgba@[yy
                    * row_bytes + c],
            forall|k: int|
                0 <= k < orig.len() && (k / (stride as int) >= y || k % (stride as int) >= row_bytes)
                    ==> #[trigger] plane@[k] == orig[k],
        decreases rows - y,
    {
        assert(y * stride + row_bytes <= plen) by (nonlinear_arith)
            requires
                y < rows,
                rows == height,
                (height - 1) * stride + width * 4 <= plen,
                row_bytes == width * 4,
                stride >= 0,
        ;
        assert(y * row_bytes + row_bytes <= rgba@.len()) by (nonlinear_arith)
            requires
                y < rows,
                rows == height,
                rgba@.len() == width * height * 4,
                row_bytes == width * 4,
        ;
        let dst_start: usize = y * stride;
        let src_start: usize = y * row_bytes;
        let ghost before = plane@;
        let mut c: usize = 0;
        while c < row_bytes
            invariant
                rlen == rgba@.len(),
                plen == plane@.len(),
                plane@.len() == orig.len(),
                before.len() == orig.len(),
                c <= row_bytes,
                dst_start == y * stride,
                src_start == y * row_bytes,
                dst_start + row_bytes <= plen,
                src_start + row_bytes <= rgba@.len(),
                forall|cc: int| 0 <= cc < c ==> #[trigger] plane@[dst_start + cc] == rgba@[src_start + cc],
                forall|k: int|
                    0 <= k < orig.len() && !(dst_start + c <= k < dst_start + row_bytes) && !(dst_start
                        <= k < dst_start + c) ==> #[trigger] plane@[k] == before[k],
            decreases row_bytes - c,
        {
            plane[dst_start + c] = rgba[src_start + c];
            c = c + 1;
        }
        proof {
            assert forall|k: int|
                0 <= k < orig.len() && (k / (stride as int) >= y + 1 || k % (stride as int)
                    >= row_bytes) implies #[trigger] plane@[k] == orig[k] by {
                if dst_start <= k < dst_start + row_bytes {
                    let off = k - dst_start;
                    assert(k == y * stride + off);
                    assert(k / (stride as int) == y && k % (stride as int) == off) by (nonlinear_arith)
                        requires
                            k == y * stride + off,
                            0 <= off < row_bytes,
                            row_bytes <= stride,
                            y >= 0,
                    ;
                } else {
                    assert(plane@[k] == before[k]);
                    if k / (stride as int) >= y + 1 {
                    } else {
                    }
                }
            }
            assert forall|yy: int, cc: int|
                0 <= yy < y + 1 && 0 <= cc < row_bytes implies #[trigger] plane@[yy * stride + cc]
                == rgba@[yy * row_bytes + cc] by {
                if yy < y {
                    let k = yy * stride + cc;
                    assert(k < dst_start) by (nonlinear_arith)
                        requires
                            k == yy * stride + cc,
                            0 <= yy < y,
                            0 <= cc < row_bytes,
                            row_bytes <= stride,
                            dst_start == y * stride,
                    ;
                    assert(k >= 0) by (nonlinear_arith)
                        requires
                            k == yy * stride + cc,
                            0 <= yy,
                            0 <= cc,
                            stride >= 0,
                    ;
                    assert(plane@[k] == before[k]);
                } else {
                    assert(plane@[dst_start + cc] == rgba@[src_start + cc]);
                }
            }
        }
        y = y + 1;
    }
    proof {
        assert forall|k: int|
            0 <= k < orig.len() && (k / (stride as int) >= height || k % (stride as int) >= width * 4)
                implies #[trigger] plane@[k] == orig[k] by {
        }
    }
}

} // verus!
