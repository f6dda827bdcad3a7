//! Preparing rendered frames for a GIF encoder. The GIF format stores a
//! frame as a palette of at most 256 colours and one palette index for each
//! pixel; the `gif` crate's quantizer turns a canvas into that form.

use vstd::prelude::*;
use crate::ast::{block_view, Stmt};
use crate::error::ArithmeticError;
use crate::render::{buffers, rendered, run_program, HEIGHT, WIDTH};

verus! {

/// A frame as the GIF format stores it.
#[derive(Debug, PartialEq, Eq)]
pub struct IndexedFrame {
    /// The width of the frame, in pixels.
    pub width: u16,
    /// The height of the frame, in pixels.
    pub height: u16,
    /// The colours of the frame: red, green and blue for each.
    pub palette: Option<Vec<u8>>,
    /// For each pixel, row by row, the index of its colour in the palette.
    pub pixels: Vec<u8>,
}

/// The mathematical value of an [`IndexedFrame`].
pub struct IndexedFrameView {
    pub width: u16,
    pub height: u16,
    pub palette: Option<Seq<u8>>,
    pub pixels: Seq<u8>,
}

impl View for IndexedFrame {
    type V = IndexedFrameView;

    open spec fn view(&self) -> IndexedFrameView {
        IndexedFrameView {
            width: self.width,
            height: self.height,
            palette: match self.palette {
                Some(palette) => Some(palette@),
                None => None,
            },
            pixels: self.pixels@,
        }
    }
}

impl IndexedFrameView {
    /// Whether the frame can be written as it is: it has a palette of its
    /// own, and an index for each of its pixels.
    pub open spec fn well_formed(self) -> bool {
        &&& self.palette is Some
        &&& self.pixels.len() == self.width * self.height
    }
}

/// The frame that `gif::Frame::from_rgb` makes of a canvas of `width` by
/// `height` RGB pixels: its palette and its palette indices.
pub uninterp spec fn quantized(width: u16, height: u16, rgb: Seq<u8>) -> IndexedFrameView;

/// Calls `gif::Frame::from_rgb` and hands back the size, the palette and the
/// buffer of the frame it makes. Trusted, not proved: the frame is a function
/// of the arguments alone, it has the size it was asked for and a palette of
/// its own, and its buffer holds one index for each pixel. The call panics on
/// a canvas of any other size than `width * height * 3` bytes, and it works
/// on a copy with four bytes for each pixel, whose size has to be a `usize`.
#[verifier::external_body]
fn quantize(width: u16, height: u16, rgb: &[u8]) -> (frame: IndexedFrame)
    requires
        rgb@.len() == width * height * 3,
        width * height * 4 <= usize::MAX,
    ensures
        frame@ == quantized(width, height, rgb@),
        frame.width == width,
        frame.height == height,
        frame@.well_formed(),
{
    let frame = gif::Frame::from_rgb(width, height, rgb);
    IndexedFrame {
        width: frame.width,
        height: frame.height,
        palette: frame.palette,
        pixels: frame.buffer.into_owned(),
    }
}

/// Turns every rendered frame into the form that the GIF format stores, in
/// order. Each frame comes out with a palette of its own and one index for
/// each of its 200 by 200 pixels.
pub fn index_frames(frames: &Vec<Vec<u8>>) -> (out: Vec<IndexedFrame>)
    requires
        forall|k: int| 0 <= k < frames@.len() ==> (#[trigger] frames@[k]).len() == WIDTH * HEIGHT * 3,
    ensures
        out@.len() == frames@.len(),
        forall|k: int|
            0 <= k < out@.len() ==> (#[trigger] out@[k])@ == quantized(
                WIDTH as u16,
                HEIGHT as u16,
                frames@[k]@,
            ),
        forall|k: int| 0 <= k < out@.len() ==> (#[trigger] out@[k])@.well_formed(),
{
    let mut out: Vec<IndexedFrame> = Vec::new();
    let mut i: usize = 0;
    while i < frames.len()
        invariant
            i <= frames.len(),
            out@.len() == i,
            forall|k: int|
                0 <= k < frames@.len() ==> (#[trigger] frames@[k]).len() == WIDTH * HEIGHT * 3,
            forall|k: int|
                0 <= k < i ==> (#[trigger] out@[k])@ == quantized(
                    WIDTH as u16,
                    HEIGHT as u16,
                    frames@[k]@,
                ),
            forall|k: int| 0 <= k < i ==> (#[trigger] out@[k])@.well_formed(),
        decreases frames.len() - i,
    {
        let frame = quantize(WIDTH as u16, HEIGHT as u16, frames[i].as_slice());
        out.push(frame);
        i += 1;
    }
    out
}

/// Renders a program and turns its frames into the form that the GIF format
/// stores: one indexed frame for each rendered canvas, in order, and the
/// failure of the rendering where it has one.
pub fn render_indexed(stmts: Vec<Stmt>) -> (out: Result<Vec<IndexedFrame>, ArithmeticError>)
    ensures
        match rendered(block_view(stmts@)) {
            Ok(frames) => {
                &&& out matches Ok(list)
                &&& list@.len() == frames.len()
                &&& forall|k: int|
                    0 <= k < list@.len() ==> (#[trigger] list@[k])@ == quantized(
                        WIDTH as u16,
                        HEIGHT as u16,
                        frames[k],
                    )
                &&& forall|k: int| 0 <= k < list@.len() ==> (#[trigger] list@[k])@.well_formed()
            },
            Err(e) => out == Err::<Vec<IndexedFrame>, ArithmeticError>(e),
        },
{
    match run_program(stmts) {
        Ok(frames) => {
            let list = index_frames(&frames);
            proof {
                assert forall|k: int| 0 <= k < list@.len() implies (#[trigger] list@[k])@
                    == quantized(WIDTH as u16, HEIGHT as u16, buffers(frames@)[k]) by {
                    assert(buffers(frames@)[k] == frames@[k]@);
                }
            }
            Ok(list)
        },
        Err(e) => Err(e),
    }
}

} // verus!
