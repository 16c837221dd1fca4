//! Rendering a spiral as a grayscale image.

use crate::cells::{cell_value, is_ulam_matrix};
use crate::generate::generate_ulam_matrix;
use crate::grid::{array_get, array_rows};
use crate::spiral::lemma_square_grows;
use image::{GrayImage, Luma};
use vstd::prelude::*;

verus! {

/// A grayscale image, one sample for each pixel. It holds an
/// `image::GrayImage`, into which the verifier does not look; what the image
/// shows is told by `canvas_rows`.
#[verifier::external_body]
pub struct Canvas {
    /// The image itself, ready to be encoded and saved.
    pub image: GrayImage,
}

/// The samples of a canvas, top row first, each row left to right: the sample
/// at column `x` of row `y` is what `ImageBuffer::get_pixel(x, y)` holds.
pub uninterp spec fn canvas_rows(canvas: Canvas) -> Seq<Seq<u8>>;

/// `ImageBuffer::new`: an image `width` pixels wide and `height` pixels high
/// whose samples are all zero. The number of pixels must fit a `usize`.
#[verifier::external_body]
pub(crate) fn canvas_new(width: u32, height: u32) -> (canvas: Canvas)
    requires
        width * height <= usize::MAX,
    ensures
        canvas_rows(canvas) == Seq::new(
            height as nat,
            |y: int| Seq::new(width as nat, |x: int| 0u8),
        ),
{
    Canvas { image: GrayImage::new(width, height) }
}

/// `ImageBuffer::put_pixel`: the sample at column `x` of row `y` is replaced
/// and every other one stays. The position must lie inside the image.
#[verifier::external_body]
pub(crate) fn canvas_put(canvas: &mut Canvas, x: u32, y: u32, sample: u8)
    requires
        y < canvas_rows(*old(canvas)).len(),
        x < canvas_rows(*old(canvas))[y as int].len(),
    ensures
        canvas_rows(*final(canvas)) == canvas_rows(*old(canvas)).update(
            y as int,
            canvas_rows(*old(canvas))[y as int].update(x as int, sample),
        ),
{
    canvas.image.put_pixel(x, y, Luma([sample]));
}

/// The brightest sample, which stands for a cell that holds zero.
pub const BRIGHTEST: u8 = 255;

/// The darkest sample, which stands for a cell that holds a prime.
pub const DARKEST: u8 = 0;

/// The sample that stands for a cell value.
pub open spec fn shade_of(value: int) -> int {
    if value == 0 {
        BRIGHTEST as int
    } else {
        DARKEST as int
    }
}

/// `samples` is the picture of the Ulam spiral of dimension `n`: `n` rows of
/// `n` samples, each the shade of the value of its cell.
pub open spec fn is_ulam_picture(samples: Seq<Seq<u8>>, n: int) -> bool {
    &&& samples.len() == n
    &&& forall|y: int| 0 <= y < n ==> (#[trigger] samples[y]).len() == n
    &&& forall|x: int, y: int|
        0 <= x < n && 0 <= y < n ==> (#[trigger] samples[y][x]) as int == shade_of(
            cell_value(n, x, y),
        )
}

/// The sample for a cell value: the brightest for zero, the darkest for
/// anything else.
pub fn shade(value: u32) -> (sample: u8)
    ensures
        sample as int == shade_of(value as int),
{
    if value == 0 {
        BRIGHTEST
    } else {
        DARKEST
    }
}

/// Draws the Ulam spiral of the given dimension: a square image with one pixel
/// for each cell, the darkest sample where the cell holds a prime and the
/// brightest where it holds zero.
pub fn render_ulam_spiral(dimension: u16) -> (canvas: Canvas)
    ensures
        is_ulam_picture(canvas_rows(canvas), dimension as int),
{
    let n: u32 = dimension as u32;
    proof {
        lemma_square_grows(n as int, 65535);
    }
    let mut canvas = canvas_new(n, n);
    let matrix = generate_ulam_matrix(dimension as usize);
    let mut y: u32 = 0;
    while y < n
        invariant
            n == dimension,
            y <= n,
            is_ulam_matrix(array_rows(matrix), n as int),
            canvas_rows(canvas).len() == n,
            forall|j: int| 0 <= j < n ==> (#[trigger] canvas_rows(canvas)[j]).len() == n,
            forall|i: int, j: int|
                0 <= i < n && 0 <= j < y ==> (#[trigger] canvas_rows(canvas)[j][i]) as int
                    == shade_of(cell_value(n as int, i, j)),
        decreases n - y,
    {
        let mut x: u32 = 0;
        while x < n
            invariant
                n == dimension,
                y < n,
                x <= n,
                is_ulam_matrix(array_rows(matrix), n as int),
                canvas_rows(canvas).len() == n,
                forall|j: int| 0 <= j < n ==> (#[trigger] canvas_rows(canvas)[j]).len() == n,
                forall|i: int, j: int|
                    0 <= i < n && 0 <= j < y ==> (#[trigger] canvas_rows(canvas)[j][i]) as int
                        == shade_of(cell_value(n as int, i, j)),
                forall|i: int|
                    0 <= i < x ==> (#[trigger] canvas_rows(canvas)[y as int][i]) as int
                        == shade_of(cell_value(n as int, i, y as int)),
            decreases n - x,
        {
            let value = array_get(&matrix, y as usize, x as usize);
            canvas_put(&mut canvas, x, y, shade(value));
            x += 1;
        }
        y += 1;
    }
    canvas
}

} // verus!
