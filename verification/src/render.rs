//! The frame driver: every cell of a raster gets the color that a shader
//! gives for it.

use vstd::prelude::*;
use vstd::std_specs::convert::FromSpec;
use crate::image::{Color, Image, lemma_index_in_range, lemma_index_injective};
use crate::vec3::Vec3;

verus! {

/// `pixel` is the color of a vector that `shade` can give for cell `(x, y)`.
pub open spec fn shaded<F: Fn(u32, u32) -> Vec3>(shade: F, x: u32, y: u32, pixel: Color) -> bool {
    exists|v: Vec3| #[trigger] call_ensures(shade, (x, y), v) && pixel == Color::from_spec(v)
}

/// Renders a `width` by `height` raster: `shade` is asked once for every
/// cell, row by row from the first row on and within a row from the first
/// column on, and the cell holds the color of the vector that it answered.
pub fn create_image<F: Fn(u32, u32) -> Vec3>(width: u32, height: u32, shade: F) -> (image: Image)
    requires
        width * height <= u32::MAX,
        forall|x: u32, y: u32| x < width && y < height ==> call_requires(shade, (x, y)),
    ensures
        image.wf(),
        image.width == width,
        image.height == height,
        forall|x: u32, y: u32|
            x < width && y < height ==> shaded(
                shade,
                x,
                y,
                #[trigger] image.pixels@[image.spec_index_of(x, y)],
            ),
{
    let mut image: Image = Image::new(width, height);
    let mut y: u32 = 0;
    while y < height
        invariant
            y <= height,
            image.wf(),
            image.width == width,
            image.height == height,
            forall|x: u32, y: u32| x < width && y < height ==> call_requires(shade, (x, y)),
            forall|cx: u32, cy: u32|
                cx < width && cy < y ==> shaded(
                    shade,
                    cx,
                    cy,
                    #[trigger] image.pixels@[image.spec_index_of(cx, cy)],
                ),
        decreases height - y,
    {
        let mut x: u32 = 0;
        while x < width
            invariant
                y < height,
                x <= width,
                image.wf(),
                image.width == width,
                image.height == height,
                forall|x: u32, y: u32| x < width && y < height ==> call_requires(shade, (x, y)),
                forall|cx: u32, cy: u32|
                    cx < width && (cy < y || (cy == y && cx < x)) ==> shaded(
                        shade,
                        cx,
                        cy,
                        #[trigger] image.pixels@[image.spec_index_of(cx, cy)],
                    ),
            decreases width - x,
        {
            let color: Color = Color::from(shade(x, y));
            let ghost before = image;
            *image.index_mut((x, y)) = color;
            proof {
                lemma_index_in_range(width, height, x, y);
                assert forall|cx: u32, cy: u32|
                    cx < width && (cy < y || (cy == y && cx < x + 1)) implies shaded(
                    shade,
                    cx,
                    cy,
                    #[trigger] image.pixels@[image.spec_index_of(cx, cy)],
                ) by {
                    lemma_index_in_range(width, height, cx, cy);
                    if cx != x || cy != y {
                        if before.spec_index_of(cx, cy) == before.spec_index_of(x, y) {
                            lemma_index_injective(width, cx, cy, x, y);
                        }
                        assert(image.pixels@[image.spec_index_of(cx, cy)]
                            == before.pixels@[before.spec_index_of(cx, cy)]);
                    }
                }
            }
            x += 1;
        }
        y += 1;
    }
    image
}

} // verus!
