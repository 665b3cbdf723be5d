//! Sprite sheets: a texture divided into a grid of equal frames.

use vstd::prelude::*;
use crate::texture::TextureId;

verus! {

/// A texture divided into frames.
#[derive(Clone, Copy, Debug, PartialEq, Eq, Structural)]
pub struct SpriteSheet {
    /// The texture holding all frames.
    pub texture: TextureId,
    /// Width of each frame in pixels.
    pub frame_width: u32,
    /// Height of each frame in pixels.
    pub frame_height: u32,
    /// Number of columns in the sheet.
    pub columns: u32,
    /// Number of rows in the sheet.
    pub rows: u32,
    /// Total number of frames (may be less than columns * rows).
    pub frame_count: u32,
}

impl SpriteSheet {
    /// A sheet of as many whole frames as fit the texture in each direction.
    pub fn new(
        texture: TextureId,
        texture_width: u32,
        texture_height: u32,
        frame_width: u32,
        frame_height: u32,
    ) -> (s: Self)
        requires
            frame_width > 0,
            frame_height > 0,
            (texture_width / frame_width) * (texture_height / frame_height) <= u32::MAX,
        ensures
            s.texture == texture,
            s.frame_width == frame_width,
            s.frame_height == frame_height,
            s.columns == texture_width / frame_width,
            s.rows == texture_height / frame_height,
            s.frame_count == s.columns * s.rows,
    {
        let columns = texture_width / frame_width;
        let rows = texture_height / frame_height;
        SpriteSheet { texture, frame_width, frame_height, columns, rows, frame_count: columns * rows }
    }

    /// The grid cell `(column, row)` of frame `index`, which wraps around
    /// the frame count: the integer part of a frame's UV rectangle.
    pub fn frame_cell(&self, index: u32) -> (cell: (u32, u32))
        requires
            self.frame_count > 0,
            self.columns > 0,
        ensures
            cell.0 == (index % self.frame_count) % self.columns,
            cell.1 == (index % self.frame_count) / self.columns,
            cell.0 < self.columns,
            self.frame_count <= self.columns * self.rows ==> cell.1 < self.rows,
    {
        let index = index % self.frame_count;
        let col = index % self.columns;
        let row = index / self.columns;
        proof {
            if self.frame_count <= self.columns * self.rows {
                lemma_row_in_range(index as int, self.columns as int, self.rows as int);
            }
        }
        (col, row)
    }
}

proof fn lemma_row_in_range(i: int, c: int, r: int)
    requires
        0 <= i < c * r,
        c > 0,
    ensures
        i / c < r,
{
    vstd::arithmetic::div_mod::lemma_fundamental_div_mod(i, c);
    let q = i / c;
    assert(q < r) by (nonlinear_arith)
        requires
            i == c * q + i % c,
            0 <= i % c,
            i < c * r,
            c > 0,
    ;
}

} // verus!
