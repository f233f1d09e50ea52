use vstd::prelude::*;
use crate::types::{Dimensions, TileCorner};

verus! {

/// Bytes stored for each pixel: red, green, blue.
pub const COLOR_CHANNELS: usize = 3;

/// A rectangular block of 8-bit RGB pixels, stored row by row, together with
/// the place of its upper left corner in the whole image.
#[derive(Debug)]
pub struct PngTile {
    dimensions: Dimensions,
    upper_left: TileCorner,
    buffer: Vec<u8>,
}

/// What a tile is: its width and height, its upper left corner, and its
/// bytes row by row.
pub struct TileView {
    pub dims: Dimensions,
    pub corner: TileCorner,
    pub bytes: Seq<u8>,
}

/// The lesser of two numbers.
pub open spec fn lesser(a: usize, b: usize) -> usize {
    if a <= b {
        a
    } else {
        b
    }
}

/// Two tiles glued together vertically, `top` above `bottom`: the width of
/// the upper one, both heights added, the lesser corner in each coordinate,
/// and the bytes of the upper one followed by those of the lower one.
pub open spec fn spec_join(top: TileView, bottom: TileView) -> TileView {
    TileView {
        dims: Dimensions(top.dims.0, (top.dims.1 + bottom.dims.1) as usize),
        corner: TileCorner(
            lesser(top.corner.0, bottom.corner.0),
            lesser(top.corner.1, bottom.corner.1),
        ),
        bytes: top.bytes + bottom.bytes,
    }
}

impl PngTile {
    /// The tile as a value.
    pub open spec fn view(&self) -> TileView {
        TileView { dims: self.dims(), corner: self.corner(), bytes: self.bytes() }
    }

    /// A copy of the tile.
    pub fn duplicate(&self) -> (tile: Self)
        ensures
            tile@ == self@,
    {
        let buffer = self.buffer.clone();
        assert(buffer@ =~= self.buffer@);
        Self { dimensions: self.dimensions, upper_left: self.upper_left, buffer }
    }

    /// Width and height of the tile.
    pub closed spec fn dims(&self) -> Dimensions {
        self.dimensions
    }

    /// Upper left corner of the tile in the image.
    pub closed spec fn corner(&self) -> TileCorner {
        self.upper_left
    }

    /// The tile's bytes, row by row, three for each pixel.
    pub closed spec fn bytes(&self) -> Seq<u8> {
        self.buffer@
    }

    /// The buffer holds exactly three bytes for each pixel of the tile.
    pub open spec fn wf(&self) -> bool {
        self.bytes().len() == self.dims().0 * self.dims().1 * COLOR_CHANNELS
    }

    /// Creates a black tile with the upper left corner at the origin.
    pub fn new(dimensions: Dimensions) -> (tile: Self)
        requires
            dimensions.0 * dimensions.1 * COLOR_CHANNELS <= usize::MAX,
        ensures
            tile.wf(),
            tile.dims() == dimensions,
            tile.corner() == TileCorner(0, 0),
            tile.bytes() == Seq::new(
                (dimensions.0 * dimensions.1 * COLOR_CHANNELS) as nat,
                |i: int| 0u8,
            ),
    {
        Self::with_offset(dimensions, TileCorner::default())
    }

    /// Creates a black tile with the given upper left corner.
    pub fn with_offset(dimensions: Dimensions, offset: TileCorner) -> (tile: Self)
        requires
            dimensions.0 * dimensions.1 * COLOR_CHANNELS <= usize::MAX,
        ensures
            tile.wf(),
            tile.dims() == dimensions,
            tile.corner() == offset,
            tile.bytes() == Seq::new(
                (dimensions.0 * dimensions.1 * COLOR_CHANNELS) as nat,
                |i: int| 0u8,
            ),
    {
        let Dimensions(width, height) = dimensions;
        proof {
            assert(width * height <= width * height * COLOR_CHANNELS) by (nonlinear_arith)
                requires
                    COLOR_CHANNELS == 3,
            ;
        }
        let buffer: Vec<u8> = vec![0u8; width * height * COLOR_CHANNELS];
        assert(buffer@ =~= Seq::new(
            (dimensions.0 * dimensions.1 * COLOR_CHANNELS) as nat,
            |i: int| 0u8,
        ));

        Self { dimensions, upper_left: offset, buffer }
    }

    /// Whether the image pixel in column `x`, row `y` lies inside the tile.
    pub open spec fn holds(&self, x: usize, y: usize) -> bool {
        &&& self.corner().0 <= x < self.corner().0 + self.dims().0
        &&& self.corner().1 <= y < self.corner().1 + self.dims().1
    }

    /// Where in the buffer the pixel in column `x`, row `y` of the image starts.
    pub open spec fn spec_index(&self, x: usize, y: usize) -> int {
        ((x - self.corner().0) + self.dims().0 * (y - self.corner().1)) * COLOR_CHANNELS
    }

    /// The place of a pixel inside the tile is inside its buffer.
    pub proof fn lemma_index_in_buffer(&self, x: usize, y: usize)
        requires
            self.wf(),
            self.holds(x, y),
        ensures
            0 <= self.spec_index(x, y),
            self.spec_index(x, y) + COLOR_CHANNELS <= self.bytes().len(),
            0 <= self.dims().0 * (y - self.corner().1),
            (x - self.corner().0) + self.dims().0 * (y - self.corner().1) < self.dims().0
                * self.dims().1,
            self.dims().0 * self.dims().1 <= self.bytes().len(),
    {
        let w: int = self.dims().0 as int;
        let h: int = self.dims().1 as int;
        let dx: int = x - self.corner().0;
        let dy: int = y - self.corner().1;
        assert(0 <= w * dy && w * dy + w <= w * h) by (nonlinear_arith)
            requires
                0 <= dy < h,
                0 <= w,
        ;
        assert((dx + w * dy) * 3 + 3 <= w * h * 3 && w * h <= w * h * 3) by (nonlinear_arith)
            requires
                0 <= dx < w,
                0 <= w * dy,
                w * dy + w <= w * h,
        ;
    }

    /// The width and height of the tile.
    pub fn dimensions(&self) -> (dimensions: Dimensions)
        ensures
            dimensions == self.dims(),
    {
        self.dimensions
    }

    /// The upper left corner of the tile in the image.
    pub fn upper_left(&self) -> (corner: TileCorner)
        ensures
            corner == self.corner(),
    {
        self.upper_left
    }

    /// The bytes of the tile, row by row.
    pub fn buffer(&self) -> (buffer: &Vec<u8>)
        ensures
            buffer@ == self.bytes(),
    {
        &self.buffer
    }

    /// Whether the pixel in column `x`, row `y` of the image can be written:
    /// it lies neither left of nor above the tile's corner, and its three
    /// bytes lie inside the buffer.
    pub open spec fn writable(&self, x: usize, y: usize) -> bool {
        &&& self.corner().0 <= x
        &&& self.corner().1 <= y
        &&& self.spec_index(x, y) + COLOR_CHANNELS <= self.bytes().len()
    }

    /// A pixel inside a tile whose buffer has its full size can be written.
    pub proof fn lemma_inside_is_writable(&self, x: usize, y: usize)
        requires
            self.wf(),
            self.holds(x, y),
        ensures
            self.writable(x, y),
    {
        self.lemma_index_in_buffer(x, y);
    }

    /// Does the offset arithmetic for the pixel in column `x`, row `y` of the
    /// image, the tile laid flat row by row. The pixel lies neither left of
    /// nor above the tile's corner, and the offset fits the machine's word.
    pub fn index(&self, x: usize, y: usize) -> (index: usize)
        requires
            self.corner().0 <= x,
            self.corner().1 <= y,
            self.spec_index(x, y) <= usize::MAX,
        ensures
            index == self.spec_index(x, y),
    {
        let Dimensions(width, _) = self.dimensions;
        let TileCorner(x0, y0) = self.upper_left;
        proof {
            let dx: int = x - x0;
            let dy: int = y - y0;
            let w: int = width as int;
            assert(0 <= w * dy) by (nonlinear_arith)
                requires
                    0 <= w,
                    0 <= dy,
            ;
            assert(w * dy <= dx + w * dy <= (dx + w * dy) * 3);
        }

        ((x - x0) + width * (y - y0)) * COLOR_CHANNELS
    }

    /// Writes the three bytes of one pixel, already gamma encoded, at column
    /// `x`, row `y` of the image. Every other byte of the tile stays.
    pub fn set(&mut self, x: usize, y: usize, value: [u8; 3])
        requires
            old(self).writable(x, y),
        ensures
            final(self).wf() == old(self).wf(),
            final(self).dims() == old(self).dims(),
            final(self).corner() == old(self).corner(),
            final(self).bytes() == old(self).bytes().update(
                old(self).spec_index(x, y),
                value[0],
            ).update(old(self).spec_index(x, y) + 1, value[1]).update(
                old(self).spec_index(x, y) + 2,
                value[2],
            ),
    {
        proof {
            assert(self.buffer@.len() == self.buffer.len());
        }
        let index: usize = self.index(x, y);

        self.buffer[index] = value[0];
        self.buffer[index + 1] = value[1];
        self.buffer[index + 2] = value[2];
    }

    /// Glues two tiles together vertically, `self` on top. The corner of the
    /// result is the lesser of the two corners in each coordinate.
    pub fn join_vertical(self, other: Self) -> (tile: Self)
        requires
            self.dims().1 + other.dims().1 <= usize::MAX,
        ensures
            tile@ == spec_join(self@, other@),
            self.wf() && other.wf() && self.dims().0 == other.dims().0 ==> tile.wf(),
    {
        let new_dimensions = Dimensions(self.dimensions.0, self.dimensions.1 + other.dimensions.1);
        let new_offset = TileCorner(
            if self.upper_left.0 <= other.upper_left.0 {
                self.upper_left.0
            } else {
                other.upper_left.0
            },
            if self.upper_left.1 <= other.upper_left.1 {
                self.upper_left.1
            } else {
                other.upper_left.1
            },
        );
        proof {
            let w: int = self.dims().0 as int;
            let a: int = self.dims().1 as int;
            let b: int = other.dims().1 as int;
            assert(w * (a + b) * 3 == w * a * 3 + w * b * 3) by (nonlinear_arith);
        }

        let mut buffer = self.buffer;
        let mut rest = other.buffer;
        buffer.append(&mut rest);

        Self { dimensions: new_dimensions, upper_left: new_offset, buffer }
    }
}

} // verus!
