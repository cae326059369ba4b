use vstd::prelude::*;

use crate::vec3::Color;

verus! {

/// The RGBA word of colour `c` drawn opaque: `R << 24 | G << 16 | B << 8 | 0xFF`.
pub open spec fn packed_spec(c: Color) -> u32 {
    (c.r as int * 0x100_0000 + c.g as int * 0x1_0000 + c.b as int * 0x100 + 0xff) as u32
}

/// The four bytes R, G, B, A of an RGBA word, most significant first.
pub open spec fn rgba_spec(p: u32) -> Seq<u8> {
    seq![(p / 0x100_0000) as u8, ((p / 0x1_0000) % 0x100) as u8, ((p / 0x100) % 0x100) as u8, (p % 0x100) as u8]
}

/// Packs an opaque colour into an RGBA word.
pub fn pack_color(c: Color) -> (r: u32)
    ensures
        r == packed_spec(c),
{
    let r = c.r as u32;
    let g = c.g as u32;
    let b = c.b as u32;
    let p = r << 24u32 | g << 16u32 | b << 8u32 | 0xffu32;
    assert(p == r * 0x100_0000 + g * 0x1_0000 + b * 0x100 + 0xff) by (bit_vector)
        requires
            r < 256,
            g < 256,
            b < 256,
            p == r << 24u32 | g << 16u32 | b << 8u32 | 0xffu32,
    ;
    p
}

/// Splits an RGBA word into its bytes R, G, B, A.
pub fn rgba_bytes(p: u32) -> (r: [u8; 4])
    ensures
        r@ == rgba_spec(p),
{
    let red = (p >> 24u32) as u8;
    let green = ((p & 0x00FF_0000u32) >> 16u32) as u8;
    let blue = ((p & 0x0000_FF00u32) >> 8u32) as u8;
    let alpha = (p & 0x0000_00FFu32) as u8;
    assert((p >> 24u32) == p / 0x100_0000 && ((p & 0x00FF_0000u32) >> 16u32) == (p / 0x1_0000) % 0x100 && ((p
        & 0x0000_FF00u32) >> 8u32) == (p / 0x100) % 0x100 && (p & 0x0000_00FFu32) == p % 0x100) by (bit_vector);
    let out = [red, green, blue, alpha];
    assert(out@ =~= rgba_spec(p));
    out
}

/// An opaque colour unpacks to its own channels and an alpha of 0xFF.
pub proof fn lemma_pack_round_trip(c: Color)
    ensures
        rgba_spec(packed_spec(c)) == seq![c.r, c.g, c.b, 0xffu8],
{
    let p = packed_spec(c);
    let r = c.r as int;
    let g = c.g as int;
    let b = c.b as int;
    assert(p == r * 0x100_0000 + g * 0x1_0000 + b * 0x100 + 0xff);
    assert(p / 0x100_0000 == r);
    assert((p / 0x1_0000) % 0x100 == g);
    assert((p / 0x100) % 0x100 == b);
    assert(p % 0x100 == 0xff);
    assert(rgba_spec(p) =~= seq![c.r, c.g, c.b, 0xffu8]);
}

/// A `width` by `height` grid of RGBA words, row by row: cell `(x, y)` is
/// word `y * width + x`. Every word starts as 0, a transparent black.
pub struct Framebuffer {
    width: usize,
    height: usize,
    pixels: Vec<u32>,
}

/// Cell of linear position `i` in a grid `width` wide.
pub struct PixelRef {
    pub x: usize,
    pub y: usize,
    pub index: usize,
}

impl Framebuffer {
    pub closed spec fn width_spec(&self) -> nat {
        self.width as nat
    }

    pub closed spec fn height_spec(&self) -> nat {
        self.height as nat
    }

    pub closed spec fn pixels_spec(&self) -> Seq<u32> {
        self.pixels@
    }

    pub open spec fn wf(&self) -> bool {
        self.pixels_spec().len() == self.width_spec() * self.height_spec()
    }

    /// A grid of `width * height` transparent cells.
    pub fn new(width: usize, height: usize) -> (r: Framebuffer)
        requires
            width * height <= usize::MAX,
        ensures
            r.wf(),
            r.width_spec() == width,
            r.height_spec() == height,
            forall|i: int| 0 <= i < width * height ==> #[trigger] r.pixels_spec()[i] == 0,
    {
        let size = width * height;
        let mut pixels: Vec<u32> = Vec::new();
        let mut i: usize = 0;
        while i < size
            invariant
                i <= size,
                pixels@.len() == i,
                forall|j: int| 0 <= j < i ==> #[trigger] pixels@[j] == 0,
            decreases size - i,
        {
            pixels.push(0);
            i = i + 1;
        }
        Framebuffer { width, height, pixels }
    }

    /// A grid from its words, row by row; there must be `width * height`.
    pub fn from_pixels(width: usize, height: usize, pixels: Vec<u32>) -> (r: Framebuffer)
        requires
            pixels@.len() == width * height,
        ensures
            r.wf(),
            r.width_spec() == width,
            r.height_spec() == height,
            r.pixels_spec() == pixels@,
    {
        Framebuffer { width, height, pixels }
    }

    pub fn width(&self) -> (r: usize)
        ensures
            r == self.width_spec(),
    {
        self.width
    }

    pub fn height(&self) -> (r: usize)
        ensures
            r == self.height_spec(),
    {
        self.height
    }

    /// The word of cell `(x, y)`.
    pub fn pixel(&self, x: usize, y: usize) -> (r: u32)
        requires
            self.wf(),
            x < self.width_spec(),
            y < self.height_spec(),
        ensures
            r == self.pixels_spec()[y * self.width_spec() + x],
    {
        let n = self.pixels.len();
        proof {
            lemma_cell_in_grid(x as int, y as int, self.width as int, self.height as int);
        }
        self.pixels[y * self.width + x]
    }

    /// The word of cell `(x, y)`, to write.
    pub fn pixel_mut(&mut self, x: usize, y: usize) -> (r: &mut u32)
        requires
            old(self).wf(),
            x < old(self).width_spec(),
            y < old(self).height_spec(),
        ensures
            *r == old(self).pixels_spec()[y * old(self).width_spec() + x],
            final(self).width_spec() == old(self).width_spec(),
            final(self).height_spec() == old(self).height_spec(),
            final(self).pixels_spec() == old(self).pixels_spec().update(
                y * old(self).width_spec() + x,
                *final(r),
            ),
    {
        let n = self.pixels.len();
        proof {
            lemma_cell_in_grid(x as int, y as int, self.width as int, self.height as int);
        }
        let index = y * self.width + x;
        &mut self.pixels[index]
    }

    /// Every cell, as one splittable range of linear positions.
    pub fn into_par_iter(&self) -> (r: ParIter)
        requires
            self.wf(),
        ensures
            r.width == self.width_spec(),
            r.start == 0,
            r.end == self.width_spec() * self.height_spec(),
    {
        ParIter { width: self.width, start: 0, end: self.pixels.len() }
    }

    /// The words as 8-bit RGBA bytes, four per cell, row by row.
    pub fn to_rgba8(&self) -> (r: Vec<u8>)
        requires
            self.wf(),
            4 * self.pixels_spec().len() <= usize::MAX,
        ensures
            r@.len() == 4 * self.pixels_spec().len(),
            forall|i: int, c: int|
                0 <= i < self.pixels_spec().len() && 0 <= c < 4 ==> #[trigger] r@[4 * i + c] == rgba_spec(
                    self.pixels_spec()[i],
                )[c],
    {
        let mut out: Vec<u8> = Vec::new();
        let mut i: usize = 0;
        while i < self.pixels.len()
            invariant
                i <= self.pixels@.len(),
                4 * self.pixels@.len() <= usize::MAX,
                out@.len() == 4 * i,
                forall|j: int, c: int| 0 <= j < i && 0 <= c < 4 ==> #[trigger] out@[4 * j + c] == rgba_spec(self.pixels@[j])[c],
            decreases self.pixels@.len() - i,
        {
            let bytes = rgba_bytes(self.pixels[i]);
            let ghost before = out@;
            out.push(bytes[0]);
            out.push(bytes[1]);
            out.push(bytes[2]);
            out.push(bytes[3]);
            proof {
                assert forall|j: int, c: int| 0 <= j < i + 1 && 0 <= c < 4 implies #[trigger] out@[4 * j + c] == rgba_spec(self.pixels@[j])[c] by {
                    if j < i {
                        assert(out@[4 * j + c] == before[4 * j + c]);
                    }
                }
            }
            i = i + 1;
        }
        out
    }
}

/// Cell `(x, y)` of a `w` by `h` grid has a linear position inside it.
proof fn lemma_cell_in_grid(x: int, y: int, w: int, h: int)
    requires
        0 <= x < w,
        0 <= y < h,
    ensures
        0 <= y * w,
        0 <= y * w + x < w * h,
{
    assert(0 <= y * w && 0 <= y * w + x < w * h) by (nonlinear_arith)
        requires
            0 <= x < w,
            0 <= y < h,
    ;
}

/// The cell at linear position `i` of a grid `w` wide.
pub open spec fn cell_at(i: int, w: int) -> (int, int) {
    (i % w, i / w)
}

/// Each linear position of a `w` by `h` grid names exactly one cell of the
/// grid, and that cell's position is `i` again.
pub proof fn lemma_cell_at_round_trip(i: int, w: int, h: int)
    requires
        w > 0,
        0 <= i < w * h,
    ensures
        0 <= cell_at(i, w).0 < w,
        0 <= cell_at(i, w).1 < h,
        cell_at(i, w).1 * w + cell_at(i, w).0 == i,
{
    vstd::arithmetic::div_mod::lemma_fundamental_div_mod(i, w);
    assert(0 <= i / w < h) by (nonlinear_arith)
        requires
            w > 0,
            0 <= i < w * h,
            i == w * (i / w) + i % w,
            0 <= i % w < w,
    ;
    assert((i / w) * w == w * (i / w)) by (nonlinear_arith);
}

/// A sequential walk over the linear positions `[start, end)` of a grid
/// `width` wide, from either end.
pub struct Iter {
    pub width: usize,
    pub start: usize,
    pub end: usize,
}

impl Iter {
    /// The next cell from the front.
    pub fn next(&mut self) -> (r: Option<PixelRef>)
        requires
            old(self).width > 0,
        ensures
            final(self).width == old(self).width,
            final(self).end == old(self).end,
            old(self).start >= old(self).end ==> r is None && final(self).start == old(self).start,
            old(self).start < old(self).end ==> final(self).start == old(self).start + 1 && r == Some(
                PixelRef {
                    x: (old(self).start % old(self).width) as usize,
                    y: (old(self).start / old(self).width) as usize,
                    index: old(self).start,
                },
            ),
    {
        if self.start >= self.end {
            return None;
        }
        let pixel = PixelRef { x: self.start % self.width, y: self.start / self.width, index: self.start };
        self.start = self.start + 1;
        Some(pixel)
    }

    /// The next cell from the back.
    pub fn next_back(&mut self) -> (r: Option<PixelRef>)
        requires
            old(self).width > 0,
        ensures
            final(self).width == old(self).width,
            final(self).start == old(self).start,
            old(self).start >= old(self).end ==> r is None && final(self).end == old(self).end,
            old(self).start < old(self).end ==> final(self).end == old(self).end - 1 && r == Some(
                PixelRef {
                    x: ((old(self).end - 1) % old(self).width as int) as usize,
                    y: ((old(self).end - 1) / old(self).width as int) as usize,
                    index: (old(self).end - 1) as usize,
                },
            ),
    {
        if self.start >= self.end {
            return None;
        }
        self.end = self.end - 1;
        Some(PixelRef { x: self.end % self.width, y: self.end / self.width, index: self.end })
    }

    /// Cells left.
    pub fn len(&self) -> (r: usize)
        ensures
            r == if self.start <= self.end {
                self.end - self.start
            } else {
                0
            },
    {
        if self.start <= self.end {
            self.end - self.start
        } else {
            0
        }
    }
}

/// A range `[start, end)` of linear positions of a grid `width` wide that
/// splits into two adjoining ranges for parallel work.
pub struct ParIter {
    pub width: usize,
    pub start: usize,
    pub end: usize,
}

impl ParIter {
    /// Cells in the range.
    pub fn len(&self) -> (r: usize)
        ensures
            r == if self.start <= self.end {
                self.end - self.start
            } else {
                0
            },
    {
        if self.start <= self.end {
            self.end - self.start
        } else {
            0
        }
    }

    /// Splits after the first `index` cells; both halves must be non-empty.
    pub fn split_at(self, index: usize) -> (r: (ParIter, ParIter))
        requires
            self.start < self.start + index < self.end,
        ensures
            r.0 == (ParIter { width: self.width, start: self.start, end: (self.start + index) as usize }),
            r.1 == (ParIter { width: self.width, start: (self.start + index) as usize, end: self.end }),
    {
        let mid = self.start + index;
        (ParIter { width: self.width, start: self.start, end: mid }, ParIter { width: self.width, start: mid, end: self.end })
    }

    /// A sequential walk over the same range.
    pub fn into_iter(self) -> (r: Iter)
        ensures
            r == (Iter { width: self.width, start: self.start, end: self.end }),
    {
        Iter { width: self.width, start: self.start, end: self.end }
    }
}

} // verus!
