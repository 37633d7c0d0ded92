//! The RGBA pixel buffer that the web visualizer renders into: row-major, four
//! bytes (red, green, blue, alpha) per pixel.
use vstd::prelude::*;

verus! {

/// Colour of the masking-threshold marks drawn over the bar graph.
pub const MASKING_MARK_COLOR: (u8, u8, u8, u8) = (60u8, 0u8, 10u8, 255u8);

/// An RGBA image of `width` by `height` pixels.
pub struct Canvas {
    width: u32,
    height: u32,
    data: Vec<u8>,
}

/// Distinct pixels of a row-major image occupy distinct byte ranges.
proof fn lemma_pixel_offsets_distinct(w: int, x: int, y: int, x2: int, y2: int)
    requires
        0 <= x < w,
        0 <= x2 < w,
        0 <= y,
        0 <= y2,
        x != x2 || y != y2,
    ensures
        y * w + x != y2 * w + x2,
{
    if y < y2 {
        assert(y * w + x < y2 * w + x2) by (nonlinear_arith)
            requires
                0 <= x < w,
                0 <= x2,
                y < y2,
        ;
    } else if y2 < y {
        assert(y2 * w + x2 < y * w + x) by (nonlinear_arith)
            requires
                0 <= x2 < w,
                0 <= x,
                y2 < y,
        ;
    }
}

/// A pixel inside the image lies inside the byte buffer.
proof fn lemma_pixel_offset_in_bounds(w: int, h: int, x: int, y: int)
    requires
        0 <= x < w,
        0 <= y < h,
    ensures
        0 <= y * w + x,
        (y * w + x) * 4 + 4 <= w * h * 4,
{
    assert(0 <= y * w) by (nonlinear_arith)
        requires
            0 <= y,
            0 <= w,
    ;
    assert(y * w + x < w * h) by (nonlinear_arith)
        requires
            0 <= x < w,
            0 <= y < h,
    ;
}

impl Canvas {
    /// The canvas's internal invariant: one RGBA quadruple per pixel, and the byte
    /// count fits a `u32`.
    pub closed spec fn wf(self) -> bool {
        &&& self.width * self.height * 4 <= u32::MAX
        &&& self.data.len() == self.width * self.height * 4
    }

    /// Width in pixels.
    pub closed spec fn width(self) -> nat {
        self.width as nat
    }

    /// Height in pixels.
    pub closed spec fn height(self) -> nat {
        self.height as nat
    }

    /// The raw bytes, row by row, four per pixel.
    pub closed spec fn bytes(self) -> Seq<u8> {
        self.data@
    }

    /// The RGBA value of the pixel in column `x` and row `y`.
    pub open spec fn pixel(self, x: int, y: int) -> (u8, u8, u8, u8) {
        let b = 4 * (y * self.width() + x);
        (self.bytes()[b], self.bytes()[b + 1], self.bytes()[b + 2], self.bytes()[b + 3])
    }

    /// `self` is `before` with the pixels of columns `x0..x1` and rows `y0..y1` set
    /// to `color` (columns beyond the width are ignored) and every other pixel kept.
    pub open spec fn painted(
        self,
        before: Canvas,
        x0: int,
        x1: int,
        y0: int,
        y1: int,
        color: (u8, u8, u8, u8),
    ) -> bool {
        &&& self.width() == before.width()
        &&& self.height() == before.height()
        &&& forall|x: int, y: int|
            0 <= x < self.width() && 0 <= y < self.height() ==> #[trigger] self.pixel(x, y) == if y0
                <= y < y1 && x0 <= x < x1 {
                color
            } else {
                before.pixel(x, y)
            }
    }

    /// A black, fully transparent canvas of `width` by `height` pixels. The byte
    /// count `width * height * 4` is computed in `u32` and must not overflow.
    pub fn new(width: u32, height: u32) -> (canvas: Self)
        requires
            width * height * 4 <= u32::MAX,
        ensures
            canvas.wf(),
            canvas.width() == width,
            canvas.height() == height,
            canvas.bytes() == Seq::new((width * height * 4) as nat, |i: int| 0u8),
    {
        let len = (width * height * 4) as usize;
        let mut data: Vec<u8> = Vec::with_capacity(len);
        let mut i: usize = 0;
        while i < len
            invariant
                i <= len,
                data.len() == i,
                forall|m: int| 0 <= m < i ==> data@[m] == 0u8,
            decreases len - i,
        {
            data.push(0u8);
            i = i + 1;
        }
        let canvas = Canvas { width, height, data };
        assert(canvas.bytes() =~= Seq::new((width * height * 4) as nat, |i: int| 0u8));
        canvas
    }

    /// Width in pixels.
    pub fn width_px(&self) -> (w: u32)
        ensures
            w == self.width(),
    {
        self.width
    }

    /// Height in pixels.
    pub fn height_px(&self) -> (h: u32)
        ensures
            h == self.height(),
    {
        self.height
    }

    /// The raw RGBA bytes, row by row.
    pub fn as_bytes(&self) -> (bytes: &[u8])
        ensures
            bytes@ == self.bytes(),
    {
        self.data.as_slice()
    }

    /// Sets every byte to zero: black and fully transparent.
    pub fn clear(&mut self)
        requires
            old(self).wf(),
        ensures
            final(self).wf(),
            final(self).width() == old(self).width(),
            final(self).height() == old(self).height(),
            final(self).bytes() == Seq::new(old(self).bytes().len(), |i: int| 0u8),
    {
        let len = self.data.len();
        let mut i: usize = 0;
        while i < len
            invariant
                i <= len,
                len == self.data.len(),
                self.width == old(self).width,
                self.height == old(self).height,
                forall|m: int| 0 <= m < i ==> self.data@[m] == 0u8,
            decreases len - i,
        {
            self.data[i] = 0u8;
            i = i + 1;
        }
        assert(self.bytes() =~= Seq::new(old(self).bytes().len(), |i: int| 0u8));
    }

    /// Paints the pixels of rows `y_start..y_end` and columns
    /// `x_start..min(x_end, width)` with `color`.
    pub fn fill_rect(
        &mut self,
        x_start: usize,
        x_end: usize,
        y_start: usize,
        y_end: usize,
        color: (u8, u8, u8, u8),
    )
        requires
            old(self).wf(),
            y_end <= old(self).height(),
        ensures
            final(self).wf(),
            final(self).painted(*old(self), x_start as int, x_end as int, y_start as int, y_end as int, color),
    {
        let w = self.width as usize;
        let x_stop = if x_end < w {
            x_end
        } else {
            w
        };
        let mut y = y_start;
        while y < y_end
            invariant
                self.wf(),
                w == self.width,
                x_stop == if x_end < w {
                    x_end
                } else {
                    w
                },
                y_end <= self.height,
                self.width == old(self).width,
                self.height == old(self).height,
                y_start <= y,
                y <= y_end || y == y_start,
                self.painted(*old(self), x_start as int, x_end as int, y_start as int, y as int, color),
            decreases y_end - y,
        {
            let mut x = x_start;
            while x < x_stop
                invariant
                    self.wf(),
                    w == self.width,
                    x_stop == if x_end < w {
                        x_end
                    } else {
                        w
                    },
                    y < y_end <= self.height,
                    self.width == old(self).width,
                    self.height == old(self).height,
                    y_start <= y,
                    x_start <= x,
                    x <= x_stop || x == x_start,
                    forall|px: int, py: int|
                        0 <= px < self.width() && 0 <= py < self.height() ==> #[trigger] self.pixel(
                            px,
                            py,
                        ) == if (y_start <= py < y && x_start <= px < x_end) || (py == y && x_start
                            <= px < x) {
                            color
                        } else {
                            old(self).pixel(px, py)
                        },
                decreases x_stop - x,
            {
                proof {
                    lemma_pixel_offset_in_bounds(w as int, self.height as int, x as int, y as int);
                }
                let base = (y * w + x) * 4;
                let ghost before = *self;
                self.data[base] = color.0;
                self.data[base + 1] = color.1;
                self.data[base + 2] = color.2;
                self.data[base + 3] = color.3;
                proof {
                    assert forall|px: int, py: int|
                        0 <= px < self.width() && 0 <= py < self.height() implies #[trigger] self.pixel(
                        px,
                        py,
                    ) == if px == x && py == y {
                        color
                    } else {
                        before.pixel(px, py)
                    } by {
                        lemma_pixel_offset_in_bounds(w as int, self.height as int, px, py);
                        if px != x || py != y {
                            lemma_pixel_offsets_distinct(w as int, px, py, x as int, y as int);
                        }
                    }
                }
                x = x + 1;
            }
            assert forall|px: int, py: int|
                0 <= px < self.width() && 0 <= py < self.height() implies #[trigger] self.pixel(px, py)
                == if y_start <= py < y + 1 && x_start <= px < x_end {
                color
            } else {
                old(self).pixel(px, py)
            } by {
                assert(self.pixel(px, py) == if (y_start <= py < y && x_start <= px < x_end) || (py
                    == y && x_start <= px < x) {
                    color
                } else {
                    old(self).pixel(px, py)
                });
                if py == y && x_start <= px < x_end {
                    assert(px < self.width());
                    assert(px < x);
                }
            }
            y = y + 1;
        }
    }

    /// Draws one bar of the bar graph: the bar graph occupies rows
    /// `0..bargraph_height`, and the bar rises `bar_height` rows from its bottom over
    /// columns `start_x..end_x`, opaque in colour `rgb`.
    pub fn draw_bar(
        &mut self,
        bargraph_height: usize,
        bar_height: usize,
        start_x: usize,
        end_x: usize,
        rgb: (u8, u8, u8),
    )
        requires
            old(self).wf(),
            bar_height <= bargraph_height <= old(self).height(),
        ensures
            final(self).wf(),
            final(self).painted(
                *old(self),
                start_x as int,
                end_x as int,
                bargraph_height - bar_height,
                bargraph_height as int,
                (rgb.0, rgb.1, rgb.2, 255u8),
            ),
    {
        self.fill_rect(
            start_x,
            end_x,
            bargraph_height - bar_height,
            bargraph_height,
            (rgb.0, rgb.1, rgb.2, 255u8),
        );
    }

    /// Marks a masking threshold in the bar graph: three rows from `mask_y` down
    /// (cut off at the bottom of the bar graph) over columns `start_x..end_x`, in the
    /// masking-mark colour; nothing when `mask_y` lies below the bar graph.
    pub fn draw_masking_mark(
        &mut self,
        bargraph_height: usize,
        mask_y: usize,
        start_x: usize,
        end_x: usize,
    )
        requires
            old(self).wf(),
            bargraph_height <= old(self).height(),
        ensures
            final(self).wf(),
            mask_y < bargraph_height ==> final(self).painted(
                *old(self),
                start_x as int,
                end_x as int,
                mask_y as int,
                if mask_y + 3 <= bargraph_height {
                    mask_y + 3
                } else {
                    bargraph_height as int
                },
                MASKING_MARK_COLOR,
            ),
            mask_y >= bargraph_height ==> *final(self) == *old(self),
    {
        if mask_y < bargraph_height {
            let last = if bargraph_height - 1 - mask_y > 2 {
                mask_y + 2
            } else {
                bargraph_height - 1
            };
            self.fill_rect(start_x, end_x, mask_y, last + 1, MASKING_MARK_COLOR);
        }
    }

    /// Draws one row of the scrolling spectrogram: row `y`, columns
    /// `start_x..end_x`, opaque in colour `rgb`.
    pub fn draw_row_span(&mut self, y: usize, start_x: usize, end_x: usize, rgb: (u8, u8, u8))
        requires
            old(self).wf(),
            y < old(self).height(),
        ensures
            final(self).wf(),
            final(self).painted(
                *old(self),
                start_x as int,
                end_x as int,
                y as int,
                y + 1,
                (rgb.0, rgb.1, rgb.2, 255u8),
            ),
    {
        self.fill_rect(start_x, end_x, y, y + 1, (rgb.0, rgb.1, rgb.2, 255u8));
    }
}

} // verus!
