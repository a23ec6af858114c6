use vstd::prelude::*;
use crate::band::{Band, band_pixels, band_seq, lemma_band_seq_within};
use crate::plane::{moved, move_block};

verus! {

/// A pixel colour: red, green, blue.
pub type Rgb = (u8, u8, u8);

/// Why a pixel field cannot be made.
#[derive(Clone, Copy, Debug, PartialEq, Eq, Structural)]
pub enum RasterError {
    /// The width or the height is zero.
    InvalidDimensions,
    /// `width * height` pixels cannot be addressed on this machine.
    FieldTooLarge,
}

/// A `width` by `height` raster held as three byte planes, row-major:
/// pixel `(row, col)` lies at `row * width + col` in each plane.
pub struct PixelField {
    width: u32,
    height: u32,
    cells_r: Vec<u8>,
    cells_g: Vec<u8>,
    cells_b: Vec<u8>,
}

/// The index of pixel `(row, col)` in a row-major raster of the given width.
pub open spec fn pixel_index(width: int, row: int, col: int) -> int {
    row * width + col
}

/// Three planes read together as one sequence of colours.
pub open spec fn zip_planes(r: Seq<u8>, g: Seq<u8>, b: Seq<u8>) -> Seq<Rgb> {
    Seq::new(r.len(), |i: int| (r[i], g[i], b[i]))
}

/// `s` after a vertical pan by `offset` rows: row `row` takes what row
/// `row + offset` held, where that row exists; the other pixels keep their
/// value until they are painted again.
pub open spec fn shifted_rows<A>(width: int, s: Seq<A>, offset: int) -> Seq<A> {
    Seq::new(
        s.len(),
        |i: int| if 0 <= i + offset * width < s.len() { s[i + offset * width] } else { s[i] },
    )
}

/// `s` after a horizontal pan by `offset` columns: column `col` takes what
/// column `col + offset` of the same row held, where that column exists; the
/// other pixels keep their value until they are painted again.
pub open spec fn shifted_cols<A>(width: int, s: Seq<A>, offset: int) -> Seq<A> {
    Seq::new(
        s.len(),
        |i: int| if 0 <= i % width + offset < width { s[i + offset] } else { s[i] },
    )
}

/// `s` after colour `cs[k]` was written at pixel `px[k]`, for each `k` in turn.
pub open spec fn painted(width: int, s: Seq<Rgb>, px: Seq<(u32, u32)>, cs: Seq<Rgb>) -> Seq<Rgb>
    decreases px.len(),
{
    if px.len() == 0 {
        s
    } else {
        let k = px.len() - 1;
        painted(width, s, px.drop_last(), cs).update(
            pixel_index(width, px[k].0 as int, px[k].1 as int),
            cs[k],
        )
    }
}

/// The whole raster, rows and columns ascending.
pub open spec fn full_band(width: u32, height: u32) -> Band {
    Band { row_start: 0, row_end: height, col_start: 0, col_end: width }
}

/// The rows that a vertical pan by `offset` leaves to be painted: none for
/// zero, all when the pan is at least the height, else the `|offset|` rows
/// on the side the view moved to, visited from the outer edge inward.
pub open spec fn vertical_band(width: u32, height: u32, offset: i64) -> Band {
    if offset == 0 {
        Band { row_start: 0, row_end: 0, col_start: 0, col_end: width }
    } else if offset <= -(height as int) || offset >= height {
        full_band(width, height)
    } else if offset < 0 {
        Band { row_start: 0, row_end: (-offset) as u32, col_start: 0, col_end: width }
    } else {
        Band { row_start: height, row_end: (height - offset) as u32, col_start: 0, col_end: width }
    }
}

/// The columns that a horizontal pan by `offset` leaves to be painted: none
/// for zero, all when the pan is at least the width, else the `|offset|`
/// columns on the side the view moved to, visited from the outer edge inward.
pub open spec fn horizontal_band(width: u32, height: u32, offset: i64) -> Band {
    if offset == 0 {
        Band { row_start: 0, row_end: height, col_start: 0, col_end: 0 }
    } else if offset <= -(width as int) || offset >= width {
        full_band(width, height)
    } else if offset < 0 {
        Band { row_start: 0, row_end: height, col_start: 0, col_end: (-offset) as u32 }
    } else {
        Band { row_start: 0, row_end: height, col_start: width, col_end: (width - offset) as u32 }
    }
}

/// `row * width + col` as a plane index.
pub fn get_index(width: u32, row: u32, column: u32) -> (r: usize)
    requires
        row as int * width as int + column as int <= usize::MAX,
    ensures
        r as int == pixel_index(width as int, row as int, column as int),
{
    assert(0 <= row as int * width as int) by (nonlinear_arith);
    assert(row as int * width as int <= usize::MAX);
    row as usize * width as usize + column as usize
}

proof fn lemma_index_in_field(width: int, height: int, row: int, col: int)
    requires
        0 <= row < height,
        0 <= col < width,
    ensures
        0 <= row * width,
        row * width + col < width * height,
        row * width + width <= width * height,
{
    assert(0 <= row * width) by (nonlinear_arith)
        requires 0 <= row, 0 <= width;
    assert(row * width + width <= width * height) by (nonlinear_arith)
        requires row < height, 0 <= width;
}

/// Index `i` in row `row` has column `i - row * width`.
proof fn lemma_row_col(width: int, row: int, i: int)
    requires
        width > 0,
        0 <= row,
        row * width <= i < row * width + width,
    ensures
        i % width == i - row * width,
        i / width == row,
{
    vstd::arithmetic::div_mod::lemma_fundamental_div_mod_converse(i, width, row, i - row * width);
}

/// Every index has a column in `[0, width)`.
proof fn lemma_col_bound(width: int, i: int)
    requires
        width > 0,
    ensures
        0 <= i % width < width,
{
    vstd::arithmetic::div_mod::lemma_mod_bound(i, width);
}

proof fn lemma_zip_moved(r: Seq<u8>, g: Seq<u8>, b: Seq<u8>, src: int, len: int, dst: int)
    requires
        r.len() == g.len() == b.len(),
        0 <= src,
        src + len <= r.len(),
        0 <= dst,
        dst + len <= r.len(),
    ensures
        zip_planes(moved(r, src, len, dst), moved(g, src, len, dst), moved(b, src, len, dst))
            == moved(zip_planes(r, g, b), src, len, dst),
{
    assert(zip_planes(moved(r, src, len, dst), moved(g, src, len, dst), moved(b, src, len, dst))
        =~= moved(zip_planes(r, g, b), src, len, dst));
}

impl View for PixelField {
    type V = Seq<Rgb>;

    /// The pixels in row-major order.
    closed spec fn view(&self) -> Seq<Rgb> {
        zip_planes(self.cells_r@, self.cells_g@, self.cells_b@)
    }
}

impl PixelField {
    /// The width in pixels.
    pub closed spec fn spec_width(&self) -> u32 {
        self.width
    }

    /// The height in pixels.
    pub closed spec fn spec_height(&self) -> u32 {
        self.height
    }

    /// Each plane holds exactly one byte per pixel.
    pub closed spec fn planes_agree(&self) -> bool {
        &&& self.cells_r@.len() == self@.len()
        &&& self.cells_g@.len() == self@.len()
        &&& self.cells_b@.len() == self@.len()
    }

    /// Both sides are positive, every pixel is addressable, and each plane
    /// holds one byte per pixel.
    pub open spec fn wf(&self) -> bool {
        &&& self.spec_width() > 0
        &&& self.spec_height() > 0
        &&& self.spec_width() * self.spec_height() <= usize::MAX
        &&& self@.len() == self.spec_width() * self.spec_height()
        &&& self.planes_agree()
    }

    /// A black field of the given size.
    pub fn new(width: u32, height: u32) -> (r: Result<PixelField, RasterError>)
        ensures
            width == 0 || height == 0 <==> r == Err::<PixelField, RasterError>(
                RasterError::InvalidDimensions,
            ),
            width > 0 && height > 0 && width * height > usize::MAX <==> r == Err::<
                PixelField,
                RasterError,
            >(RasterError::FieldTooLarge),
            r is Ok ==> {
                let f = r->Ok_0;
                &&& f.wf()
                &&& f.spec_width() == width
                &&& f.spec_height() == height
                &&& f@ == Seq::new((width * height) as nat, |i: int| (0u8, 0u8, 0u8))
            },
    {
        if width == 0 || height == 0 {
            return Err(RasterError::InvalidDimensions);
        }
        assert(width as int * height as int <= u32::MAX as int * u32::MAX as int) by (nonlinear_arith)
            requires width <= u32::MAX, height <= u32::MAX;
        let wide = width as u64 * height as u64;
        if wide > usize::MAX as u64 {
            return Err(RasterError::FieldTooLarge);
        }
        let n = wide as usize;
        let mut cells_r: Vec<u8> = Vec::new();
        let mut cells_g: Vec<u8> = Vec::new();
        let mut cells_b: Vec<u8> = Vec::new();
        let mut i: usize = 0;
        while i < n
            invariant
                i <= n,
                cells_r@.len() == i,
                cells_g@.len() == i,
                cells_b@.len() == i,
                forall|k: int| 0 <= k < i ==> cells_r@[k] == 0 && cells_g@[k] == 0 && cells_b@[k] == 0,
            decreases n - i,
        {
            cells_r.push(0);
            cells_g.push(0);
            cells_b.push(0);
            i = i + 1;
        }
        let f = PixelField { width, height, cells_r, cells_g, cells_b };
        assert(f@ =~= Seq::new((width * height) as nat, |i: int| (0u8, 0u8, 0u8)));
        Ok(f)
    }

    /// The width in pixels.
    pub fn width(&self) -> (r: u32)
        ensures
            r == self.spec_width(),
    {
        self.width
    }

    /// The height in pixels.
    pub fn height(&self) -> (r: u32)
        ensures
            r == self.spec_height(),
    {
        self.height
    }

    /// The red plane, one byte per pixel in row-major order.
    pub fn cells_r(&self) -> (r: &[u8])
        requires
            self.wf(),
        ensures
            r@ == self@.map_values(|p: Rgb| p.0),
    {
        assert(self.cells_r@ =~= self@.map_values(|p: Rgb| p.0));
        self.cells_r.as_slice()
    }

    /// The green plane, one byte per pixel in row-major order.
    pub fn cells_g(&self) -> (r: &[u8])
        requires
            self.wf(),
        ensures
            r@ == self@.map_values(|p: Rgb| p.1),
    {
        assert(self.cells_g@ =~= self@.map_values(|p: Rgb| p.1));
        self.cells_g.as_slice()
    }

    /// The blue plane, one byte per pixel in row-major order.
    pub fn cells_b(&self) -> (r: &[u8])
        requires
            self.wf(),
        ensures
            r@ == self@.map_values(|p: Rgb| p.2),
    {
        assert(self.cells_b@ =~= self@.map_values(|p: Rgb| p.2));
        self.cells_b.as_slice()
    }

    /// The colour of pixel `(row, col)`.
    pub fn get(&self, row: u32, col: u32) -> (r: Rgb)
        requires
            self.wf(),
            row < self.spec_height(),
            col < self.spec_width(),
        ensures
            r == self@[pixel_index(self.spec_width() as int, row as int, col as int)],
    {
        proof {
            lemma_index_in_field(self.width as int, self.height as int, row as int, col as int);
        }
        let i = get_index(self.width, row, col);
        (self.cells_r[i], self.cells_g[i], self.cells_b[i])
    }

    /// Sets the colour of pixel `(row, col)`.
    pub fn set(&mut self, row: u32, col: u32, color: Rgb)
        requires
            old(self).wf(),
            row < old(self).spec_height(),
            col < old(self).spec_width(),
        ensures
            final(self).wf(),
            final(self).spec_width() == old(self).spec_width(),
            final(self).spec_height() == old(self).spec_height(),
            final(self)@ == old(self)@.update(
                pixel_index(old(self).spec_width() as int, row as int, col as int),
                color,
            ),
    {
        proof {
            lemma_index_in_field(self.width as int, self.height as int, row as int, col as int);
        }
        let i = get_index(self.width, row, col);
        self.cells_r.set(i, color.0);
        self.cells_g.set(i, color.1);
        self.cells_b.set(i, color.2);
        assert(self@ =~= old(self)@.update(i as int, color));
    }

    /// Moves the pixels at indices `[src_start, src_end)` to start at
    /// `dst_start`, in all three planes, as a memmove: overlapping ranges are
    /// handled, and pixels outside the destination keep their colour.
    pub fn copy_band(&mut self, src_start: usize, src_end: usize, dst_start: usize)
        requires
            old(self).wf(),
            src_start <= src_end <= old(self)@.len(),
            dst_start + (src_end - src_start) <= old(self)@.len(),
        ensures
            final(self).wf(),
            final(self).spec_width() == old(self).spec_width(),
            final(self).spec_height() == old(self).spec_height(),
            final(self)@ == moved(
                old(self)@,
                src_start as int,
                src_end - src_start,
                dst_start as int,
            ),
    {
        let len = src_end - src_start;
        proof {
            lemma_zip_moved(
                self.cells_r@,
                self.cells_g@,
                self.cells_b@,
                src_start as int,
                len as int,
                dst_start as int,
            );
        }
        move_block(&mut self.cells_r, src_start, len, dst_start);
        move_block(&mut self.cells_g, src_start, len, dst_start);
        move_block(&mut self.cells_b, src_start, len, dst_start);
    }

    /// The whole field as a band.
    pub fn full_band(&self) -> (r: Band)
        ensures
            r == full_band(self.spec_width(), self.spec_height()),
    {
        Band { row_start: 0, row_end: self.height, col_start: 0, col_end: self.width }
    }

    /// Pans the raster by `offset` rows (negative: up) and returns the band
    /// that must be painted again. Rows that stay in view are moved, not
    /// recomputed; a pan of at least the height moves nothing and returns the
    /// whole field.
    pub fn shift_vertical(&mut self, offset: i64) -> (r: Band)
        requires
            old(self).wf(),
        ensures
            final(self).wf(),
            final(self).spec_width() == old(self).spec_width(),
            final(self).spec_height() == old(self).spec_height(),
            final(self)@ == shifted_rows(old(self).spec_width() as int, old(self)@, offset as int),
            r == vertical_band(old(self).spec_width(), old(self).spec_height(), offset),
    {
        let ghost s = self@;
        let ghost wi = self.width as int;
        let ghost n = s.len() as int;
        let w = self.width as usize;
        let h = self.height as usize;
        if offset == 0 {
            assert(shifted_rows(wi, s, 0) =~= s);
            return Band { row_start: 0, row_end: 0, col_start: 0, col_end: self.width };
        }
        if offset <= -(self.height as i64) || offset >= self.height as i64 {
            if offset < 0 {
                assert(offset * wi <= -n) by (nonlinear_arith)
                    requires offset <= -(h as int), wi >= 0, n == wi * h;
            } else {
                assert(offset * wi >= n) by (nonlinear_arith)
                    requires offset >= h as int, wi >= 0, n == wi * h;
            }
            assert(shifted_rows(wi, s, offset as int) =~= s);
            return self.full_band();
        }
        if offset < 0 {
            let m = (0 - offset) as usize;
            assert((h - m) * w + m * w == h * w) by (nonlinear_arith)
                requires m < h;
            assert(m * w <= h * w) by (nonlinear_arith)
                requires m < h;
            let kept = (h - m) * w;
            self.copy_band(0, kept, m * w);
            assert(offset * wi == -(m * w)) by (nonlinear_arith)
                requires offset == -(m as int), wi == w as int;
            assert(self@ =~= shifted_rows(wi, s, offset as int));
            Band { row_start: 0, row_end: m as u32, col_start: 0, col_end: self.width }
        } else {
            let m = offset as usize;
            assert((h - m) * w + m * w == h * w) by (nonlinear_arith)
                requires m < h;
            assert(m * w <= h * w) by (nonlinear_arith)
                requires m < h;
            self.copy_band(m * w, h * w, 0);
            assert(offset * wi == m * w) by (nonlinear_arith)
                requires offset == m as int, wi == w as int;
            assert(self@ =~= shifted_rows(wi, s, offset as int));
            Band {
                row_start: self.height,
                row_end: self.height - m as u32,
                col_start: 0,
                col_end: self.width,
            }
        }
    }

    /// Pans the raster by `offset` columns (negative: left) and returns the
    /// band that must be painted again. Within each row the columns that stay
    /// in view are moved, not recomputed; a pan of at least the width moves
    /// nothing and returns the whole field.
    pub fn shift_horizontal(&mut self, offset: i64) -> (r: Band)
        requires
            old(self).wf(),
        ensures
            final(self).wf(),
            final(self).spec_width() == old(self).spec_width(),
            final(self).spec_height() == old(self).spec_height(),
            final(self)@ == shifted_cols(old(self).spec_width() as int, old(self)@, offset as int),
            r == horizontal_band(old(self).spec_width(), old(self).spec_height(), offset),
    {
        let ghost s = self@;
        let ghost wi = self.width as int;
        let ghost n = s.len() as int;
        let w = self.width as usize;
        let h = self.height as usize;
        if offset == 0 {
            assert(shifted_cols(wi, s, 0) =~= s);
            return Band { row_start: 0, row_end: self.height, col_start: 0, col_end: 0 };
        }
        if offset <= -(self.width as i64) || offset >= self.width as i64 {
            assert forall|i: int| 0 <= i < n implies #[trigger] shifted_cols(wi, s, offset as int)[i]
                == s[i] by {
                lemma_col_bound(wi, i);
            }
            assert(shifted_cols(wi, s, offset as int) =~= s);
            return self.full_band();
        }
        let m: usize = if offset < 0 { (0 - offset) as usize } else { offset as usize };
        let mut row: usize = 0;
        while row < h
            invariant
                self.wf(),
                self.spec_width() == w,
                self.spec_height() == h,
                wi == w,
                n == s.len(),
                self@.len() == n,
                n == w * h,
                row <= h,
                0 < m < w,
                offset == m || offset == -(m as int),
                forall|i: int|
                    0 <= i < n ==> self@[i] == (if i < row * w {
                        shifted_cols(wi, s, offset as int)[i]
                    } else {
                        s[i]
                    }),
            decreases h - row,
        {
            proof {
                lemma_index_in_field(w as int, h as int, row as int, 0);
            }
            let start = row * w;
            let ghost cur = self@;
            if offset > 0 {
                self.copy_band(start + m, start + w, start);
            } else {
                self.copy_band(start, start + w - m, start + m);
            }
            assert forall|i: int| 0 <= i < n implies self@[i] == (if i < (row + 1) * w {
                shifted_cols(wi, s, offset as int)[i]
            } else {
                s[i]
            }) by {
                assert((row + 1) * w == row * w + w) by (nonlinear_arith);
                if start <= i < start + w {
                    lemma_row_col(wi, row as int, i);
                }
            }
            row = row + 1;
        }
        assert(row * w == w * h) by (nonlinear_arith)
            requires row == h;
        assert(self@ =~= shifted_cols(wi, s, offset as int));
        if offset < 0 {
            Band { row_start: 0, row_end: self.height, col_start: 0, col_end: m as u32 }
        } else {
            Band {
                row_start: 0,
                row_end: self.height,
                col_start: self.width,
                col_end: self.width - m as u32,
            }
        }
    }

    /// Writes `colors[k]` at pixel `pixels[k]` for each `k` in turn; a pixel
    /// listed twice ends with the later colour.
    pub fn write_pixels(&mut self, pixels: &Vec<(u32, u32)>, colors: &Vec<Rgb>)
        requires
            old(self).wf(),
            pixels@.len() == colors@.len(),
            forall|k: int|
                0 <= k < pixels@.len() ==> (#[trigger] pixels@[k]).0 < old(self).spec_height()
                    && pixels@[k].1 < old(self).spec_width(),
        ensures
            final(self).wf(),
            final(self).spec_width() == old(self).spec_width(),
            final(self).spec_height() == old(self).spec_height(),
            final(self)@ == painted(old(self).spec_width() as int, old(self)@, pixels@, colors@),
    {
        let mut k: usize = 0;
        while k < pixels.len()
            invariant
                self.wf(),
                self.spec_width() == old(self).spec_width(),
                self.spec_height() == old(self).spec_height(),
                k <= pixels@.len(),
                pixels@.len() == colors@.len(),
                forall|j: int|
                    0 <= j < pixels@.len() ==> (#[trigger] pixels@[j]).0 < self.spec_height()
                        && pixels@[j].1 < self.spec_width(),
                self@ == painted(
                    self.spec_width() as int,
                    old(self)@,
                    pixels@.take(k as int),
                    colors@,
                ),
            decreases pixels.len() - k,
        {
            let (row, col) = pixels[k];
            self.set(row, col, colors[k]);
            assert(pixels@.take(k + 1).drop_last() =~= pixels@.take(k as int));
            k = k + 1;
        }
        assert(pixels@.take(k as int) =~= pixels@);
    }

    /// Paints band `b` with `colors`, given in the band's visiting order.
    pub fn paint_band(&mut self, b: &Band, colors: &Vec<Rgb>)
        requires
            old(self).wf(),
            b.row_start <= old(self).spec_height() && b.row_end <= old(self).spec_height(),
            b.col_start <= old(self).spec_width() && b.col_end <= old(self).spec_width(),
            colors@.len() == band_seq(*b).len(),
        ensures
            final(self).wf(),
            final(self).spec_width() == old(self).spec_width(),
            final(self).spec_height() == old(self).spec_height(),
            final(self)@ == painted(
                old(self).spec_width() as int,
                old(self)@,
                band_seq(*b),
                colors@,
            ),
    {
        let pixels = band_pixels(b);
        proof {
            lemma_band_seq_within(*b, self.width, self.height);
        }
        self.write_pixels(&pixels, colors);
    }
}

} // verus!
