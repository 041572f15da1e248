//! Frame geometry: how a frame of `width` by `height` pixels is cut into
//! divisions of whole rows, and where each pixel lives in a division's slice.
//!
//! Rows are counted from the top of the image. Division `d` owns the rows
//! `d * rows_per_division .. (d + 1) * rows_per_division`, so that the slices
//! of all divisions, laid end to end in division order, are the frame.

use vstd::prelude::*;

verus! {

/// What a render job fixes about its frame: its size, into how many divisions
/// it is cut, and the job it belongs to.
#[derive(Clone, Copy, Debug, PartialEq, Eq, Structural)]
pub struct RenderMeta {
    pub height: u32,
    pub width: u32,
    pub divisions: u32,
    pub id: u128,
}

/// Byte offset of pixel `x` of row `row` in a buffer of rows `width` wide.
/// A pixel has three bytes: one each for red, green and blue.
pub open spec fn offset_in_rows(width: nat, x: nat, row: nat) -> nat {
    (row * width + x) * 3
}

impl RenderMeta {
    /// Rows that each division holds: the frame's rows shared out evenly,
    /// rounded down. A frame without divisions has no rows to share.
    pub open spec fn rows_per_division(&self) -> nat {
        if self.divisions == 0 {
            0
        } else {
            (self.height / self.divisions) as nat
        }
    }

    /// Bytes in one row of pixels.
    pub open spec fn row_len(&self) -> nat {
        (self.width * 3) as nat
    }

    /// Bytes in the slice of one division.
    pub open spec fn slice_len(&self) -> nat {
        self.rows_per_division() * self.row_len()
    }

    /// Bytes in the whole frame.
    pub open spec fn frame_len(&self) -> nat {
        self.height as nat * self.row_len()
    }

    /// The first row of division `d`, counted from the top of the frame.
    pub open spec fn first_row(&self, d: nat) -> nat {
        d * self.rows_per_division()
    }

    /// Whether `row` of the frame belongs to division `d`.
    pub open spec fn owns_row(&self, d: nat, row: nat) -> bool {
        d < self.divisions && self.first_row(d) <= row < self.first_row(d + 1)
    }

    /// The camera's scanline for row `r` of division `d`. The camera counts
    /// scanlines from the bottom of the image, the frame its rows from the top.
    pub open spec fn scanline(&self, d: nat, r: nat) -> int {
        self.height - 1 - (self.first_row(d) + r)
    }

    /// Rows per division, as a number.
    pub fn rows(&self) -> (rows: u32)
        ensures
            rows == self.rows_per_division(),
    {
        if self.divisions == 0 {
            0
        } else {
            self.height / self.divisions
        }
    }

    /// Bytes in one division's slice, or `None` where that many bytes cannot
    /// be addressed on this machine.
    pub fn slice_bytes(&self) -> (len: Option<usize>)
        ensures
            len == (if self.slice_len() <= usize::MAX {
                Some(self.slice_len() as usize)
            } else {
                None
            }),
    {
        let rows: u128 = self.rows() as u128;
        let width: u128 = self.width as u128;
        assert(rows * (width * 3) <= 0xffff_ffff * (0xffff_ffff * 3)) by (nonlinear_arith)
            requires
                rows <= 0xffff_ffff,
                width <= 0xffff_ffff,
        ;
        let len: u128 = rows * (width * 3);
        if len <= usize::MAX as u128 {
            Some(len as usize)
        } else {
            None
        }
    }

    /// The rows of the frame that division `d` renders, first and one past
    /// the last; `None` for a number that names no division.
    pub fn division_rows(&self, d: u32) -> (rows: Option<(u32, u32)>)
        ensures
            d >= self.divisions ==> rows is None,
            d < self.divisions ==> (rows matches Some((first, end)) && first == self.first_row(
                d as nat,
            ) && end == self.first_row(d as nat + 1)),
    {
        if d >= self.divisions {
            return None;
        }
        let per: u32 = self.height / self.divisions;
        proof {
            self.lemma_rows_fit(d as nat + 1);
            self.lemma_rows_fit(d as nat);
            assert((d + 1) * per == d * per + per) by (nonlinear_arith);
        }
        let first: u32 = d * per;
        Some((first, first + per))
    }

    /// The camera's scanline for row `r` of division `d`; `None` where the
    /// division has no such row.
    pub fn camera_row(&self, d: u32, r: u32) -> (y: Option<u32>)
        ensures
            d < self.divisions && r < self.rows_per_division() ==> (y matches Some(line) && line
                == self.scanline(d as nat, r as nat)),
            !(d < self.divisions && r < self.rows_per_division()) ==> y is None,
    {
        match self.division_rows(d) {
            None => None,
            Some((first, end)) => {
                proof {
                    let per = self.rows_per_division();
                    assert((d + 1) * per == d * per + per) by (nonlinear_arith);
                    self.lemma_rows_fit(d as nat + 1);
                }
                if r >= end - first {
                    None
                } else {
                    Some(self.height - 1 - (first + r))
                }
            },
        }
    }

    /// Where pixel `x` of row `r` starts in a division's slice; `None` where
    /// the slice has no such pixel or cannot be addressed on this machine.
    pub fn pixel_offset(&self, x: u32, r: u32) -> (at: Option<usize>)
        ensures
            x < self.width && r < self.rows_per_division() && self.slice_len() <= usize::MAX
                ==> (at matches Some(start) && start == offset_in_rows(
                self.width as nat,
                x as nat,
                r as nat,
            ) && start + 3 <= self.slice_len()),
            !(x < self.width && r < self.rows_per_division() && self.slice_len() <= usize::MAX)
                ==> at is None,
    {
        let rows: u32 = self.rows();
        if x >= self.width || r >= rows {
            return None;
        }
        match self.slice_bytes() {
            None => None,
            Some(_len) => {
                proof {
                    lemma_offset_fits(self.width as nat, rows as nat, x as nat, r as nat);
                }
                let row: usize = r as usize;
                let width: usize = self.width as usize;
                let col: usize = x as usize;
                assert(row * width + col <= rows * self.width) by (nonlinear_arith)
                    requires
                        row < rows,
                        col < width,
                        width == self.width,
                ;
                assert(rows * (self.width * 3) == (rows * self.width) * 3) by (nonlinear_arith);
                Some((row * width + col) * 3)
            },
        }
    }

    /// No division's rows run past the end of the frame.
    pub proof fn lemma_rows_fit(&self, d: nat)
        requires
            d <= self.divisions,
        ensures
            self.first_row(d) <= self.height,
    {
        if self.divisions != 0 {
            let per = self.height as int / self.divisions as int;
            assert(per * self.divisions <= self.height) by (nonlinear_arith)
                requires
                    per == self.height as int / self.divisions as int,
                    self.divisions > 0,
            ;
            assert(d * per <= per * self.divisions) by (nonlinear_arith)
                requires
                    d <= self.divisions,
                    per >= 0,
            ;
        }
    }

    /// Every row below `divisions * rows_per_division` belongs to exactly
    /// one division, the one that its number divided by the rows per division
    /// names.
    pub proof fn lemma_row_has_one_owner(&self, d: nat, row: nat)
        requires
            self.rows_per_division() > 0,
            row < self.first_row(self.divisions as nat),
        ensures
            self.owns_row(d, row) <==> d == row / self.rows_per_division(),
    {
        let per = self.rows_per_division() as int;
        let q = row as int / per;
        assert(q * per <= row < (q + 1) * per && (d < q ==> (d + 1) * per <= q * per) && (d > q ==> d
            * per >= (q + 1) * per) && (q >= self.divisions ==> q * per >= self.divisions * per))
            by (nonlinear_arith)
            requires
                per > 0,
                q == row as int / per,
                row >= 0,
        ;
    }

    /// Where the divisions divide the height evenly, their rows are all the
    /// rows of the frame and their slices have all its bytes.
    pub proof fn lemma_even_divisions_cover(&self)
        requires
            self.divisions > 0,
            self.height % self.divisions == 0,
        ensures
            self.first_row(self.divisions as nat) == self.height,
            self.divisions * self.slice_len() == self.frame_len(),
    {
        let per = self.height as int / self.divisions as int;
        assert(self.divisions * per == self.height) by (nonlinear_arith)
            requires
                per == self.height as int / self.divisions as int,
                self.height as int % self.divisions as int == 0,
                self.divisions > 0,
        ;
        assert(self.divisions * (per * self.row_len()) == (self.divisions * per) * self.row_len())
            by (nonlinear_arith);
    }

    /// A pixel of a division's slice lies in the frame at the place of its
    /// row there: the slices laid end to end in division order are the frame
    /// row by row.
    pub proof fn lemma_slice_in_frame(&self, d: nat, x: nat, r: nat)
        requires
            d < self.divisions,
            x < self.width,
            r < self.rows_per_division(),
        ensures
            d * self.slice_len() + offset_in_rows(self.width as nat, x, r) == offset_in_rows(
                self.width as nat,
                x,
                self.first_row(d) + r,
            ),
            offset_in_rows(self.width as nat, x, self.first_row(d) + r) + 3 <= self.first_row(
                self.divisions as nat,
            ) * self.row_len(),
    {
        let per = self.rows_per_division() as int;
        let w = self.width as int;
        assert(d * (per * (w * 3)) + (r * w + x) * 3 == ((d * per + r) * w + x) * 3)
            by (nonlinear_arith);
        assert(((d * per + r) * w + x) * 3 + 3 <= (self.divisions * per) * (w * 3))
            by (nonlinear_arith)
            requires
                0 <= d < self.divisions,
                0 <= x < w,
                0 <= r < per,
        ;
    }

    /// The camera's scanlines run against the frame's rows: the top row is
    /// the highest scanline, and turning a row's scanline over gives the row.
    pub proof fn lemma_scanline_flips(&self, d: nat, r: nat)
        requires
            d < self.divisions,
            r < self.rows_per_division(),
        ensures
            0 <= self.scanline(d, r) < self.height,
            self.height - 1 - self.scanline(d, r) == self.first_row(d) + r,
    {
        self.lemma_rows_fit(d + 1);
        let per = self.rows_per_division() as int;
        assert((d + 1) * per == d * per + per) by (nonlinear_arith);
    }
}

/// A pixel inside a buffer of `rows` rows starts where three bytes still fit.
pub proof fn lemma_offset_fits(width: nat, rows: nat, x: nat, r: nat)
    requires
        x < width,
        r < rows,
    ensures
        offset_in_rows(width, x, r) + 3 <= rows * (width * 3),
{
    assert((r * width + x) * 3 + 3 <= rows * (width * 3)) by (nonlinear_arith)
        requires
            x < width,
            r < rows,
    ;
}

/// Two different pixels of a buffer share no byte.
pub proof fn lemma_pixels_apart(width: nat, x1: nat, r1: nat, x2: nat, r2: nat)
    requires
        x1 < width,
        x2 < width,
        (x1, r1) != (x2, r2),
    ensures
        offset_in_rows(width, x1, r1) + 3 <= offset_in_rows(width, x2, r2) || offset_in_rows(
            width,
            x2,
            r2,
        ) + 3 <= offset_in_rows(width, x1, r1),
{
    if r1 < r2 {
        assert(r1 * width + x1 < r2 * width + x2) by (nonlinear_arith)
            requires
                r1 < r2,
                x1 < width,
        ;
    } else if r2 < r1 {
        assert(r2 * width + x2 < r1 * width + x1) by (nonlinear_arith)
            requires
                r2 < r1,
                x2 < width,
        ;
    }
}

} // verus!
