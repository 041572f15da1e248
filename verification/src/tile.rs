//! The tiled renderer's bookkeeping: rows of pixels are shaded one by one,
//! each row on its own, and written to the place in the slice that its
//! number fixes, so that the slice does not depend on the order in which the
//! rows were finished.
//!
//! What a pixel's color is comes from outside, as a function of the pixel's
//! column and the camera's scanline. The function may draw random samples:
//! nothing here asks it to give the same color twice.

use crate::frame::RenderMeta;
use vstd::prelude::*;

verus! {

/// One pixel, quantized to eight bits a channel.
#[derive(Clone, Copy, Debug, PartialEq, Eq, Structural)]
pub struct Rgb {
    pub r: u8,
    pub g: u8,
    pub b: u8,
}

/// The pixel whose three bytes start at `at`.
pub open spec fn pixel_at(bytes: Seq<u8>, at: int) -> Rgb {
    Rgb { r: bytes[at], g: bytes[at + 1], b: bytes[at + 2] }
}

/// `bytes` with the pixel at `at` replaced by `p`.
pub open spec fn with_pixel(bytes: Seq<u8>, at: int, p: Rgb) -> Seq<u8> {
    bytes.update(at, p.r).update(at + 1, p.g).update(at + 2, p.b)
}

/// `bytes` with the stretch that starts at `at` replaced by `row`.
pub open spec fn with_row(bytes: Seq<u8>, at: int, row: Seq<u8>) -> Seq<u8> {
    Seq::new(
        bytes.len(),
        |i: int|
            if at <= i < at + row.len() {
                row[i - at]
            } else {
                bytes[i]
            },
    )
}

/// Whether `row` is a row of `width` pixels, each one a color that `shade`
/// may give for its column on scanline `y`.
pub open spec fn row_is_shaded<F: Fn(u32, u32) -> Rgb>(
    shade: F,
    width: u32,
    y: u32,
    row: Seq<u8>,
) -> bool {
    &&& row.len() == width * 3
    &&& forall|x: u32| x < width ==> shade.ensures((x, y), #[trigger] pixel_at(row, x * 3))
}

/// Whether `slice` is the slice of division `d`: each of the division's
/// rows in its place, shaded on its scanline.
pub open spec fn division_is_shaded<F: Fn(u32, u32) -> Rgb>(
    shade: F,
    meta: RenderMeta,
    d: u32,
    slice: Seq<u8>,
) -> bool {
    &&& slice.len() == meta.slice_len()
    &&& forall|r: u32|
        r < meta.rows_per_division() ==> row_is_shaded(
            shade,
            meta.width,
            meta.scanline(d as nat, r as nat) as u32,
            #[trigger] slice.subrange(r * meta.row_len(), (r + 1) * meta.row_len()),
        )
}

/// Whether `shade` can be asked for every pixel of the frame.
pub open spec fn shades_frame<F: Fn(u32, u32) -> Rgb>(shade: F, meta: RenderMeta) -> bool {
    forall|x: u32, y: u32| x < meta.width && y < meta.height ==> shade.requires((x, y))
}

/// Writes pixel `p` at byte `at`. A pixel that does not fit into the buffer
/// is not written, and the answer is `false`.
pub fn put_pixel(buf: &mut Vec<u8>, at: usize, p: Rgb) -> (done: bool)
    ensures
        done == (at + 3 <= old(buf).len()),
        done ==> final(buf)@ == with_pixel(old(buf)@, at as int, p),
        !done ==> final(buf)@ == old(buf)@,
{
    if buf.len() < 3 || at > buf.len() - 3 {
        return false;
    }
    buf.set(at, p.r);
    buf.set(at + 1, p.g);
    buf.set(at + 2, p.b);
    true
}

/// Shades row `r` of division `division_no`, left to right. `None` where the
/// division has no such row, or where a row's bytes cannot be addressed on
/// this machine.
pub fn render_row<F: Fn(u32, u32) -> Rgb>(
    meta: &RenderMeta,
    division_no: u32,
    r: u32,
    shade: &F,
) -> (out: Option<Vec<u8>>)
    requires
        shades_frame(*shade, *meta),
    ensures
        out is Some <==> division_no < meta.divisions && r < meta.rows_per_division()
            && meta.row_len() <= usize::MAX,
        out matches Some(row) ==> row_is_shaded(
            *shade,
            meta.width,
            meta.scanline(division_no as nat, r as nat) as u32,
            row@,
        ),
{
    let y: u32 = match meta.camera_row(division_no, r) {
        None => {
            return None;
        },
        Some(y) => y,
    };
    proof {
        meta.lemma_scanline_flips(division_no as nat, r as nat);
    }
    if meta.width as u128 * 3 > usize::MAX as u128 {
        return None;
    }
    let mut row: Vec<u8> = Vec::new();
    let mut x: u32 = 0;
    while x < meta.width
        invariant
            x <= meta.width,
            y < meta.height,
            meta.width * 3 <= usize::MAX,
            row@.len() == x * 3,
            shades_frame(*shade, *meta),
            forall|k: u32| k < x ==> shade.ensures((k, y), #[trigger] pixel_at(row@, k * 3)),
        decreases meta.width - x,
    {
        let p: Rgb = shade(x, y);
        let ghost before = row@;
        row.push(p.r);
        row.push(p.g);
        row.push(p.b);
        assert forall|k: u32| k < x + 1 implies shade.ensures(
            (k, y),
            #[trigger] pixel_at(row@, k * 3),
        ) by {
            if k < x {
                assert(pixel_at(row@, k * 3) == pixel_at(before, k * 3));
            } else {
                assert(pixel_at(row@, k * 3) == p);
            }
        }
        x = x + 1;
    }
    Some(row)
}

/// Copies `row` into `buf` from byte `at` on. A row that does not fit into
/// the buffer is not written, and the answer is `false`.
pub fn place_row(buf: &mut Vec<u8>, at: usize, row: &Vec<u8>) -> (done: bool)
    ensures
        done == (at + row.len() <= old(buf).len()),
        done ==> final(buf)@ == with_row(old(buf)@, at as int, row@),
        !done ==> final(buf)@ == old(buf)@,
{
    if row.len() > buf.len() || at > buf.len() - row.len() {
        return false;
    }
    let mut i: usize = 0;
    while i < row.len()
        invariant
            i <= row.len(),
            at + row.len() <= buf.len(),
            buf.len() == old(buf).len(),
            buf@ == with_row(old(buf)@, at as int, row@.subrange(0, i as int)),
        decreases row.len() - i,
    {
        buf.set(at + i, row[i]);
        i = i + 1;
    }
    assert(row@.subrange(0, row.len() as int) == row@);
    true
}

/// Whether `rows` are the rows of one division: as many as a division has,
/// each as long as a row of the frame.
pub open spec fn rows_fit(meta: RenderMeta, rows: Seq<Vec<u8>>) -> bool {
    &&& rows.len() == meta.rows_per_division()
    &&& forall|r: int| 0 <= r < rows.len() ==> (#[trigger] rows[r])@.len() == meta.row_len()
}

/// Whether `slice` is a division's slice with the rows in their places: row
/// `r` fills the bytes from `r * row_len` on.
pub open spec fn rows_in_place(meta: RenderMeta, rows: Seq<Vec<u8>>, slice: Seq<u8>) -> bool {
    &&& slice.len() == meta.slice_len()
    &&& forall|r: int|
        0 <= r < rows.len() ==> #[trigger] slice.subrange(
            r * meta.row_len(),
            (r + 1) * meta.row_len(),
        ) == rows[r]@
}

/// Puts the finished rows of a division together to its slice: row `r` at
/// the place that its number fixes, `r * row_len`, whichever row was
/// finished first. `None` where the rows are not the rows of one division,
/// or where the slice's bytes cannot be addressed on this machine.
pub fn slice_of_rows(meta: &RenderMeta, rows: &Vec<Vec<u8>>) -> (out: Option<Vec<u8>>)
    ensures
        out is Some <==> rows_fit(*meta, rows@) && meta.slice_len() <= usize::MAX,
        out matches Some(slice) ==> rows_in_place(*meta, rows@, slice@),
{
    let len: usize = match meta.slice_bytes() {
        None => {
            return None;
        },
        Some(len) => len,
    };
    let count: u32 = meta.rows();
    if rows.len() != count as usize {
        return None;
    }
    let mut slice: Vec<u8> = vec![0u8; len];
    if count == 0 {
        return Some(slice);
    }
    assert(meta.width * 3 <= count * (meta.width * 3)) by (nonlinear_arith)
        requires
            count >= 1,
    ;
    let row_len: usize = meta.width as usize * 3;
    let mut r: usize = 0;
    while r < rows.len()
        invariant
            r <= rows@.len(),
            rows@.len() == count == meta.rows_per_division(),
            row_len == meta.row_len(),
            slice@.len() == len == meta.slice_len(),
            forall|k: int| 0 <= k < r ==> (#[trigger] rows@[k])@.len() == row_len,
            forall|k: int|
                0 <= k < r ==> #[trigger] slice@.subrange(k * row_len, (k + 1) * row_len)
                    == rows@[k]@,
        decreases rows@.len() - r,
    {
        proof {
            lemma_row_span(r as int, count as int, row_len as int);
        }
        if rows[r].len() != row_len {
            return None;
        }
        let ghost before = slice@;
        let done = place_row(&mut slice, r * row_len, &rows[r]);
        assert(done);
        assert(slice@.subrange(r * row_len, (r + 1) * row_len) == rows@[r as int]@);
        assert forall|k: int| 0 <= k < r implies #[trigger] slice@.subrange(
            k * row_len,
            (k + 1) * row_len,
        ) == before.subrange(k * row_len, (k + 1) * row_len) by {
            lemma_row_span(k, r as int, row_len as int);
        }
        r = r + 1;
    }
    Some(slice)
}

/// Rows that are shaded, each on the scanline of its number, make the
/// division's slice when they are put in their places.
pub proof fn lemma_shaded_rows_make_division<F: Fn(u32, u32) -> Rgb>(
    shade: F,
    meta: RenderMeta,
    d: u32,
    rows: Seq<Vec<u8>>,
    slice: Seq<u8>,
)
    requires
        rows.len() == meta.rows_per_division(),
        rows_in_place(meta, rows, slice),
        forall|r: u32|
            r < meta.rows_per_division() ==> row_is_shaded(
                shade,
                meta.width,
                meta.scanline(d as nat, r as nat) as u32,
                (#[trigger] rows[r as int])@,
            ),
    ensures
        division_is_shaded(shade, meta, d, slice),
{
    assert forall|r: u32| r < meta.rows_per_division() implies row_is_shaded(
        shade,
        meta.width,
        meta.scanline(d as nat, r as nat) as u32,
        #[trigger] slice.subrange(r * meta.row_len(), (r + 1) * meta.row_len()),
    ) by {
        assert(slice.subrange(r as int * meta.row_len(), (r as int + 1) * meta.row_len())
            == rows[r as int]@);
    }
}

/// Shades the slice of division `division_no`: every row of the division in
/// its place. `None` for a number that names no division, or where the
/// slice's bytes cannot be addressed on this machine.
pub fn render_division<F: Fn(u32, u32) -> Rgb>(
    meta: &RenderMeta,
    division_no: u32,
    shade: &F,
) -> (out: Option<Vec<u8>>)
    requires
        shades_frame(*shade, *meta),
    ensures
        out is Some <==> division_no < meta.divisions && meta.slice_len() <= usize::MAX,
        out matches Some(slice) ==> division_is_shaded(*shade, *meta, division_no, slice@),
{
    if division_no >= meta.divisions {
        return None;
    }
    if meta.slice_bytes().is_none() {
        return None;
    }
    let count: u32 = meta.rows();
    let mut rows: Vec<Vec<u8>> = Vec::new();
    let mut r: u32 = 0;
    while r < count
        invariant
            r <= count,
            count == meta.rows_per_division(),
            division_no < meta.divisions,
            meta.slice_len() <= usize::MAX,
            rows@.len() == r,
            shades_frame(*shade, *meta),
            forall|k: u32|
                k < r ==> row_is_shaded(
                    *shade,
                    meta.width,
                    meta.scanline(division_no as nat, k as nat) as u32,
                    (#[trigger] rows@[k as int])@,
                ),
        decreases count - r,
    {
        proof {
            lemma_row_span(0, count as int, meta.row_len() as int);
        }
        // The whole slice can be addressed, so each of its rows can.
        let row: Vec<u8> = match render_row(meta, division_no, r, shade) {
            Some(row) => row,
            None => {
                return None;
            },
        };
        let ghost before = rows@;
        rows.push(row);
        assert forall|k: u32| k < r + 1 implies row_is_shaded(
            *shade,
            meta.width,
            meta.scanline(division_no as nat, k as nat) as u32,
            (#[trigger] rows@[k as int])@,
        ) by {
            if k < r {
                assert(rows@[k as int] == before[k as int]);
            }
        }
        r = r + 1;
    }
    let out = slice_of_rows(meta, &rows);
    proof {
        assert forall|k: int| 0 <= k < rows@.len() implies (#[trigger] rows@[k])@.len()
            == meta.row_len() by {
            assert(row_is_shaded(
                *shade,
                meta.width,
                meta.scanline(division_no as nat, k as u32 as nat) as u32,
                rows@[k as u32 as int]@,
            ));
        }
        if out is Some {
            lemma_shaded_rows_make_division(*shade, *meta, division_no, rows@, out->0@);
        }
    }
    out
}

/// Row `r` of `rows` rows of `len` bytes each spans `r * len .. (r + 1) * len`,
/// inside the buffer.
pub proof fn lemma_row_span(r: int, rows: int, len: int)
    requires
        0 <= r < rows,
        0 <= len,
    ensures
        0 <= r * len,
        r * len + len == (r + 1) * len,
        (r + 1) * len <= rows * len,
{
    assert(0 <= r * len && r * len + len == (r + 1) * len && (r + 1) * len <= rows * len)
        by (nonlinear_arith)
        requires
            0 <= r < rows,
            0 <= len,
    ;
}

/// Rows written to stretches that do not overlap may be written in either
/// order: the buffer comes out the same.
pub proof fn lemma_rows_commute(bytes: Seq<u8>, at1: int, row1: Seq<u8>, at2: int, row2: Seq<u8>)
    requires
        at1 + row1.len() <= at2 || at2 + row2.len() <= at1,
    ensures
        with_row(with_row(bytes, at1, row1), at2, row2) == with_row(
            with_row(bytes, at2, row2),
            at1,
            row1,
        ),
{
    assert(with_row(with_row(bytes, at1, row1), at2, row2) =~= with_row(
        with_row(bytes, at2, row2),
        at1,
        row1,
    ));
}

/// Pixels written to different places may be written in either order, and a
/// pixel that was written is read back.
pub proof fn lemma_pixels_commute(bytes: Seq<u8>, at1: int, p1: Rgb, at2: int, p2: Rgb)
    requires
        0 <= at1,
        0 <= at2,
        at1 + 3 <= bytes.len(),
        at2 + 3 <= bytes.len(),
        at1 + 3 <= at2 || at2 + 3 <= at1,
    ensures
        with_pixel(with_pixel(bytes, at1, p1), at2, p2) == with_pixel(
            with_pixel(bytes, at2, p2),
            at1,
            p1,
        ),
        pixel_at(with_pixel(with_pixel(bytes, at1, p1), at2, p2), at1) == p1,
        pixel_at(with_pixel(with_pixel(bytes, at1, p1), at2, p2), at2) == p2,
{
    assert(with_pixel(with_pixel(bytes, at1, p1), at2, p2) =~= with_pixel(
        with_pixel(bytes, at2, p2),
        at1,
        p1,
    ));
}

} // verus!
