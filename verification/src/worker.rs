//! What a worker does with a request: render the rows of its division and
//! make the slice that goes back to the coordinator.

use crate::job::RenderInfo;
use crate::slices::ImageSlice;
use crate::tile::{
    division_is_shaded, render_division, rows_fit, rows_in_place, shades_frame, slice_of_rows, Rgb,
};
use vstd::prelude::*;

verus! {

/// Renders what `info` asks for: the rows of its division and no others,
/// under the job's id and the division's number. `None` for a division that
/// the job does not have, or where the slice's bytes cannot be addressed on
/// this machine.
pub fn render_slice<W, F: Fn(u32, u32) -> Rgb>(info: &RenderInfo<W>, shade: &F) -> (out: Option<
    ImageSlice,
>)
    requires
        shades_frame(*shade, info.render_meta),
    ensures
        out is Some <==> info.division_no < info.render_meta.divisions
            && info.render_meta.slice_len() <= usize::MAX,
        out matches Some(slice) ==> {
            &&& slice.id == info.render_meta.id
            &&& slice.division_no == info.division_no
            &&& division_is_shaded(*shade, info.render_meta, info.division_no, slice.image@)
        },
{
    match render_division(&info.render_meta, info.division_no, shade) {
        None => None,
        Some(image) => Some(
            ImageSlice { division_no: info.division_no, image, id: info.render_meta.id },
        ),
    }
}

/// Makes the slice that `info` asks for of the division's finished rows,
/// which may have been rendered side by side: row `r` at `r * row_len`, under
/// the job's id and the division's number. `None` for a division that the
/// job does not have, where the rows are not the rows of one division, or
/// where the slice's bytes cannot be addressed on this machine.
pub fn slice_from_rows<W>(info: &RenderInfo<W>, rows: &Vec<Vec<u8>>) -> (out: Option<ImageSlice>)
    ensures
        out is Some <==> info.division_no < info.render_meta.divisions && rows_fit(
            info.render_meta,
            rows@,
        ) && info.render_meta.slice_len() <= usize::MAX,
        out matches Some(slice) ==> {
            &&& slice.id == info.render_meta.id
            &&& slice.division_no == info.division_no
            &&& rows_in_place(info.render_meta, rows@, slice.image@)
        },
{
    if info.division_no >= info.render_meta.divisions {
        return None;
    }
    match slice_of_rows(&info.render_meta, rows) {
        None => None,
        Some(image) => Some(
            ImageSlice { division_no: info.division_no, image, id: info.render_meta.id },
        ),
    }
}

} // verus!
