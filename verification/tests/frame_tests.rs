use ray_tracer::frame::RenderMeta;
use ray_tracer::tile::{place_row, put_pixel, render_division, render_row, Rgb};

fn meta(width: u32, height: u32, divisions: u32) -> RenderMeta {
    RenderMeta { height, width, divisions, id: 7 }
}

#[test]
fn rows_are_shared_out_evenly() {
    assert_eq!(meta(1920, 1080, 20).rows(), 54);
    assert_eq!(meta(4, 4, 1).rows(), 4);
    assert_eq!(meta(4, 10, 3).rows(), 3);
    assert_eq!(meta(4, 2, 3).rows(), 0);
}

#[test]
fn a_frame_without_divisions_has_no_rows() {
    let m = meta(4, 4, 0);
    assert_eq!(m.rows(), 0);
    assert_eq!(m.slice_bytes(), Some(0));
    assert_eq!(m.division_rows(0), None);
    assert_eq!(m.camera_row(0, 0), None);
}

#[test]
fn slice_bytes_is_rows_times_width_times_three() {
    assert_eq!(meta(1920, 1080, 20).slice_bytes(), Some(54 * 1920 * 3));
    assert_eq!(meta(4, 4, 1).slice_bytes(), Some(48));
    assert_eq!(meta(0, 4, 2).slice_bytes(), Some(0));
}

#[test]
fn slice_bytes_of_the_largest_frame_fits_or_is_none() {
    let all = u32::MAX as u128 * u32::MAX as u128 * 3;
    let got = meta(u32::MAX, u32::MAX, 1).slice_bytes();
    if all <= usize::MAX as u128 {
        assert_eq!(got, Some(all as usize));
    } else {
        assert_eq!(got, None);
    }
}

#[test]
fn divisions_own_successive_rows() {
    let m = meta(8, 12, 3);
    assert_eq!(m.division_rows(0), Some((0, 4)));
    assert_eq!(m.division_rows(1), Some((4, 8)));
    assert_eq!(m.division_rows(2), Some((8, 12)));
    assert_eq!(m.division_rows(3), None);
}

#[test]
fn rows_left_over_belong_to_no_division() {
    let m = meta(8, 10, 3);
    assert_eq!(m.division_rows(2), Some((6, 9)));
    assert_eq!(m.division_rows(3), None);
}

#[test]
fn camera_rows_run_against_frame_rows() {
    let m = meta(8, 12, 3);
    assert_eq!(m.camera_row(0, 0), Some(11));
    assert_eq!(m.camera_row(0, 3), Some(8));
    assert_eq!(m.camera_row(1, 0), Some(7));
    assert_eq!(m.camera_row(2, 3), Some(0));
    assert_eq!(m.camera_row(2, 4), None);
    assert_eq!(m.camera_row(3, 0), None);
}

#[test]
fn every_scanline_is_rendered_once_when_divisions_divide_the_height() {
    let m = meta(2, 12, 4);
    let mut seen = vec![0u32; 12];
    for d in 0..4 {
        for r in 0..m.rows() {
            seen[m.camera_row(d, r).unwrap() as usize] += 1;
        }
    }
    assert!(seen.iter().all(|n| *n == 1));
}

#[test]
fn pixel_offsets_are_row_major() {
    let m = meta(5, 6, 2);
    assert_eq!(m.pixel_offset(0, 0), Some(0));
    assert_eq!(m.pixel_offset(1, 0), Some(3));
    assert_eq!(m.pixel_offset(4, 0), Some(12));
    assert_eq!(m.pixel_offset(0, 1), Some(15));
    assert_eq!(m.pixel_offset(4, 2), Some(42));
    assert_eq!(m.pixel_offset(5, 0), None);
    assert_eq!(m.pixel_offset(0, 3), None);
}

#[test]
fn last_pixel_ends_with_the_slice() {
    let m = meta(5, 6, 2);
    let last = m.pixel_offset(4, 2).unwrap();
    assert_eq!(last + 3, m.slice_bytes().unwrap());
}

#[test]
fn a_slice_pixel_lies_at_its_place_in_the_frame() {
    let m = meta(5, 6, 2);
    let whole = meta(5, 6, 1);
    for d in 0..2u32 {
        for r in 0..3u32 {
            for x in 0..5u32 {
                let in_slice = m.pixel_offset(x, r).unwrap();
                let in_frame = whole.pixel_offset(x, d * 3 + r).unwrap();
                assert_eq!(d as usize * m.slice_bytes().unwrap() + in_slice, in_frame);
            }
        }
    }
}

#[test]
fn put_pixel_writes_three_bytes() {
    let mut buf = vec![0u8; 9];
    assert!(put_pixel(&mut buf, 3, Rgb { r: 1, g: 2, b: 3 }));
    assert_eq!(buf, vec![0, 0, 0, 1, 2, 3, 0, 0, 0]);
    assert!(put_pixel(&mut buf, 6, Rgb { r: 4, g: 5, b: 6 }));
    assert_eq!(buf, vec![0, 0, 0, 1, 2, 3, 4, 5, 6]);
}

#[test]
fn put_pixel_refuses_what_does_not_fit() {
    let mut buf = vec![9u8; 5];
    assert!(!put_pixel(&mut buf, 3, Rgb { r: 1, g: 2, b: 3 }));
    assert_eq!(buf, vec![9u8; 5]);
    let mut short = vec![9u8; 2];
    assert!(!put_pixel(&mut short, 0, Rgb { r: 1, g: 2, b: 3 }));
    assert!(!put_pixel(&mut buf, usize::MAX, Rgb { r: 1, g: 2, b: 3 }));
}

#[test]
fn pixels_may_be_written_in_any_order() {
    let a = Rgb { r: 1, g: 2, b: 3 };
    let b = Rgb { r: 4, g: 5, b: 6 };
    let mut first = vec![0u8; 12];
    let mut second = vec![0u8; 12];
    put_pixel(&mut first, 0, a);
    put_pixel(&mut first, 6, b);
    put_pixel(&mut second, 6, b);
    put_pixel(&mut second, 0, a);
    assert_eq!(first, second);
}

#[test]
fn place_row_copies_the_row() {
    let mut buf = vec![0u8; 8];
    assert!(place_row(&mut buf, 2, &vec![1, 2, 3]));
    assert_eq!(buf, vec![0, 0, 1, 2, 3, 0, 0, 0]);
    assert!(!place_row(&mut buf, 6, &vec![1, 2, 3]));
    assert_eq!(buf, vec![0, 0, 1, 2, 3, 0, 0, 0]);
    assert!(place_row(&mut buf, 8, &vec![]));
}

#[test]
fn rows_may_be_placed_in_any_order() {
    let mut first = vec![0u8; 6];
    let mut second = vec![0u8; 6];
    place_row(&mut first, 0, &vec![1, 2, 3]);
    place_row(&mut first, 3, &vec![4, 5, 6]);
    place_row(&mut second, 3, &vec![4, 5, 6]);
    place_row(&mut second, 0, &vec![1, 2, 3]);
    assert_eq!(first, second);
    assert_eq!(first, vec![1, 2, 3, 4, 5, 6]);
}

fn coordinates(x: u32, y: u32) -> Rgb {
    Rgb { r: x as u8, g: y as u8, b: 200 }
}

#[test]
fn render_row_asks_for_each_column_on_the_rows_scanline() {
    let m = meta(3, 4, 2);
    let row = render_row(&m, 1, 0, &coordinates).unwrap();
    assert_eq!(row, vec![0, 1, 200, 1, 1, 200, 2, 1, 200]);
    let top = render_row(&m, 0, 0, &coordinates).unwrap();
    assert_eq!(top, vec![0, 3, 200, 1, 3, 200, 2, 3, 200]);
}

#[test]
fn render_row_knows_no_row_beyond_the_division() {
    let m = meta(3, 4, 2);
    assert_eq!(render_row(&m, 0, 2, &coordinates), None);
    assert_eq!(render_row(&m, 2, 0, &coordinates), None);
}

#[test]
fn render_division_has_its_rows_top_down() {
    let m = meta(2, 4, 2);
    let upper = render_division(&m, 0, &coordinates).unwrap();
    assert_eq!(upper, vec![0, 3, 200, 1, 3, 200, 0, 2, 200, 1, 2, 200]);
    let lower = render_division(&m, 1, &coordinates).unwrap();
    assert_eq!(lower, vec![0, 1, 200, 1, 1, 200, 0, 0, 200, 1, 0, 200]);
    assert_eq!(render_division(&m, 2, &coordinates), None);
}

#[test]
fn divisions_laid_end_to_end_are_the_frame() {
    let parts = meta(3, 6, 3);
    let whole = meta(3, 6, 1);
    let mut joined = Vec::new();
    for d in 0..3 {
        joined.extend(render_division(&parts, d, &coordinates).unwrap());
    }
    assert_eq!(joined, render_division(&whole, 0, &coordinates).unwrap());
}

#[test]
fn render_division_of_an_empty_division_is_empty() {
    let m = meta(3, 2, 4);
    assert_eq!(render_division(&m, 0, &coordinates), Some(vec![]));
}

#[test]
fn slice_of_rows_has_each_row_in_its_place() {
    let m = meta(2, 6, 2);
    let rows = vec![vec![1u8; 6], vec![2u8; 6], vec![3u8; 6]];
    let slice = ray_tracer::tile::slice_of_rows(&m, &rows).unwrap();
    assert_eq!(slice, vec![1, 1, 1, 1, 1, 1, 2, 2, 2, 2, 2, 2, 3, 3, 3, 3, 3, 3]);
}

#[test]
fn slice_of_rows_refuses_what_is_no_division() {
    let m = meta(2, 6, 2);
    let slice_of_rows = ray_tracer::tile::slice_of_rows;
    assert_eq!(slice_of_rows(&m, &vec![vec![1u8; 6], vec![2u8; 6]]), None);
    assert_eq!(slice_of_rows(&m, &vec![vec![1u8; 6]; 4]), None);
    assert_eq!(slice_of_rows(&m, &vec![vec![1u8; 6], vec![2u8; 5], vec![3u8; 6]]), None);
    assert_eq!(slice_of_rows(&m, &vec![vec![1u8; 6], vec![2u8; 6], vec![3u8; 7]]), None);
    assert_eq!(slice_of_rows(&meta(2, 1, 2), &Vec::new()), Some(Vec::new()));
    assert_eq!(slice_of_rows(&meta(0, 4, 2), &vec![Vec::new(), Vec::new()]), Some(Vec::new()));
}

#[test]
fn rows_rendered_apart_make_the_division() {
    let m = meta(3, 6, 2);
    for d in 0..2 {
        let mut rows: Vec<Vec<u8>> =
            (0..3).rev().map(|r| render_row(&m, d, r, &coordinates).unwrap()).collect();
        rows.reverse();
        assert_eq!(
            ray_tracer::tile::slice_of_rows(&m, &rows),
            render_division(&m, d, &coordinates)
        );
    }
}
