use ray_tracer::coordinator::{id_text, JobTable, PollError, PollReply};
use ray_tracer::frame::RenderMeta;
use ray_tracer::job::{requests, Job, RenderInfo};
use ray_tracer::slices::{assemble, division_order, ImageSlice};
use ray_tracer::tile::Rgb;
use ray_tracer::worker::render_slice;

fn solid(id: u128, division_no: u32, len: usize, rgb: [u8; 3]) -> ImageSlice {
    let mut image = Vec::new();
    while image.len() < len {
        image.extend_from_slice(&rgb);
    }
    ImageSlice { division_no, image, id }
}

fn status_of(answer: &Result<PollReply, PollError>) -> String {
    answer.as_ref().unwrap().status().unwrap()
}

fn close(a: u8, b: u8) -> bool {
    (a as i32 - b as i32).abs() <= 40
}

#[test]
fn round_trip_of_three_divisions() {
    let mut table = JobTable::new();
    let meta = table.submit(8, 24, 3).unwrap();
    let text = id_text(&meta);
    let len = meta.slice_bytes().unwrap();
    assert_eq!(len, 8 * 8 * 3);

    assert_eq!(status_of(&table.poll(&text)), "not finished (0/3)");
    assert!(table.record(solid(meta.id, 2, len, [0, 0, 255])));
    assert_eq!(status_of(&table.poll(&text)), "not finished (1/3)");
    assert!(table.record(solid(meta.id, 0, len, [255, 0, 0])));
    assert_eq!(status_of(&table.poll(&text)), "not finished (2/3)");
    assert!(table.record(solid(meta.id, 1, len, [0, 255, 0])));
    assert_eq!(table.len(), 1);

    let file = match table.poll(&text) {
        Ok(PollReply::Image(file)) => file,
        other => panic!("no frame: {:?}", other),
    };
    assert_eq!(&file[..2], &[0xff, 0xd8]);
    let frame = image::load_from_memory(&file).unwrap().to_rgb8();
    assert_eq!(frame.width(), 8);
    assert_eq!(frame.height(), 24);
    let top = frame.get_pixel(4, 3).0;
    let middle = frame.get_pixel(4, 12).0;
    let bottom = frame.get_pixel(4, 20).0;
    assert!(close(top[0], 255) && close(top[1], 0) && close(top[2], 0), "{:?}", top);
    assert!(close(middle[0], 0) && close(middle[1], 255) && close(middle[2], 0), "{:?}", middle);
    assert!(close(bottom[0], 0) && close(bottom[1], 0) && close(bottom[2], 255), "{:?}", bottom);

    assert_eq!(table.len(), 0);
    assert_eq!(status_of(&table.poll(&text)), "no such job");
}

#[test]
fn poll_of_what_is_no_id_is_invalid() {
    let mut table = JobTable::new();
    assert_eq!(status_of(&table.poll("not an id")), "invalid id");
    assert_eq!(status_of(&table.poll("")), "invalid id");
    assert_eq!(status_of(&table.poll("936da01f-9abd-4d9d-80c7-02af85c822ag")), "invalid id");
    assert!(matches!(table.poll_parsed(None), Ok(PollReply::InvalidId)));
}

#[test]
fn poll_of_an_unknown_id_finds_no_job() {
    let mut table = JobTable::new();
    table.submit(4, 4, 2).unwrap();
    assert_eq!(status_of(&table.poll("936da01f-9abd-4d9d-80c7-02af85c822a8")), "no such job");
    assert!(matches!(table.poll_job(5), Ok(PollReply::NoSuchJob)));
    assert_eq!(table.len(), 1);
}

#[test]
fn poll_reads_the_forms_of_an_id() {
    let mut table = JobTable::new();
    let id = 0x936d_a01f_9abd_4d9d_80c7_02af_85c8_22a8u128;
    assert!(table.open(RenderMeta { height: 2, width: 2, divisions: 4, id }));
    for text in [
        "936da01f-9abd-4d9d-80c7-02af85c822a8",
        "936DA01F-9ABD-4D9D-80C7-02AF85C822A8",
        "936da01f9abd4d9d80c702af85c822a8",
        "{936da01f-9abd-4d9d-80c7-02af85c822a8}",
        "urn:uuid:936da01f-9abd-4d9d-80c7-02af85c822a8",
    ] {
        assert_eq!(status_of(&table.poll(text)), "not finished (0/4)", "{}", text);
    }
}

#[test]
fn id_text_is_hyphenated_lower_case() {
    let meta = RenderMeta {
        height: 1,
        width: 1,
        divisions: 1,
        id: 0xa1a2_a3a4_b1b2_c1c2_d1d2_d3d4_d5d6_d7d8,
    };
    assert_eq!(id_text(&meta), "a1a2a3a4-b1b2-c1c2-d1d2-d3d4d5d6d7d8");
    let small = RenderMeta { height: 1, width: 1, divisions: 1, id: 0x1f };
    assert_eq!(id_text(&small), "00000000-0000-0000-0000-00000000001f");
}

#[test]
fn submitted_jobs_have_random_ids_that_differ() {
    let mut table = JobTable::new();
    let first = table.submit(4, 4, 2).unwrap();
    let second = table.submit(6, 8, 3).unwrap();
    assert_ne!(first.id, second.id);
    for meta in [first, second] {
        assert_eq!(meta.id & 0xf000_c000_0000_0000_0000, 0x4000_8000_0000_0000_0000);
        assert_eq!(uuid::Uuid::from_u128(meta.id).get_version_num(), 4);
    }
    assert_eq!((second.width, second.height, second.divisions), (6, 8, 3));
    assert_eq!(table.len(), 2);
    assert_eq!(table.progress(first.id), Some((0, 2)));
    assert_eq!(table.progress(second.id), Some((0, 3)));
}

#[test]
fn open_refuses_an_id_in_use() {
    let mut table = JobTable::new();
    let meta = RenderMeta { height: 4, width: 4, divisions: 2, id: 11 };
    assert!(table.open(meta));
    assert!(!table.open(RenderMeta { height: 9, width: 9, divisions: 9, id: 11 }));
    assert_eq!(table.len(), 1);
    assert_eq!(table.progress(11), Some((0, 2)));
    assert_eq!(table.find(11), Some(0));
    assert_eq!(table.find(12), None);
}

#[test]
fn a_slice_for_no_job_is_dropped() {
    let mut table = JobTable::new();
    assert!(table.open(RenderMeta { height: 4, width: 4, divisions: 2, id: 11 }));
    assert!(!table.record(solid(12, 0, 24, [1, 2, 3])));
    assert_eq!(table.progress(11), Some((0, 2)));
    assert_eq!(table.progress(12), None);
    assert_eq!(table.len(), 1);
}

#[test]
fn a_slice_goes_to_its_job_alone() {
    let mut table = JobTable::new();
    assert!(table.open(RenderMeta { height: 4, width: 4, divisions: 2, id: 11 }));
    assert!(table.open(RenderMeta { height: 4, width: 4, divisions: 2, id: 12 }));
    assert!(table.record(solid(12, 1, 24, [1, 2, 3])));
    assert_eq!(table.progress(11), Some((0, 2)));
    assert_eq!(table.progress(12), Some((1, 2)));
}

#[test]
fn slices_of_one_division_count_once() {
    let mut table = JobTable::new();
    assert!(table.open(RenderMeta { height: 4, width: 4, divisions: 2, id: 11 }));
    assert!(table.record(solid(11, 1, 24, [1, 2, 3])));
    assert!(table.record(solid(11, 1, 24, [4, 5, 6])));
    assert_eq!(table.progress(11), Some((1, 2)));
    assert_eq!(status_of(&table.poll_job(11)), "not finished (1/2)");
}

#[test]
fn slices_of_a_division_that_the_job_lacks_do_not_count() {
    let mut table = JobTable::new();
    assert!(table.open(RenderMeta { height: 4, width: 4, divisions: 2, id: 11 }));
    assert!(table.record(solid(11, 2, 24, [1, 2, 3])));
    assert!(table.record(solid(11, u32::MAX, 24, [1, 2, 3])));
    assert_eq!(table.progress(11), Some((0, 2)));
}

#[test]
fn a_complete_job_with_too_few_bytes_is_not_encodable_and_stays() {
    let mut table = JobTable::new();
    assert!(table.open(RenderMeta { height: 4, width: 4, divisions: 2, id: 11 }));
    assert!(table.record(solid(11, 0, 24, [1, 2, 3])));
    assert!(table.record(solid(11, 1, 21, [1, 2, 3])));
    assert!(matches!(table.poll_job(11), Err(PollError::Unencodable)));
    assert_eq!(table.len(), 1);
    assert!(table.record(solid(11, 1, 3, [1, 2, 3])));
    assert!(matches!(table.poll_job(11), Ok(PollReply::Image(_))));
    assert_eq!(table.len(), 0);
}

#[test]
fn settle_hands_the_file_out_and_removes_the_job() {
    let mut table = JobTable::new();
    assert!(table.open(RenderMeta { height: 4, width: 4, divisions: 2, id: 11 }));
    assert!(table.open(RenderMeta { height: 4, width: 4, divisions: 2, id: 12 }));
    assert!(matches!(table.settle(11, None), Err(PollError::Unencodable)));
    assert_eq!(table.len(), 2);
    match table.settle(11, Some(vec![1, 2, 3])) {
        Ok(PollReply::Image(file)) => assert_eq!(file, vec![1, 2, 3]),
        other => panic!("no frame: {:?}", other),
    }
    assert_eq!(table.find(11), None);
    assert_eq!(table.find(12), Some(0));
}

#[test]
fn encoded_frame_is_a_jpeg_of_the_jobs_size() {
    let mut table = JobTable::new();
    assert!(table.open(RenderMeta { height: 16, width: 32, divisions: 1, id: 3 }));
    assert!(table.record(solid(3, 0, 16 * 32 * 3, [200, 100, 50])));
    let file = match table.poll_job(3) {
        Ok(PollReply::Image(file)) => file,
        other => panic!("no frame: {:?}", other),
    };
    assert_ne!(file.len(), 16 * 32 * 3);
    assert_eq!(&file[file.len() - 2..], &[0xff, 0xd9]);
    let frame = image::load_from_memory(&file).unwrap().to_rgb8();
    assert_eq!((frame.width(), frame.height()), (32, 16));
    let p = frame.get_pixel(16, 8).0;
    assert!(close(p[0], 200) && close(p[1], 100) && close(p[2], 50), "{:?}", p);
}

#[test]
fn status_lines() {
    assert_eq!(PollReply::InvalidId.status().unwrap(), "invalid id");
    assert_eq!(PollReply::NoSuchJob.status().unwrap(), "no such job");
    assert_eq!(
        PollReply::NotFinished { received: 0, divisions: 20 }.status().unwrap(),
        "not finished (0/20)"
    );
    assert_eq!(
        PollReply::NotFinished { received: 19, divisions: 4294967295 }.status().unwrap(),
        "not finished (19/4294967295)"
    );
    assert_eq!(PollReply::Image(vec![1]).status(), None);
}

#[test]
fn requests_go_to_each_division() {
    let meta = RenderMeta { height: 1080, width: 1920, divisions: 20, id: 5 };
    let world = vec![1u8, 2, 3];
    let out = requests(meta, &world);
    assert_eq!(out.len(), 20);
    for (d, request) in out.iter().enumerate() {
        assert_eq!(request.division_no as usize, d);
        assert_eq!(request.render_meta, meta);
        assert_eq!(request.world, &world);
    }
    assert!(requests(RenderMeta { divisions: 0, ..meta }, &world).is_empty());
}

#[test]
fn job_counts_divisions() {
    let mut job = Job::new(RenderMeta { height: 4, width: 4, divisions: 3, id: 1 });
    assert_eq!(job.received(), 0);
    assert!(!job.is_complete());
    job.push(solid(1, 2, 3, [1, 1, 1]));
    assert!(job.has_division(2));
    assert!(!job.has_division(0));
    job.push(solid(1, 0, 3, [2, 2, 2]));
    job.push(solid(1, 0, 3, [3, 3, 3]));
    assert_eq!(job.received(), 2);
    assert!(!job.is_complete());
    job.push(solid(1, 1, 3, [4, 4, 4]));
    assert_eq!(job.received(), 3);
    assert!(job.is_complete());
    assert_eq!(job.frame(), vec![2, 2, 2, 3, 3, 3, 4, 4, 4, 1, 1, 1]);
}

#[test]
fn a_job_without_divisions_is_complete_at_once() {
    let job = Job::new(RenderMeta { height: 4, width: 4, divisions: 0, id: 1 });
    assert!(job.is_complete());
    assert_eq!(job.received(), 0);
    assert!(job.frame().is_empty());
}

#[test]
fn division_order_is_stable() {
    let slices = vec![
        solid(1, 2, 3, [0, 0, 0]),
        solid(1, 0, 3, [1, 1, 1]),
        solid(1, 2, 3, [2, 2, 2]),
        solid(1, 1, 3, [3, 3, 3]),
        solid(1, 0, 3, [4, 4, 4]),
        solid(1, 7, 3, [5, 5, 5]),
    ];
    assert_eq!(division_order(&slices), vec![1, 4, 3, 0, 2, 5]);
    assert_eq!(
        assemble(&slices),
        vec![1, 1, 1, 4, 4, 4, 3, 3, 3, 0, 0, 0, 2, 2, 2, 5, 5, 5]
    );
    assert!(division_order(&Vec::new()).is_empty());
    assert!(assemble(&Vec::new()).is_empty());
}

#[test]
fn frame_does_not_depend_on_the_order_of_arrival() {
    let orders: [[u32; 3]; 6] = [[0, 1, 2], [0, 2, 1], [1, 0, 2], [1, 2, 0], [2, 0, 1], [2, 1, 0]];
    for order in orders {
        let slices: Vec<ImageSlice> =
            order.iter().map(|d| solid(1, *d, 6, [*d as u8, 10, 20])).collect();
        assert_eq!(
            assemble(&slices),
            vec![0, 10, 20, 0, 10, 20, 1, 10, 20, 1, 10, 20, 2, 10, 20, 2, 10, 20]
        );
    }
}

#[test]
fn worker_renders_its_division_under_the_jobs_id() {
    let meta = RenderMeta { height: 4, width: 2, divisions: 2, id: 99 };
    let shade = |x: u32, y: u32| Rgb { r: x as u8, g: y as u8, b: 0 };
    let info = RenderInfo { world: (), render_meta: meta, division_no: 1 };
    let slice = render_slice(&info, &shade).unwrap();
    assert_eq!(slice.id, 99);
    assert_eq!(slice.division_no, 1);
    assert_eq!(slice.image, vec![0, 1, 0, 1, 1, 0, 0, 0, 0, 1, 0, 0]);
    let beyond = RenderInfo { world: (), render_meta: meta, division_no: 2 };
    assert!(render_slice(&beyond, &shade).is_none());
}

#[test]
fn workers_and_coordinator_make_the_whole_frame() {
    let mut table = JobTable::new();
    let meta = table.submit(4, 6, 3).unwrap();
    let shade = |x: u32, y: u32| Rgb { r: (x * 60) as u8, g: (y * 40) as u8, b: 7 };
    let world = ();
    let mut out = requests(meta, &world);
    out.reverse();
    for request in out.iter() {
        assert!(table.record(render_slice(request, &shade).unwrap()));
    }
    let at = table.find(meta.id).unwrap();
    assert_eq!(at, 0);
    let whole = RenderInfo {
        world: (),
        render_meta: RenderMeta { divisions: 1, ..meta },
        division_no: 0,
    };
    let expected = render_slice(&whole, &shade).unwrap().image;
    let mut job = Job::new(meta);
    for request in out.iter() {
        job.push(render_slice(request, &shade).unwrap());
    }
    assert_eq!(job.frame(), expected);
    assert!(matches!(table.poll(&id_text(&meta)), Ok(PollReply::Image(_))));
}

#[test]
fn slice_from_rows_carries_the_jobs_id_and_the_divisions_number() {
    let meta = RenderMeta { height: 4, width: 1, divisions: 2, id: 99 };
    let info = RenderInfo { world: (), render_meta: meta, division_no: 1 };
    let rows = vec![vec![1u8, 2, 3], vec![4u8, 5, 6]];
    let slice = ray_tracer::worker::slice_from_rows(&info, &rows).unwrap();
    assert_eq!((slice.id, slice.division_no), (99, 1));
    assert_eq!(slice.image, vec![1, 2, 3, 4, 5, 6]);
    let beyond = RenderInfo { world: (), render_meta: meta, division_no: 2 };
    assert!(ray_tracer::worker::slice_from_rows(&beyond, &rows).is_none());
    assert!(ray_tracer::worker::slice_from_rows(&info, &vec![vec![1u8, 2, 3]]).is_none());
}

#[test]
fn a_submission_to_an_empty_table_opens_the_job() {
    for _ in 0..50 {
        let mut table = JobTable::new();
        let meta = table.submit(1920, 1080, 20).unwrap();
        assert_eq!(table.len(), 1);
        assert_eq!(table.find(meta.id), Some(0));
        assert_eq!(requests(meta, &()).len(), 20);
    }
}

#[test]
fn a_submission_opens_the_job_behind_jobs_without_random_ids() {
    let mut table = JobTable::new();
    for id in 0..20u128 {
        assert!(table.open(RenderMeta { height: 2, width: 2, divisions: 1, id }));
    }
    let meta = table.submit(4, 4, 2).unwrap();
    assert_eq!(table.len(), 21);
    assert_eq!(table.find(meta.id), Some(20));
}

#[test]
fn a_request_of_no_ids_length_is_invalid() {
    let mut table = JobTable::new();
    table.submit(4, 4, 2).unwrap();
    for text in ["", "x", "936da01f-9abd-4d9d-80c7-02af85c822a", "936da01f-9abd-4d9d-80c7-02af85c822a80"] {
        assert!(matches!(table.poll(text), Ok(PollReply::InvalidId)), "{}", text);
    }
    assert_eq!(table.len(), 1);
}

#[test]
fn a_complete_job_gets_its_frame_where_its_slices_fill_the_frame() {
    for (width, height, len, frame) in [
        (4u32, 4u32, 48usize, true),
        (4, 4, 47, false),
        (4, 4, 49, true),
        (0, 0, 0, true),
        (65535, 1, 65535 * 3, true),
        (65536, 1, 65536 * 3, false),
        (1, 65536, 65536 * 3, false),
    ] {
        let mut table = JobTable::new();
        assert!(table.open(RenderMeta { height, width, divisions: 1, id: 5 }));
        assert!(table.record(ImageSlice { division_no: 0, image: vec![9u8; len], id: 5 }));
        let answer = table.poll_job(5);
        assert_eq!(answer.is_ok(), frame, "{} {} {}", width, height, len);
        assert_eq!(table.len(), if frame { 0 } else { 1 });
    }
}
