use image_slider::decoder::{
    arrival_of, decode_step, work_queue, worker_step, WorkerAction, WorkerEvent,
};
use image_slider::geometry::{compute_size, place, video_frame, Picture, Placement, Size};
use image_slider::slider::Arrival;
use image_slider::slideshow::{plan_slide, Slide};

fn size(width: i32, height: i32) -> Size {
    Size { width, height }
}

fn picture(width: i32, height: i32) -> Picture {
    Picture { size: size(width, height), empty: width == 0 || height == 0 }
}

fn by_machine(w: i32, h: i32, max_h: i32) -> Size {
    if h <= max_h {
        return size(w & !1, h);
    }
    let new_w = (w as f64 * max_h as f64 / h as f64).round() as i32;
    size(new_w & !1, max_h)
}

#[test]
fn small_pictures_keep_their_height_and_get_an_even_width() {
    assert_eq!(compute_size(1920, 1080, 2160), size(1920, 1080));
    assert_eq!(compute_size(1921, 1081, 2160), size(1920, 1081));
    assert_eq!(compute_size(1, 2160, 2160), size(0, 2160));
    assert_eq!(compute_size(-3, 5, 2160), size(-4, 5));
}

#[test]
fn high_pictures_shrink_in_proportion() {
    assert_eq!(compute_size(3840, 4320, 2160), size(1920, 2160));
    assert_eq!(compute_size(4344, 7728, 2160), size(1214, 2160));
    assert_eq!(compute_size(3000, 4000, 2160), size(1620, 2160));
    assert_eq!(compute_size(3001, 4000, 2160), size(1620, 2160));
    // 2160 * 5 / 4320 is a half: it goes up to 3 and then down to the even 2.
    assert_eq!(compute_size(5, 4320, 2160), size(2, 2160));
    assert_eq!(compute_size(7, 4320, 2160), size(4, 2160));
}

#[test]
fn sizes_agree_with_the_machine() {
    let sides = [
        i32::MIN, i32::MIN + 1, -100_003, -2160, -7, -2, -1, 0, 1, 2, 3, 5, 7, 99, 1080, 2159, 2160,
        2161, 4344, 7728, 46_341, 65_537, 94_906_267, 1_234_567_891, i32::MAX - 1, i32::MAX,
    ];
    for w in sides {
        for h in sides {
            for max_h in sides {
                assert_eq!(compute_size(w, h, max_h), by_machine(w, h, max_h), "{w} {h} {max_h}");
            }
        }
    }
    let mut state: u32 = 1;
    let mut next = || {
        state = state.wrapping_mul(1_664_525).wrapping_add(1_013_904_223);
        state as i32 >> (state % 20)
    };
    for _ in 0..20_000 {
        let (w, h, max_h) = (next(), next(), next());
        assert_eq!(compute_size(w, h, max_h), by_machine(w, h, max_h), "{w} {h} {max_h}");
    }
}

#[test]
fn a_frame_size_is_stable_even_and_not_wider() {
    for w in [1, 2, 99, 4344, 12_345] {
        for h in [1, 2000, 2160, 2161, 7728] {
            let once = compute_size(w, h, 2160);
            assert_eq!(compute_size(once.width, once.height, 2160), once);
            assert_eq!(once.width % 2, 0);
            assert!(once.width <= w && once.height == h.min(2160));
        }
    }
}

#[test]
fn a_scaled_frame_keeps_the_shape() {
    for w in [640, 1999, 4344, 8192] {
        for h in [2161, 3000, 7728] {
            let exact = w as f64 * 2160.0 / h as f64;
            let width = compute_size(w, h, 2160).width as f64;
            assert!(exact - 1.5 <= width && width <= exact + 0.5);
        }
    }
}

#[test]
fn the_first_picture_gives_the_frame() {
    assert_eq!(video_frame(picture(4345, 7728), None), Some(size(4345, 7728)));
    assert_eq!(video_frame(picture(3840, 4320), Some(2160)), Some(size(1920, 2160)));
    assert_eq!(video_frame(picture(0, 0), None), None);
    assert_eq!(video_frame(picture(0, 0), Some(2160)), None);
}

#[test]
fn pictures_are_resized_only_where_the_size_differs() {
    let frame = size(1214, 2160);
    assert_eq!(place(picture(1214, 2160), frame), Placement::Keep);
    assert_eq!(place(picture(1214, 2161), frame), Placement::Resize);
    assert_eq!(place(picture(1215, 2160), frame), Placement::Resize);
    assert_eq!(place(picture(0, 0), frame), Placement::Skip);
    assert_eq!(
        place(Picture { size: frame, empty: true }, frame),
        Placement::Skip
    );
}

#[test]
fn the_worker_delivers_what_it_can_read() {
    let frame = size(4, 4);
    assert_eq!(decode_step(None, frame), Placement::Skip);
    assert_eq!(decode_step(Some(picture(0, 0)), frame), Placement::Skip);
    assert_eq!(decode_step(Some(picture(4, 4)), frame), Placement::Keep);
    assert_eq!(decode_step(Some(picture(8, 4)), frame), Placement::Resize);
    assert_eq!(arrival_of(None), Arrival::Missing);
    assert_eq!(arrival_of(Some(picture(0, 0))), Arrival::Empty);
    assert_eq!(arrival_of(Some(picture(4, 4))), Arrival::Ready);
}

#[test]
fn the_worker_stops_at_the_mark_and_when_alone() {
    assert_eq!(worker_step(WorkerEvent::Job), WorkerAction::Decode);
    assert_eq!(worker_step(WorkerEvent::Delivered), WorkerAction::Take);
    assert_eq!(worker_step(WorkerEvent::Sentinel), WorkerAction::Stop);
    assert_eq!(worker_step(WorkerEvent::QueueClosed), WorkerAction::Stop);
    assert_eq!(worker_step(WorkerEvent::ReceiverGone), WorkerAction::Stop);
}

#[test]
fn the_worker_takes_the_whole_queue_in_order() {
    let queue = work_queue(3);
    assert_eq!(queue, vec![Some(0), Some(1), Some(2), None]);
    assert_eq!(work_queue(0), vec![None]);
    let mut decoded = Vec::new();
    let mut items = queue.into_iter();
    let mut action = WorkerAction::Take;
    let mut job = 0;
    while action != WorkerAction::Stop {
        let event = if action == WorkerAction::Take {
            match items.next() {
                Some(Some(i)) => {
                    job = i;
                    WorkerEvent::Job
                }
                Some(None) => WorkerEvent::Sentinel,
                None => WorkerEvent::QueueClosed,
            }
        } else {
            decoded.push(job);
            WorkerEvent::Delivered
        };
        action = worker_step(event);
    }
    assert_eq!(decoded, vec![0, 1, 2]);
}

#[test]
fn slides_without_pixels_are_passed_over() {
    let frame = size(10, 10);
    let pictures = [picture(10, 10), picture(0, 0), picture(20, 10)];
    let slides: Vec<Slide> = pictures.iter().map(|&p| plan_slide(p, frame, 15)).collect();
    assert_eq!(slides[0], Slide { placement: Placement::Keep, frames: 15, reported: true });
    assert_eq!(slides[1], Slide { placement: Placement::Skip, frames: 0, reported: false });
    assert_eq!(slides[2], Slide { placement: Placement::Resize, frames: 15, reported: true });
    assert_eq!(slides.iter().map(|s| s.frames).sum::<i32>(), 30);
}
