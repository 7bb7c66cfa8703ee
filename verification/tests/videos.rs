use image_slider::boomerang::{boomerang_cycle, boomerang_pass, Boomerang, BoomerangCue};
use image_slider::slider::{Arrival, Frame, Outline, Slider, SliderCue};

fn play(total: usize, hold: i32, fade: i32, arrivals: &[Arrival]) -> Option<Vec<SliderCue>> {
    let mut slider = Slider::begin(Outline { total, hold, fade }, arrivals[0])?;
    let mut coming = arrivals[1..].iter();
    let mut cues = Vec::new();
    loop {
        let cue = slider.next_cue();
        cues.push(cue);
        match cue {
            SliderCue::Receive => slider.receive(*coming.next().unwrap()),
            SliderCue::Finish => return Some(cues),
            _ => {}
        }
    }
}

fn frames(cues: &[SliderCue]) -> Vec<Frame> {
    let mut video = Vec::new();
    for cue in cues {
        match *cue {
            SliderCue::Hold { image, frames } => {
                for _ in 0..frames {
                    video.push(Frame::Still { image });
                }
            }
            SliderCue::Fade { from, to, frames } => {
                for step in 0..frames {
                    video.push(Frame::Mix { from, to, step });
                }
            }
            _ => {}
        }
    }
    video
}

#[test]
fn twenty_pictures_make_597_frames() {
    let cues = play(20, 27, 3, &[Arrival::Ready; 20]).unwrap();
    assert_eq!(frames(&cues).len(), 597);
}

#[test]
fn slider_holds_and_fades_in_turn() {
    let cues = play(2, 2, 1, &[Arrival::Ready, Arrival::Ready]).unwrap();
    assert_eq!(
        cues,
        vec![
            SliderCue::Hold { image: 0, frames: 2 },
            SliderCue::Receive,
            SliderCue::Fade { from: 0, to: 1, frames: 1 },
            SliderCue::Report { slot: 0 },
            SliderCue::Hold { image: 1, frames: 2 },
            SliderCue::Report { slot: 1 },
            SliderCue::Finish,
        ]
    );
    assert_eq!(
        frames(&cues),
        vec![
            Frame::Still { image: 0 },
            Frame::Still { image: 0 },
            Frame::Mix { from: 0, to: 1, step: 0 },
            Frame::Still { image: 1 },
            Frame::Still { image: 1 },
        ]
    );
}

#[test]
fn slider_frames_follow_the_layout() {
    let (hold, fade) = (4, 3);
    let video = frames(&play(5, hold, fade, &[Arrival::Ready; 5]).unwrap());
    assert_eq!(video.len(), 5 * 4 + 4 * 3);
    for (t, frame) in video.iter().enumerate() {
        let (slot, rest) = (t / 7, (t % 7) as i32);
        let expected = if rest < hold {
            Frame::Still { image: slot }
        } else {
            Frame::Mix { from: slot, to: slot + 1, step: rest - hold }
        };
        assert_eq!(*frame, expected);
    }
}

#[test]
fn slider_keeps_the_current_picture_where_the_next_is_missing() {
    let cues = play(3, 2, 1, &[Arrival::Ready, Arrival::Missing, Arrival::Ready]).unwrap();
    assert_eq!(
        cues,
        vec![
            SliderCue::Hold { image: 0, frames: 2 },
            SliderCue::Receive,
            SliderCue::Report { slot: 0 },
            SliderCue::Hold { image: 0, frames: 2 },
            SliderCue::Receive,
            SliderCue::Fade { from: 0, to: 2, frames: 1 },
            SliderCue::Report { slot: 1 },
            SliderCue::Hold { image: 2, frames: 2 },
            SliderCue::Report { slot: 2 },
            SliderCue::Finish,
        ]
    );
    assert_eq!(frames(&cues).len(), 3 * 2 + 1);
}

#[test]
fn slider_skips_a_picture_without_pixels() {
    let cues = play(3, 2, 1, &[Arrival::Empty, Arrival::Ready, Arrival::Ready]).unwrap();
    assert_eq!(
        cues,
        vec![
            SliderCue::Skip { slot: 0 },
            SliderCue::Receive,
            SliderCue::Adopt { image: 1 },
            SliderCue::Hold { image: 1, frames: 2 },
            SliderCue::Receive,
            SliderCue::Fade { from: 1, to: 2, frames: 1 },
            SliderCue::Report { slot: 1 },
            SliderCue::Hold { image: 2, frames: 2 },
            SliderCue::Report { slot: 2 },
            SliderCue::Finish,
        ]
    );
    let cut = play(3, 2, 1, &[Arrival::Empty, Arrival::Missing, Arrival::Ready]).unwrap();
    assert_eq!(
        cut,
        vec![SliderCue::Skip { slot: 0 }, SliderCue::Receive, SliderCue::Finish]
    );
}

#[test]
fn slider_needs_a_first_picture() {
    assert!(play(3, 2, 1, &[Arrival::Missing, Arrival::Ready, Arrival::Ready]).is_none());
}

#[test]
fn slider_reports_every_slot_and_asks_once_for_each_further_picture() {
    let arrivals = [
        Arrival::Ready,
        Arrival::Missing,
        Arrival::Missing,
        Arrival::Ready,
        Arrival::Missing,
    ];
    let cues = play(5, 3, 2, &arrivals).unwrap();
    let reports: Vec<SliderCue> = (0..5).map(|slot| SliderCue::Report { slot }).collect();
    let reported: Vec<SliderCue> =
        cues.iter().copied().filter(|c| matches!(c, SliderCue::Report { .. })).collect();
    assert_eq!(reported, reports);
    assert_eq!(cues.iter().filter(|c| **c == SliderCue::Receive).count(), 4);
    assert_eq!(frames(&cues).len(), 5 * 3 + 2);
}

#[test]
fn slider_without_frames_writes_none() {
    let cues = play(2, -1, 0, &[Arrival::Ready, Arrival::Ready]).unwrap();
    assert_eq!(frames(&cues), vec![]);
}

#[test]
fn boomerang_goes_forward_and_back() {
    assert_eq!(boomerang_cycle(5), vec![0, 1, 2, 3, 4, 3, 2, 1]);
    assert_eq!(boomerang_cycle(3), vec![0, 1, 2, 1]);
    assert_eq!(boomerang_cycle(2), vec![0, 1]);
    assert_eq!(boomerang_cycle(1), vec![0]);
    assert_eq!(boomerang_cycle(0), Vec::<usize>::new());
}

#[test]
fn boomerang_shows_no_picture_twice_in_a_row() {
    for n in 2..12 {
        let cycle = boomerang_cycle(n);
        for k in 0..cycle.len() {
            let (a, b) = (cycle[k] as i64, cycle[(k + 1) % cycle.len()] as i64);
            assert_eq!((a - b).abs(), 1);
        }
    }
}

#[test]
fn boomerang_visits_ends_once_and_others_twice_in_both_directions() {
    for n in 3..10 {
        let cycle = boomerang_cycle(n);
        for i in 0..n {
            let visits = cycle.iter().filter(|&&k| k == i).count();
            assert_eq!(visits, if i == 0 || i == n - 1 { 1 } else { 2 });
        }
        for k in 1..cycle.len() {
            assert_eq!(cycle[cycle.len() - k], cycle[k]);
        }
    }
}

#[test]
fn boomerang_leaves_out_what_cannot_be_read() {
    let cycle = boomerang_cycle(4);
    assert_eq!(boomerang_pass(&cycle, &vec![true; 4]), cycle);
    assert_eq!(boomerang_pass(&cycle, &vec![true, false, true, true]), vec![0, 2, 3, 2]);
    assert_eq!(boomerang_pass(&cycle, &vec![false; 4]), Vec::<usize>::new());
}

#[test]
fn boomerang_plays_its_cues() {
    let mut video = Boomerang::new(vec![0, 1], 3, 2);
    let mut cues = Vec::new();
    loop {
        let cue = video.next_cue();
        cues.push(cue);
        if cue == BoomerangCue::Finish {
            break;
        }
    }
    assert_eq!(
        cues,
        vec![
            BoomerangCue::LapStart { lap: 0 },
            BoomerangCue::Hold { image: 0, frames: 3 },
            BoomerangCue::Hold { image: 1, frames: 3 },
            BoomerangCue::LapEnd { lap: 0 },
            BoomerangCue::LapStart { lap: 1 },
            BoomerangCue::Hold { image: 0, frames: 3 },
            BoomerangCue::Hold { image: 1, frames: 3 },
            BoomerangCue::LapEnd { lap: 1 },
            BoomerangCue::Finish,
        ]
    );
    assert_eq!(video.next_cue(), BoomerangCue::Finish);
}

#[test]
fn boomerang_video_repeats_the_held_pass() {
    let cycle = boomerang_cycle(5);
    let mut video = Boomerang::new(cycle.clone(), 3, 2);
    let mut shown = Vec::new();
    loop {
        match video.next_cue() {
            BoomerangCue::Hold { image, frames } => shown.extend(vec![image; frames]),
            BoomerangCue::Finish => break,
            _ => {}
        }
    }
    assert_eq!(shown.len(), 8 * 3 * 2);
    for (t, image) in shown.iter().enumerate() {
        assert_eq!(*image, cycle[(t % 24) / 3]);
    }
}
