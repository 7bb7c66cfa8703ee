use image_slider::double::Double;
use image_slider::timing::{fade_weights, frame_count, frame_count_unsigned};

fn double(x: f64) -> Double {
    Double::from_bits(x.to_bits())
}

fn number(d: Double) -> f64 {
    f64::from_bits(d.to_bits())
}

#[test]
fn hold_and_fade_frames_at_thirty_per_second() {
    assert_eq!(frame_count(double(30.0), double(0.1)), 3);
    assert_eq!(frame_count(double(30.0), double(0.9)), 27);
    assert_eq!(frame_count(double(30.0), double(0.5)), 15);
    assert_eq!(frame_count(double(30.0), double(1.1)), 33);
    assert_eq!(frame_count_unsigned(double(30.0), double(0.09)), 3);
}

#[test]
fn a_held_and_faded_picture_takes_one_second() {
    let hold = frame_count(double(30.0), double(0.9));
    let fade = frame_count(double(30.0), double(0.1));
    assert_eq!(hold + fade, 30);
}

#[test]
fn frame_counts_round_halves_away_from_zero() {
    assert_eq!(frame_count(double(5.0), double(0.5)), 3);
    assert_eq!(frame_count(double(-5.0), double(0.5)), -3);
    assert_eq!(frame_count_unsigned(double(-5.0), double(0.5)), 0);
}

#[test]
fn frame_counts_stop_at_the_limits() {
    assert_eq!(frame_count(double(1e10), double(1e10)), i32::MAX);
    assert_eq!(frame_count(double(1e10), double(-1e10)), i32::MIN);
    assert_eq!(frame_count(double(1e300), double(1e300)), i32::MAX);
    assert_eq!(frame_count(double(f64::NAN), double(1.0)), 0);
    assert_eq!(frame_count(double(f64::INFINITY), double(0.0)), 0);
    assert_eq!(frame_count(double(1e-300), double(1e-300)), 0);
    assert_eq!(frame_count_unsigned(double(1e300), double(1.0)), usize::MAX);
}

#[test]
fn frame_counts_agree_with_the_machine() {
    for fps in [24.0, 25.0, 29.97, 30.0, 50.0, 59.94, 60.0, 120.0] {
        for i in 0..2000 {
            let seconds = i as f64 / 1000.0;
            let expected = (fps * seconds).round();
            assert_eq!(frame_count(double(fps), double(seconds)), expected as i32);
            assert_eq!(frame_count_unsigned(double(fps), double(seconds)), expected as usize);
        }
    }
}

#[test]
fn fade_of_three_frames_goes_in_quarters() {
    let expected = [(0.75, 0.25), (0.5, 0.5), (0.25, 0.75)];
    for f in 0..3 {
        let w = fade_weights(f, 3);
        assert_eq!((number(w.outgoing), number(w.incoming)), expected[f as usize]);
    }
}

#[test]
fn fade_weights_agree_with_the_machine() {
    for frames in [1, 2, 5, 6, 10, 30, 97, 1000, i32::MAX] {
        for f in [0, 1, 2, 3, 50, 96, 500, 999, 123_456_789, i32::MAX - 1] {
            if f < frames {
                let alpha = (f as f64 + 1.0) / (frames as f64 + 1.0);
                let w = fade_weights(f, frames);
                assert_eq!(number(w.incoming), alpha);
                assert_eq!(number(w.outgoing), 1.0 - alpha);
            }
        }
    }
}

#[test]
fn fade_never_shows_one_picture_alone() {
    for frames in [1, 3, 7, 100, i32::MAX] {
        for f in [0, frames - 1] {
            let w = fade_weights(f, frames);
            assert!(number(w.incoming) > 0.0 && number(w.incoming) < 1.0);
            assert!(number(w.outgoing) > 0.0 && number(w.outgoing) < 1.0);
        }
    }
}

#[test]
fn fade_gains_weight_from_frame_to_frame() {
    for f in 1..100 {
        let (before, after) = (fade_weights(f - 1, 100), fade_weights(f, 100));
        assert!(number(before.incoming) < number(after.incoming));
        assert!(number(before.outgoing) > number(after.outgoing));
    }
}
