//! Plain slideshows: every picture that can be read is shown for the same number of frames.
use vstd::prelude::*;

use crate::geometry::{place, placement_of};
use crate::geometry::{Picture, Placement, Size};
use crate::timing::count;

verus! {

/// What is done with one picture of a slideshow.
#[derive(Clone, Copy, Debug, PartialEq, Eq, Structural)]
pub struct Slide {
    pub placement: Placement,
    /// How often the picture is written; a count below zero means never.
    pub frames: i32,
    /// Whether the progress is reported.
    pub reported: bool,
}

/// The slide for a picture: one without pixels is passed over, and any other is written
/// `frames_per_image` times and reported.
pub open spec fn slide_for(picture: Picture, frame: Size, frames_per_image: i32) -> Slide {
    Slide {
        placement: placement_of(picture, frame),
        frames: if picture.empty {
            0
        } else {
            frames_per_image
        },
        reported: !picture.empty,
    }
}

/// Decides what is done with a picture in a slideshow with frames of size `frame`.
pub fn plan_slide(picture: Picture, frame: Size, frames_per_image: i32) -> (r: Slide)
    ensures
        r == slide_for(picture, frame, frames_per_image),
        r.frames == if picture.empty {
            0
        } else {
            frames_per_image
        },
        r.reported == !picture.empty,
        r.placement == Placement::Skip <==> picture.empty,
        r.placement == Placement::Keep <==> !picture.empty && picture.size.width == frame.width
            && picture.size.height == frame.height,
{
    let placement = place(picture, frame);
    match placement {
        Placement::Skip => Slide { placement, frames: 0, reported: false },
        _ => Slide { placement, frames: frames_per_image, reported: true },
    }
}

/// The frames of a whole slideshow, each as the number of the picture that it shows.
pub open spec fn slideshow_video(pictures: Seq<Picture>, frame: Size, per_image: i32) -> Seq<int>
    decreases pictures.len(),
{
    if pictures.len() == 0 {
        Seq::empty()
    } else {
        slideshow_video(pictures.drop_last(), frame, per_image) + Seq::new(
            count(slide_for(pictures.last(), frame, per_image).frames),
            |t: int| pictures.len() - 1,
        )
    }
}

/// How many of the pictures have pixels.
pub open spec fn shown(pictures: Seq<Picture>) -> nat
    decreases pictures.len(),
{
    if pictures.len() == 0 {
        0
    } else if pictures.last().empty {
        shown(pictures.drop_last())
    } else {
        shown(pictures.drop_last()) + 1
    }
}

/// Every picture with pixels is shown for the same number of frames and reported, whatever its
/// size, and is resized exactly where its size is not that of the frame. One without pixels is
/// neither shown nor reported.
pub proof fn law_slides_are_alike(picture: Picture, frame: Size, per_image: i32)
    ensures
        ({
            let slide = slide_for(picture, frame, per_image);
            if picture.empty {
                slide.placement == Placement::Skip && slide.frames == 0 && !slide.reported
            } else {
                &&& slide.frames == per_image
                &&& slide.reported
                &&& slide.placement != Placement::Skip
                &&& slide.placement == Placement::Keep <==> picture.size.width == frame.width
                    && picture.size.height == frame.height
            }
        }),
{
}

/// One more picture adds its own frames at the end of a slideshow and changes nothing before.
pub proof fn law_slideshow_grows_by_its_last_picture(
    pictures: Seq<Picture>,
    last: Picture,
    frame: Size,
    per_image: i32,
)
    ensures
        ({
            let before = slideshow_video(pictures, frame, per_image);
            let after = slideshow_video(pictures.push(last), frame, per_image);
            let frames = if last.empty || per_image < 0 {
                0int
            } else {
                per_image as int
            };
            &&& after.len() == before.len() + frames
            &&& forall|t: int| 0 <= t < before.len() ==> after[t] == before[t]
            &&& forall|t: int|
                before.len() <= t < after.len() ==> #[trigger] after[t] == pictures.len()
        }),
        slideshow_video(Seq::empty(), frame, per_image).len() == 0,
{
    assert(pictures.push(last).drop_last() =~= pictures);
}

/// A slideshow is as long as its pictures with pixels take together.
pub proof fn law_slideshow_length(pictures: Seq<Picture>, frame: Size, per_image: i32)
    ensures
        slideshow_video(pictures, frame, per_image).len() == shown(pictures) * count(per_image),
    decreases pictures.len(),
{
    if pictures.len() > 0 {
        law_slideshow_length(pictures.drop_last(), frame, per_image);
        let (n, c) = (shown(pictures.drop_last()), count(per_image));
        assert((n + 1) * c == n * c + c) by (nonlinear_arith);
    } else {
        assert(0 * count(per_image) == 0);
    }
}

/// A slideshow shows the pictures in order, and none without pixels.
pub proof fn law_slideshow_order(pictures: Seq<Picture>, frame: Size, per_image: i32)
    ensures
        ({
            let video = slideshow_video(pictures, frame, per_image);
            &&& forall|t: int|
                0 <= t < video.len() ==> 0 <= #[trigger] video[t] < pictures.len()
                    && !pictures[video[t]].empty
            &&& forall|t: int, u: int| 0 <= t <= u < video.len() ==> video[t] <= video[u]
        }),
    decreases pictures.len(),
{
    if pictures.len() > 0 {
        let front = pictures.drop_last();
        law_slideshow_order(front, frame, per_image);
        let video = slideshow_video(pictures, frame, per_image);
        let before = slideshow_video(front, frame, per_image);
        assert forall|t: int| 0 <= t < video.len() implies 0 <= #[trigger] video[t]
            < pictures.len() && !pictures[video[t]].empty by {
            if t < before.len() {
                assert(video[t] == before[t]);
                assert(front[before[t]] == pictures[video[t]]);
            }
        }
    }
}

} // verus!
