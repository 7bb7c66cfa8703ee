//! Slider videos: every picture is held and then fades into the next one, while pictures
//! further ahead are being decoded.
use vstd::prelude::*;

use crate::timing::count;

verus! {

/// What the decoder hands over for a picture.
#[derive(Clone, Copy, Debug, PartialEq, Eq, Structural)]
pub enum Arrival {
    /// The picture could not be decoded.
    Missing,
    /// A picture without pixels.
    Empty,
    /// A picture that can be shown.
    Ready,
}

/// One thing to do while a slider video is written.
#[derive(Clone, Copy, Debug, PartialEq, Eq, Structural)]
pub enum SliderCue {
    /// The current picture cannot be shown in this slot.
    Skip { slot: usize },
    /// The current picture is written `frames` times.
    Hold { image: usize, frames: i32 },
    /// The next arrival is taken from the decoder and handed to the slider.
    Receive,
    /// The current picture fades into the one that arrived, which then is the current one.
    Fade { from: usize, to: usize, frames: i32 },
    /// The picture that arrived is the current one.
    Adopt { image: usize },
    /// A slot is over.
    Report { slot: usize },
    /// The video is complete.
    Finish,
}

/// What a slider video is made of: a slot for each of `total` pictures, `hold` frames for a
/// picture and `fade` frames from one to the next. A count below zero means none.
pub struct Outline {
    pub total: usize,
    pub hold: i32,
    pub fade: i32,
}

/// The cues from the start of a slot on, with the decoder's arrivals that are still to come.
pub open spec fn from_slot(
    v: Outline,
    slot: int,
    current: usize,
    empty: bool,
    future: Seq<Arrival>,
) -> Seq<SliderCue>
    decreases v.total - slot, 3int,
{
    if slot >= v.total {
        Seq::empty()
    } else if empty {
        seq![SliderCue::Skip { slot: slot as usize }, SliderCue::Receive] + after_skip(
            v,
            slot,
            future,
        )
    } else {
        seq![SliderCue::Hold { image: current, frames: v.hold }] + after_hold(
            v,
            slot,
            current,
            future,
        )
    }
}

/// The cues after the current picture was skipped: the next one takes its place, and where
/// that is missing the video ends.
pub open spec fn after_skip(v: Outline, slot: int, future: Seq<Arrival>) -> Seq<SliderCue>
    decreases v.total - slot, 2int,
{
    if slot >= v.total || future.len() == 0 || future[0] == Arrival::Missing {
        Seq::empty()
    } else {
        seq![SliderCue::Adopt { image: (slot + 1) as usize }] + from_slot(
            v,
            slot + 1,
            (slot + 1) as usize,
            future[0] == Arrival::Empty,
            future.skip(1),
        )
    }
}

/// The cues after the current picture was held.
pub open spec fn after_hold(
    v: Outline,
    slot: int,
    current: usize,
    future: Seq<Arrival>,
) -> Seq<SliderCue>
    decreases v.total - slot, 2int,
{
    if slot + 1 < v.total {
        seq![SliderCue::Receive] + after_arrival(v, slot, current, future)
    } else {
        after_slot(v, slot, current, false, future)
    }
}

/// The cues after an arrival: a fade to the picture that came, or none where it is missing
/// and the current picture stays.
pub open spec fn after_arrival(
    v: Outline,
    slot: int,
    current: usize,
    future: Seq<Arrival>,
) -> Seq<SliderCue>
    decreases v.total - slot, 1int,
{
    if future.len() == 0 {
        Seq::empty()
    } else if future[0] == Arrival::Missing {
        after_slot(v, slot, current, false, future.skip(1))
    } else {
        seq![
            SliderCue::Fade { from: current, to: (slot + 1) as usize, frames: v.fade },
        ] + after_slot(
            v,
            slot,
            (slot + 1) as usize,
            future[0] == Arrival::Empty,
            future.skip(1),
        )
    }
}

/// The cues when everything of a slot is written.
pub open spec fn after_slot(
    v: Outline,
    slot: int,
    current: usize,
    empty: bool,
    future: Seq<Arrival>,
) -> Seq<SliderCue>
    decreases v.total - slot, 0int,
{
    if slot >= v.total {
        Seq::empty()
    } else {
        seq![SliderCue::Report { slot: slot as usize }] + from_slot(
            v,
            slot + 1,
            current,
            empty,
            future,
        )
    }
}

/// How far a slot has come.
enum Phase {
    Start,
    Held,
    Waiting,
    Arrived { empty: bool },
    Over,
    Skipped,
    WaitingForOther,
    OtherArrived { empty: bool },
    Done,
}

/// A slider video in the making.
pub struct Slider {
    outline: Outline,
    slot: usize,
    current: usize,
    empty: bool,
    phase: Phase,
}

impl Slider {
    /// Outside the start and the end the slot is one of the video's.
    pub closed spec fn wf(self) -> bool {
        match self.phase {
            Phase::Start | Phase::Done => true,
            _ => self.slot < self.outline.total,
        }
    }

    /// Whether the decoder's next arrival has to come before anything else.
    pub closed spec fn awaits(self) -> bool {
        self.phase is Waiting || self.phase is WaitingForOther
    }

    /// What is still to be done, without the final cue, if the decoder delivers `future`.
    pub closed spec fn script(self, future: Seq<Arrival>) -> Seq<SliderCue> {
        let v = self.outline;
        let next = (self.slot + 1) as usize;
        match self.phase {
            Phase::Start => from_slot(v, self.slot as int, self.current, self.empty, future),
            Phase::Held => after_hold(v, self.slot as int, self.current, future),
            Phase::Waiting => after_arrival(v, self.slot as int, self.current, future),
            Phase::Arrived { empty } => seq![
                SliderCue::Fade { from: self.current, to: next, frames: v.fade },
            ] + after_slot(v, self.slot as int, next, empty, future),
            Phase::Over => after_slot(v, self.slot as int, self.current, self.empty, future),
            Phase::Skipped => seq![SliderCue::Receive] + after_skip(v, self.slot as int, future),
            Phase::WaitingForOther => after_skip(v, self.slot as int, future),
            Phase::OtherArrived { empty } => seq![SliderCue::Adopt { image: next }] + from_slot(
                v,
                self.slot + 1,
                next,
                empty,
                future,
            ),
            Phase::Done => Seq::empty(),
        }
    }

    /// Begins a video with the first arrival; without a first picture there is none.
    pub fn begin(outline: Outline, first: Arrival) -> (r: Option<Slider>)
        ensures
            r is None <==> first == Arrival::Missing,
            r matches Some(s) ==> s.wf() && !s.awaits() && forall|future: Seq<Arrival>| #[trigger]
                s.script(future) == from_slot(outline, 0, 0, first == Arrival::Empty, future),
    {
        match first {
            Arrival::Missing => None,
            Arrival::Empty => Some(
                Slider { outline, slot: 0, current: 0, empty: true, phase: Phase::Start },
            ),
            Arrival::Ready => Some(
                Slider { outline, slot: 0, current: 0, empty: false, phase: Phase::Start },
            ),
        }
    }

    /// Takes the next cue.
    pub fn next_cue(&mut self) -> (cue: SliderCue)
        requires
            old(self).wf(),
            !old(self).awaits(),
        ensures
            final(self).wf(),
            final(self).awaits() <==> cue == SliderCue::Receive,
            cue == SliderCue::Finish ==> forall|future: Seq<Arrival>|
                (#[trigger] old(self).script(future)).len() == 0 && final(self).script(
                    future,
                ).len() == 0,
            cue != SliderCue::Finish ==> forall|future: Seq<Arrival>| #[trigger]
                old(self).script(future) == seq![cue] + final(self).script(future),
    {
        match self.phase {
            Phase::Start => if self.slot >= self.outline.total {
                self.phase = Phase::Done;
                SliderCue::Finish
            } else if self.empty {
                self.phase = Phase::Skipped;
                let cue = SliderCue::Skip { slot: self.slot };
                assert forall|future: Seq<Arrival>| #[trigger]
                    old(self).script(future) == seq![cue] + self.script(future) by {
                    assert(old(self).script(future) =~= seq![cue] + self.script(future));
                }
                cue
            } else {
                self.phase = Phase::Held;
                SliderCue::Hold { image: self.current, frames: self.outline.hold }
            },
            Phase::Held => if self.outline.total - self.slot > 1 {
                self.phase = Phase::Waiting;
                SliderCue::Receive
            } else {
                let cue = SliderCue::Report { slot: self.slot };
                self.slot = self.slot + 1;
                self.empty = false;
                self.phase = Phase::Start;
                cue
            },
            Phase::Arrived { empty } => {
                let next: usize = self.slot + 1;
                let cue = SliderCue::Fade {
                    from: self.current,
                    to: next,
                    frames: self.outline.fade,
                };
                self.current = next;
                self.empty = empty;
                self.phase = Phase::Over;
                cue
            },
            Phase::Over => {
                let cue = SliderCue::Report { slot: self.slot };
                self.slot = self.slot + 1;
                self.phase = Phase::Start;
                cue
            },
            Phase::Skipped => {
                self.phase = Phase::WaitingForOther;
                SliderCue::Receive
            },
            Phase::OtherArrived { empty } => {
                let next: usize = self.slot + 1;
                self.slot = next;
                self.current = next;
                self.empty = empty;
                self.phase = Phase::Start;
                SliderCue::Adopt { image: next }
            },
            _ => SliderCue::Finish,
        }
    }

    /// Takes over the decoder's next arrival.
    pub fn receive(&mut self, arrival: Arrival)
        requires
            old(self).wf(),
            old(self).awaits(),
        ensures
            final(self).wf(),
            !final(self).awaits(),
            forall|rest: Seq<Arrival>| #[trigger]
                final(self).script(rest) == old(self).script(seq![arrival] + rest),
    {
        let missing = match arrival {
            Arrival::Missing => true,
            _ => false,
        };
        let empty = match arrival {
            Arrival::Empty => true,
            _ => false,
        };
        match self.phase {
            Phase::Waiting => if missing {
                self.empty = false;
                self.phase = Phase::Over;
            } else {
                self.phase = Phase::Arrived { empty };
            },
            _ => if missing {
                self.phase = Phase::Done;
            } else {
                self.phase = Phase::OtherArrived { empty };
            },
        }
        assert forall|rest: Seq<Arrival>| #[trigger]
            self.script(rest) == old(self).script(seq![arrival] + rest) by {
            assert((seq![arrival] + rest).skip(1) =~= rest);
            assert((seq![arrival] + rest)[0] == arrival);
        }
    }
}

/// What is done in a slot that has a picture to show, when the next picture arrives: the
/// picture is held, fades into the next one, and the slot is reported. The next slot goes on
/// with the picture that arrived.
pub proof fn law_slot_fades_into_next(
    v: Outline,
    slot: int,
    current: usize,
    next: Arrival,
    rest: Seq<Arrival>,
)
    requires
        0 <= slot,
        slot + 1 < v.total,
        next != Arrival::Missing,
    ensures
        from_slot(v, slot, current, false, seq![next] + rest) == seq![
            SliderCue::Hold { image: current, frames: v.hold },
            SliderCue::Receive,
            SliderCue::Fade { from: current, to: (slot + 1) as usize, frames: v.fade },
            SliderCue::Report { slot: slot as usize },
        ] + from_slot(v, slot + 1, (slot + 1) as usize, next == Arrival::Empty, rest),
{
    let future = seq![next] + rest;
    assert(future.skip(1) =~= rest);
    assert(future[0] == next);
    let tail = from_slot(v, slot + 1, (slot + 1) as usize, next == Arrival::Empty, rest);
    let over = after_slot(v, slot, (slot + 1) as usize, next == Arrival::Empty, rest);
    let arrived = after_arrival(v, slot, current, future);
    assert(over == seq![SliderCue::Report { slot: slot as usize }] + tail);
    assert(arrived == seq![
        SliderCue::Fade { from: current, to: (slot + 1) as usize, frames: v.fade },
    ] + over);
    assert(after_hold(v, slot, current, future) == seq![SliderCue::Receive] + arrived);
    assert(from_slot(v, slot, current, false, future) =~= seq![
        SliderCue::Hold { image: current, frames: v.hold },
        SliderCue::Receive,
        SliderCue::Fade { from: current, to: (slot + 1) as usize, frames: v.fade },
        SliderCue::Report { slot: slot as usize },
    ] + from_slot(v, slot + 1, (slot + 1) as usize, next == Arrival::Empty, rest));
}

/// What is done in a slot that has a picture to show, when the next picture is missing: the
/// picture is held and the slot reported, without a fade. The next slot goes on with the same
/// picture.
pub proof fn law_slot_keeps_picture_for_missing_next(
    v: Outline,
    slot: int,
    current: usize,
    rest: Seq<Arrival>,
)
    requires
        0 <= slot,
        slot + 1 < v.total,
    ensures
        from_slot(v, slot, current, false, seq![Arrival::Missing] + rest) == seq![
            SliderCue::Hold { image: current, frames: v.hold },
            SliderCue::Receive,
            SliderCue::Report { slot: slot as usize },
        ] + from_slot(v, slot + 1, current, false, rest),
{
    let future = seq![Arrival::Missing] + rest;
    assert(future.skip(1) =~= rest);
    assert(future[0] == Arrival::Missing);
    let tail = from_slot(v, slot + 1, current, false, rest);
    let over = after_slot(v, slot, current, false, rest);
    assert(over == seq![SliderCue::Report { slot: slot as usize }] + tail);
    assert(after_arrival(v, slot, current, future) == over);
    assert(after_hold(v, slot, current, future) == seq![SliderCue::Receive] + over);
    assert(from_slot(v, slot, current, false, future) =~= seq![
        SliderCue::Hold { image: current, frames: v.hold },
        SliderCue::Receive,
        SliderCue::Report { slot: slot as usize },
    ] + from_slot(v, slot + 1, current, false, rest));
}

/// The last slot holds its picture and is reported, and asks for no other picture. After it
/// there is nothing to be done.
pub proof fn law_last_slot_ends_the_video(
    v: Outline,
    current: usize,
    empty: bool,
    future: Seq<Arrival>,
)
    ensures
        v.total > 0 ==> from_slot(v, v.total - 1, current, false, future) == seq![
            SliderCue::Hold { image: current, frames: v.hold },
            SliderCue::Report { slot: (v.total - 1) as usize },
        ],
        from_slot(v, v.total as int, current, empty, future).len() == 0,
{
    if v.total > 0 {
        let slot = v.total - 1;
        let over = after_slot(v, slot, current, false, future);
        assert(from_slot(v, slot + 1, current, false, future) == Seq::<SliderCue>::empty());
        assert(over =~= seq![SliderCue::Report { slot: slot as usize }]);
        assert(after_hold(v, slot, current, future) == over);
        assert(from_slot(v, v.total - 1, current, false, future) =~= seq![
            SliderCue::Hold { image: current, frames: v.hold },
            SliderCue::Report { slot: (v.total - 1) as usize },
        ]);
    }
}

/// In a slot whose picture has no pixels nothing is held or reported. The next picture takes
/// over in the next slot, and where it is missing the video ends.
pub proof fn law_slot_without_pixels_is_skipped(
    v: Outline,
    slot: int,
    current: usize,
    next: Arrival,
    rest: Seq<Arrival>,
)
    requires
        0 <= slot < v.total,
    ensures
        from_slot(v, slot, current, true, seq![next] + rest) == seq![
            SliderCue::Skip { slot: slot as usize },
            SliderCue::Receive,
        ] + if next == Arrival::Missing {
            Seq::empty()
        } else {
            seq![SliderCue::Adopt { image: (slot + 1) as usize }] + from_slot(
                v,
                slot + 1,
                (slot + 1) as usize,
                next == Arrival::Empty,
                rest,
            )
        },
{
    let future = seq![next] + rest;
    assert(future.skip(1) =~= rest);
    assert(future[0] == next);
}

/// What is done for a video of which every picture arrives, one by one.
pub proof fn law_slider_cues(v: Outline, future: Seq<Arrival>, slot: int)
    requires
        0 <= slot,
        slot + 1 < v.total,
        future.len() == v.total - 1,
        forall|i: int| 0 <= i < future.len() ==> future[i] == Arrival::Ready,
    ensures
        ({
            let cues = from_slot(v, 0, 0, false, future);
            let last = v.total - 1;
            &&& cues.len() == 4 * last + 2
            &&& cues[4 * slot] == (SliderCue::Hold { image: slot as usize, frames: v.hold })
            &&& cues[4 * slot + 1] == SliderCue::Receive
            &&& cues[4 * slot + 2] == (SliderCue::Fade {
                from: slot as usize,
                to: (slot + 1) as usize,
                frames: v.fade,
            })
            &&& cues[4 * slot + 3] == (SliderCue::Report { slot: slot as usize })
            &&& cues[4 * last] == (SliderCue::Hold { image: last as usize, frames: v.hold })
            &&& cues[4 * last + 1] == (SliderCue::Report { slot: last as usize })
        }),
{
    lemma_cues_in_turn(v, 0, future, slot);
    lemma_cues_in_turn(v, 0, future, v.total - 1);
}

proof fn lemma_cues_in_turn(v: Outline, first: int, future: Seq<Arrival>, slot: int)
    requires
        0 <= first <= slot < v.total,
        future.len() == v.total - 1 - first,
        forall|i: int| 0 <= i < future.len() ==> future[i] == Arrival::Ready,
    ensures
        ({
            let cues = from_slot(v, first, first as usize, false, future);
            let at = 4 * (slot - first);
            &&& cues.len() == 4 * (v.total - 1 - first) + 2
            &&& cues[at] == (SliderCue::Hold { image: slot as usize, frames: v.hold })
            &&& slot + 1 < v.total ==> {
                &&& cues[at + 1] == SliderCue::Receive
                &&& cues[at + 2] == (SliderCue::Fade {
                    from: slot as usize,
                    to: (slot + 1) as usize,
                    frames: v.fade,
                })
                &&& cues[at + 3] == (SliderCue::Report { slot: slot as usize })
            }
            &&& slot + 1 == v.total ==> cues[at + 1] == (SliderCue::Report { slot: slot as usize })
        }),
    decreases v.total - first,
{
    if first + 1 == v.total {
        law_last_slot_ends_the_video(v, first as usize, false, future);
    } else {
        let rest = future.skip(1);
        assert(future =~= seq![Arrival::Ready] + rest);
        law_slot_fades_into_next(v, first, first as usize, Arrival::Ready, rest);
        assert forall|i: int| 0 <= i < rest.len() implies rest[i] == Arrival::Ready by {
            assert(rest[i] == future[i + 1]);
        }
        lemma_cues_in_turn(
            v,
            first + 1,
            rest,
            if slot > first {
                slot
            } else {
                v.total - 1
            },
        );
    }
}

/// One frame of a slider video.
#[derive(Clone, Copy, Debug, PartialEq, Eq, Structural)]
pub enum Frame {
    /// A picture by itself.
    Still { image: usize },
    /// Step number `step` of the fade from one picture to another.
    Mix { from: usize, to: usize, step: i32 },
}

/// The frames that a cue puts into the video.
pub open spec fn frames_of(cue: SliderCue) -> Seq<Frame> {
    match cue {
        SliderCue::Hold { image, frames } => Seq::new(count(frames), |t: int| Frame::Still { image }),
        SliderCue::Fade { from, to, frames } => Seq::new(
            count(frames),
            |t: int| Frame::Mix { from, to, step: t as i32 },
        ),
        _ => Seq::empty(),
    }
}

/// The frames that a list of cues puts into the video.
pub open spec fn video_of(cues: Seq<SliderCue>) -> Seq<Frame>
    decreases cues.len(),
{
    if cues.len() == 0 {
        Seq::empty()
    } else {
        frames_of(cues[0]) + video_of(cues.skip(1))
    }
}

/// The slots that a list of cues reports as over, in order.
pub open spec fn reports_of(cues: Seq<SliderCue>) -> Seq<usize>
    decreases cues.len(),
{
    if cues.len() == 0 {
        Seq::empty()
    } else {
        match cues[0] {
            SliderCue::Report { slot } => seq![slot] + reports_of(cues.skip(1)),
            _ => reports_of(cues.skip(1)),
        }
    }
}

/// How many arrivals a list of cues takes from the decoder.
pub open spec fn receipts_of(cues: Seq<SliderCue>) -> nat
    decreases cues.len(),
{
    if cues.len() == 0 {
        0
    } else if cues[0] == SliderCue::Receive {
        1 + receipts_of(cues.skip(1))
    } else {
        receipts_of(cues.skip(1))
    }
}

/// How many pictures among the arrivals can be shown.
pub open spec fn ready(arrivals: Seq<Arrival>) -> nat
    decreases arrivals.len(),
{
    if arrivals.len() == 0 {
        0
    } else if arrivals[0] == Arrival::Ready {
        1 + ready(arrivals.skip(1))
    } else {
        ready(arrivals.skip(1))
    }
}

/// The decoder delivers no picture without pixels.
pub open spec fn none_empty(arrivals: Seq<Arrival>) -> bool {
    forall|i: int| 0 <= i < arrivals.len() ==> arrivals[i] != Arrival::Empty
}

proof fn lemma_cue_first(cue: SliderCue, rest: Seq<SliderCue>)
    ensures
        video_of(seq![cue] + rest) == frames_of(cue) + video_of(rest),
        receipts_of(seq![cue] + rest) == (if cue == SliderCue::Receive {
            1nat
        } else {
            0nat
        }) + receipts_of(rest),
        reports_of(seq![cue] + rest) == (match cue {
            SliderCue::Report { slot } => seq![slot] + reports_of(rest),
            _ => reports_of(rest),
        }),
{
    let cues = seq![cue] + rest;
    assert(cues.skip(1) =~= rest);
    assert(cues[0] == cue);
}

/// What the slots from `slot` on come to.
proof fn lemma_slots(v: Outline, slot: int, current: usize, future: Seq<Arrival>)
    requires
        0 <= slot < v.total,
        future.len() == v.total - slot - 1,
        none_empty(future),
    ensures
        ({
            let cues = from_slot(v, slot, current, false, future);
            &&& video_of(cues).len() == (v.total - slot) * count(v.hold) + ready(future) * count(
                v.fade,
            )
            &&& receipts_of(cues) == v.total - slot - 1
            &&& reports_of(cues) == Seq::new(
                (v.total - slot) as nat,
                |i: int| (slot + i) as usize,
            )
        }),
    decreases v.total - slot,
{
    let (h, f, n) = (count(v.hold), count(v.fade), v.total - slot);
    let hold = SliderCue::Hold { image: current, frames: v.hold };
    let report = SliderCue::Report { slot: slot as usize };
    let all = Seq::new((v.total - slot) as nat, |i: int| (slot + i) as usize);
    if slot + 1 == v.total {
        let last = from_slot(v, slot + 1, current, false, future);
        lemma_cue_first(hold, after_hold(v, slot, current, future));
        lemma_cue_first(report, last);
        assert(n * h + 0 * f == h) by (nonlinear_arith)
            requires
                n == 1,
        ;
        assert(reports_of(from_slot(v, slot, current, false, future)) =~= all);
    } else {
        let rest = future.skip(1);
        let missing = future[0] == Arrival::Missing;
        let next = if missing {
            current
        } else {
            (slot + 1) as usize
        };
        assert forall|i: int| 0 <= i < rest.len() implies rest[i] != Arrival::Empty by {
            assert(rest[i] == future[i + 1]);
        }
        lemma_slots(v, slot + 1, next, rest);
        let tail = from_slot(v, slot + 1, next, false, rest);
        lemma_cue_first(hold, after_hold(v, slot, current, future));
        lemma_cue_first(SliderCue::Receive, after_arrival(v, slot, current, future));
        lemma_cue_first(report, tail);
        let over = after_slot(v, slot, next, false, rest);
        let fade = SliderCue::Fade { from: current, to: next, frames: v.fade };
        if !missing {
            lemma_cue_first(fade, over);
        }
        let r = ready(rest);
        assert(n * h == h + (n - 1) * h && (r + 1) * f == f + r * f) by (nonlinear_arith);
        assert(reports_of(from_slot(v, slot, current, false, future)) =~= all);
    }
}

/// A slider video of N pictures that all can be decoded has N times the hold frames and N - 1
/// times the fade frames. For every picture that is missing there is one fade less.
pub proof fn law_slider_length(v: Outline, future: Seq<Arrival>)
    requires
        v.total > 0,
        future.len() == v.total - 1,
        none_empty(future),
    ensures
        video_of(from_slot(v, 0, 0, false, future)).len() == v.total * count(v.hold) + ready(future)
            * count(v.fade),
        ready(future) == future.len() ==> video_of(from_slot(v, 0, 0, false, future)).len()
            == v.total * count(v.hold) + (v.total - 1) * count(v.fade),
{
    lemma_slots(v, 0, 0, future);
}

/// The slots are reported one after the other, and the decoder is asked for one arrival for
/// each picture after the first: it never runs out.
pub proof fn law_slider_reports_every_slot(v: Outline, future: Seq<Arrival>)
    requires
        v.total > 0,
        future.len() == v.total - 1,
        none_empty(future),
    ensures
        reports_of(from_slot(v, 0, 0, false, future)) == Seq::new(
            v.total as nat,
            |i: int| i as usize,
        ),
        receipts_of(from_slot(v, 0, 0, false, future)) == v.total - 1,
{
    lemma_slots(v, 0, 0, future);
}

/// The pictures that a list of cues holds, in order.
pub open spec fn holds_of(cues: Seq<SliderCue>) -> Seq<usize>
    decreases cues.len(),
{
    if cues.len() == 0 {
        Seq::empty()
    } else {
        match cues[0] {
            SliderCue::Hold { image, .. } => seq![image] + holds_of(cues.skip(1)),
            _ => holds_of(cues.skip(1)),
        }
    }
}

/// The picture of a slot: its own one, or else the nearest before it that is not missing.
pub open spec fn picture_in(future: Seq<Arrival>, slot: int) -> int
    decreases slot,
{
    if slot <= 0 || future[slot - 1] == Arrival::Ready {
        slot
    } else {
        picture_in(future, slot - 1)
    }
}

proof fn lemma_hold_first(cue: SliderCue, rest: Seq<SliderCue>)
    ensures
        holds_of(seq![cue] + rest) == (match cue {
            SliderCue::Hold { image, .. } => seq![image] + holds_of(rest),
            _ => holds_of(rest),
        }),
{
    let cues = seq![cue] + rest;
    assert(cues.skip(1) =~= rest);
    assert(cues[0] == cue);
}

proof fn lemma_pictures(v: Outline, slot: int, all: Seq<Arrival>)
    requires
        0 <= slot < v.total,
        all.len() == v.total - 1,
        none_empty(all),
    ensures
        holds_of(from_slot(v, slot, picture_in(all, slot) as usize, false, all.skip(slot)))
            == Seq::new((v.total - slot) as nat, |i: int| picture_in(all, slot + i) as usize),
    decreases v.total - slot,
{
    let current = picture_in(all, slot) as usize;
    let future = all.skip(slot);
    let hold = SliderCue::Hold { image: current, frames: v.hold };
    let report = SliderCue::Report { slot: slot as usize };
    let pictures = Seq::new((v.total - slot) as nat, |i: int| picture_in(all, slot + i) as usize);
    lemma_hold_first(hold, after_hold(v, slot, current, future));
    if slot + 1 == v.total {
        lemma_hold_first(report, from_slot(v, slot + 1, current, false, future));
        assert(holds_of(from_slot(v, slot, current, false, future)) =~= pictures);
    } else {
        let rest = future.skip(1);
        let next = picture_in(all, slot + 1) as usize;
        assert(rest =~= all.skip(slot + 1));
        assert(future[0] == all[slot]);
        lemma_pictures(v, slot + 1, all);
        lemma_hold_first(SliderCue::Receive, after_arrival(v, slot, current, future));
        lemma_hold_first(report, from_slot(v, slot + 1, next, false, rest));
        lemma_hold_first(
            SliderCue::Fade { from: current, to: next, frames: v.fade },
            after_slot(v, slot, next, false, rest),
        );
        assert(holds_of(from_slot(v, slot, current, false, future)) =~= pictures);
    }
}

/// Every slot holds its own picture, and where that is missing the one that the slot before
/// held.
pub proof fn law_slider_bridges_missing_pictures(v: Outline, future: Seq<Arrival>)
    requires
        v.total > 0,
        future.len() == v.total - 1,
        none_empty(future),
    ensures
        holds_of(from_slot(v, 0, 0, false, future)) == Seq::new(
            v.total as nat,
            |slot: int| picture_in(future, slot) as usize,
        ),
{
    lemma_pictures(v, 0, future);
    assert(future.skip(0) =~= future);
    assert(Seq::new(v.total as nat, |i: int| picture_in(future, 0 + i) as usize) =~= Seq::new(
        v.total as nat,
        |slot: int| picture_in(future, slot) as usize,
    ));
}

/// The frame at time `t` of a video in which every picture can be shown.
pub open spec fn frame_at(v: Outline, t: int) -> Frame {
    let (h, f) = (count(v.hold), count(v.fade));
    let (slot, rest) = (t / (h + f) as int, t % (h + f) as int);
    if rest < h {
        Frame::Still { image: slot as usize }
    } else {
        Frame::Mix { from: slot as usize, to: (slot + 1) as usize, step: (rest - h) as i32 }
    }
}

proof fn lemma_frame_in_slot(v: Outline, slot: int, t: int)
    requires
        0 <= slot,
        0 <= t < count(v.hold) + count(v.fade),
    ensures
        ({
            let (h, p) = (count(v.hold), (count(v.hold) + count(v.fade)) as int);
            frame_at(v, slot * p + t) == if t < h {
                Frame::Still { image: slot as usize }
            } else {
                Frame::Mix { from: slot as usize, to: (slot + 1) as usize, step: (t - h) as i32 }
            }
        }),
{
    let p = (count(v.hold) + count(v.fade)) as int;
    vstd::arithmetic::div_mod::lemma_fundamental_div_mod_converse(slot * p + t, p, slot, t);
}

proof fn lemma_layout(v: Outline, slot: int, future: Seq<Arrival>)
    requires
        0 <= slot < v.total,
        future.len() == v.total - slot - 1,
        forall|i: int| 0 <= i < future.len() ==> future[i] == Arrival::Ready,
    ensures
        ({
            let video = video_of(from_slot(v, slot, slot as usize, false, future));
            let p = count(v.hold) + count(v.fade);
            forall|t: int| 0 <= t < video.len() ==> #[trigger] video[t] == frame_at(v, slot * p + t)
        }),
    decreases v.total - slot,
{
    let (h, f) = (count(v.hold), count(v.fade));
    let p = h + f;
    let current = slot as usize;
    let hold = SliderCue::Hold { image: current, frames: v.hold };
    let report = SliderCue::Report { slot: current };
    let video = video_of(from_slot(v, slot, current, false, future));
    lemma_cue_first(hold, after_hold(v, slot, current, future));
    if slot + 1 == v.total {
        lemma_cue_first(report, from_slot(v, slot + 1, current, false, future));
        assert(video =~= frames_of(hold));
        assert forall|t: int| 0 <= t < video.len() implies #[trigger] video[t] == frame_at(
            v,
            slot * p + t,
        ) by {
            lemma_frame_in_slot(v, slot, t);
        }
    } else {
        let rest = future.skip(1);
        let next = (slot + 1) as usize;
        let fade = SliderCue::Fade { from: current, to: next, frames: v.fade };
        assert(future[0] == Arrival::Ready);
        assert forall|i: int| 0 <= i < rest.len() implies rest[i] == Arrival::Ready by {
            assert(rest[i] == future[i + 1]);
        }
        lemma_layout(v, slot + 1, rest);
        let tail = from_slot(v, slot + 1, next, false, rest);
        lemma_cue_first(SliderCue::Receive, after_arrival(v, slot, current, future));
        lemma_cue_first(fade, after_slot(v, slot, next, false, rest));
        lemma_cue_first(report, tail);
        assert(video =~= frames_of(hold) + frames_of(fade) + video_of(tail));
        assert forall|t: int| 0 <= t < video.len() implies #[trigger] video[t] == frame_at(
            v,
            slot * p + t,
        ) by {
            if t < p {
                lemma_frame_in_slot(v, slot, t);
            } else {
                assert(video[t] == video_of(tail)[t - p]);
                assert((slot + 1) * p + (t - p) == slot * p + t) by (nonlinear_arith);
            }
        }
    }
}

/// Where every picture can be shown, the video is a row of equal slots: in each the picture
/// is held, and then it fades into the next one step by step.
pub proof fn law_slider_layout(v: Outline, future: Seq<Arrival>)
    requires
        v.total > 0,
        future.len() == v.total - 1,
        forall|i: int| 0 <= i < future.len() ==> future[i] == Arrival::Ready,
    ensures
        video_of(from_slot(v, 0, 0, false, future)) =~= Seq::new(
            v.total as nat * count(v.hold) + (v.total - 1) as nat * count(v.fade),
            |t: int| frame_at(v, t),
        ),
{
    lemma_layout(v, 0, future);
    lemma_all_ready(future);
    lemma_slots(v, 0, 0, future);
    let video = video_of(from_slot(v, 0, 0, false, future));
    assert forall|t: int| 0 <= t < video.len() implies video[t] == frame_at(v, t) by {
        assert(0 * (count(v.hold) + count(v.fade)) + t == t);
    }
}

proof fn lemma_all_ready(arrivals: Seq<Arrival>)
    requires
        forall|i: int| 0 <= i < arrivals.len() ==> arrivals[i] == Arrival::Ready,
    ensures
        ready(arrivals) == arrivals.len(),
    decreases arrivals.len(),
{
    if arrivals.len() > 0 {
        let rest = arrivals.skip(1);
        assert forall|i: int| 0 <= i < rest.len() implies rest[i] == Arrival::Ready by {
            assert(rest[i] == arrivals[i + 1]);
        }
        lemma_all_ready(rest);
    }
}

} // verus!
