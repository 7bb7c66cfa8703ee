//! Decoding ahead: a worker takes pictures from a queue and delivers them brought to the
//! frame size, while the ones before are being written.
use vstd::prelude::*;

use crate::geometry::{place, placement_of};
use crate::geometry::{Picture, Placement, Size};
use crate::slider::Arrival;

verus! {

/// What the worker meets.
#[derive(Clone, Copy, Debug, PartialEq, Eq, Structural)]
pub enum WorkerEvent {
    /// The queue holds a picture to decode.
    Job,
    /// The queue holds the mark at its end.
    Sentinel,
    /// Nothing can come from the queue any more.
    QueueClosed,
    /// The last picture was taken over.
    Delivered,
    /// Nobody takes pictures any more.
    ReceiverGone,
}

/// What the worker does next.
#[derive(Clone, Copy, Debug, PartialEq, Eq, Structural)]
pub enum WorkerAction {
    /// Take from the queue.
    Take,
    /// Decode the picture that was taken and deliver the outcome.
    Decode,
    /// Stop.
    Stop,
}

/// The worker's rule.
pub open spec fn worker_action(event: WorkerEvent) -> WorkerAction {
    match event {
        WorkerEvent::Job => WorkerAction::Decode,
        WorkerEvent::Delivered => WorkerAction::Take,
        WorkerEvent::Sentinel => WorkerAction::Stop,
        WorkerEvent::QueueClosed => WorkerAction::Stop,
        WorkerEvent::ReceiverGone => WorkerAction::Stop,
    }
}

/// Decides what the worker does next.
pub fn worker_step(event: WorkerEvent) -> (r: WorkerAction)
    ensures
        r == worker_action(event),
        r == WorkerAction::Decode <==> event == WorkerEvent::Job,
        r == WorkerAction::Take <==> event == WorkerEvent::Delivered,
{
    match event {
        WorkerEvent::Job => WorkerAction::Decode,
        WorkerEvent::Delivered => WorkerAction::Take,
        _ => WorkerAction::Stop,
    }
}

/// The queue for `n` pictures: each by its number, then the mark at the end.
pub open spec fn queue_for(n: nat) -> Seq<Option<usize>> {
    Seq::new(n, |i: int| Some(i as usize)).push(None)
}

/// Fills the queue for `n` pictures.
pub fn work_queue(n: usize) -> (r: Vec<Option<usize>>)
    ensures
        r@ == queue_for(n as nat),
        r@.len() == n + 1,
        forall|i: int| 0 <= i < n ==> r@[i] == Some(i as usize),
        r@[n as int] is None,
{
    let mut queue: Vec<Option<usize>> = Vec::new();
    let mut i: usize = 0;
    while i < n
        invariant
            i <= n,
            queue@ =~= Seq::new(i as nat, |j: int| Some(j as usize)),
        decreases n - i,
    {
        queue.push(Some(i));
        i = i + 1;
    }
    queue.push(None);
    queue
}

/// The pictures that the worker decodes from a queue, in order, as long as somebody takes
/// them.
pub open spec fn decoded_from(queue: Seq<Option<usize>>) -> Seq<usize>
    decreases queue.len(),
{
    let event = if queue.len() == 0 {
        WorkerEvent::QueueClosed
    } else if queue[0] is Some {
        WorkerEvent::Job
    } else {
        WorkerEvent::Sentinel
    };
    if worker_action(event) == WorkerAction::Decode && queue.len() > 0 {
        seq![queue[0]->0] + if worker_action(WorkerEvent::Delivered) == WorkerAction::Take {
            decoded_from(queue.skip(1))
        } else {
            Seq::empty()
        }
    } else {
        Seq::empty()
    }
}

proof fn lemma_decoded_from(first: int, n: nat)
    requires
        0 <= first <= n <= usize::MAX,
    ensures
        decoded_from(queue_for(n).skip(first)) == Seq::new(
            (n - first) as nat,
            |i: int| (first + i) as usize,
        ),
    decreases n - first,
{
    let queue = queue_for(n).skip(first);
    let numbers = Seq::new((n - first) as nat, |i: int| (first + i) as usize);
    if first < n {
        lemma_decoded_from(first + 1, n);
        assert(queue.skip(1) =~= queue_for(n).skip(first + 1));
        assert(queue[0] == Some(first as usize));
    }
    assert(decoded_from(queue) =~= numbers);
}

/// The worker delivers one outcome for every picture of the queue, in the order of the
/// pictures, and then stops.
pub proof fn law_worker_delivers_in_order(n: nat)
    requires
        n <= usize::MAX,
    ensures
        decoded_from(queue_for(n)) == Seq::new(n, |i: int| i as usize),
{
    lemma_decoded_from(0, n);
    assert(queue_for(n).skip(0) =~= queue_for(n));
    assert(Seq::new(n, |i: int| (0 + i) as usize) =~= Seq::new(n, |i: int| i as usize));
}

/// How the worker goes on with a picture after reading it, if it could be read.
pub open spec fn decode_placement(read: Option<Picture>, frame: Size) -> Placement {
    match read {
        Some(picture) => placement_of(picture, frame),
        None => Placement::Skip,
    }
}

/// Decides how the worker goes on with a picture after reading it. One that could not be
/// read, or has no pixels, is not delivered.
pub fn decode_step(read: Option<Picture>, frame: Size) -> (r: Placement)
    ensures
        r == decode_placement(read, frame),
        r == Placement::Skip <==> read is None || read->0.empty,
        r == Placement::Keep <==> read is Some && !read->0.empty && read->0.size.width
            == frame.width && read->0.size.height == frame.height,
{
    match read {
        Some(picture) => place(picture, frame),
        None => Placement::Skip,
    }
}

/// What a delivered picture is to the slider.
pub open spec fn arrival_for(delivered: Option<Picture>) -> Arrival {
    match delivered {
        None => Arrival::Missing,
        Some(picture) => if picture.empty {
            Arrival::Empty
        } else {
            Arrival::Ready
        },
    }
}

/// Tells the slider what was delivered.
pub fn arrival_of(delivered: Option<Picture>) -> (r: Arrival)
    ensures
        r == arrival_for(delivered),
        r == Arrival::Missing <==> delivered is None,
        r == Arrival::Ready <==> delivered is Some && !delivered->0.empty,
{
    match delivered {
        None => Arrival::Missing,
        Some(picture) => if picture.empty {
            Arrival::Empty
        } else {
            Arrival::Ready
        },
    }
}

/// The queue holds every picture once, in order, and the mark only at its end.
pub proof fn law_queue_holds_every_picture(n: nat, i: int)
    requires
        n <= usize::MAX,
        0 <= i <= n,
    ensures
        queue_for(n).len() == n + 1,
        i < n ==> queue_for(n)[i] is Some && queue_for(n)[i]->0 == i,
        i == n ==> queue_for(n)[i] is None,
{
}

/// The worker decodes exactly when there is something to decode, takes from the queue exactly
/// after a delivery, and stops in all other cases.
pub proof fn law_worker_rule(event: WorkerEvent)
    ensures
        worker_action(event) == WorkerAction::Decode <==> event == WorkerEvent::Job,
        worker_action(event) == WorkerAction::Take <==> event == WorkerEvent::Delivered,
        worker_action(event) == WorkerAction::Stop <==> event == WorkerEvent::Sentinel || event
            == WorkerEvent::QueueClosed || event == WorkerEvent::ReceiverGone,
{
}

/// A picture is dropped exactly where it could not be read or has no pixels. Any other one is
/// kept where its size is that of the frame, and resized where it is not.
pub proof fn law_only_unreadable_pictures_are_dropped(read: Option<Picture>, frame: Size)
    ensures
        decode_placement(read, frame) == Placement::Skip <==> read is None || read->0.empty,
        read matches Some(picture) ==> !picture.empty ==> {
            &&& decode_placement(read, frame) == Placement::Keep <==> picture.size.width
                == frame.width && picture.size.height == frame.height
            &&& decode_placement(read, frame) == Placement::Resize <==> picture.size.width
                != frame.width || picture.size.height != frame.height
        },
{
}

/// To the slider a picture is missing exactly where none was delivered, and can be shown
/// exactly where it has pixels.
pub proof fn law_arrivals_tell_what_was_delivered(delivered: Option<Picture>)
    ensures
        arrival_for(delivered) == Arrival::Missing <==> delivered is None,
        arrival_for(delivered) == Arrival::Ready <==> delivered is Some && !delivered->0.empty,
        arrival_for(delivered) == Arrival::Empty <==> delivered is Some && delivered->0.empty,
{
}

/// A picture that the worker delivers as it was read can be shown, and is of the frame size.
pub proof fn law_kept_pictures_can_be_shown(picture: Picture, frame: Size)
    requires
        decode_placement(Some(picture), frame) == Placement::Keep,
    ensures
        arrival_for(Some(picture)) == Arrival::Ready,
        picture.size == frame,
{
}

} // verus!
