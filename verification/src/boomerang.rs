//! Boomerang videos: the pictures forward and then backward, over and over, with hard cuts.
use vstd::prelude::*;

verus! {

/// How many pictures one cycle shows when there are `n`.
pub open spec fn cycle_len(n: int) -> int {
    if n > 2 {
        2 * n - 2
    } else {
        n
    }
}

/// The picture at position `k` of a cycle: forward from the first to the last, then backward
/// to the one after the first.
pub open spec fn cycle_at(n: int, k: int) -> int {
    if k < n {
        k
    } else {
        2 * n - 2 - k
    }
}

/// The pictures of one cycle, in the order in which they are shown.
pub open spec fn cycle_of(n: nat) -> Seq<usize> {
    Seq::new(cycle_len(n as int) as nat, |k: int| cycle_at(n as int, k) as usize)
}

/// The order in which `n` pictures are shown in one cycle.
pub fn boomerang_cycle(n: usize) -> (r: Vec<usize>)
    ensures
        r@ == cycle_of(n as nat),
        r@.len() == if n > 2 {
            2 * n - 2
        } else {
            n as int
        },
        forall|k: int| 0 <= k < n ==> r@[k] == k,
        forall|k: int| n <= k < r@.len() ==> r@[k] == 2 * n - 2 - k,
{
    let mut cycle: Vec<usize> = Vec::new();
    let mut i: usize = 0;
    while i < n
        invariant
            i <= n,
            cycle@ =~= cycle_of(n as nat).take(i as int),
        decreases n - i,
    {
        cycle.push(i);
        i = i + 1;
    }
    if n > 2 {
        let mut j: usize = n - 2;
        while j > 0
            invariant
                0 <= j <= n - 2,
                n > 2,
                cycle@ =~= cycle_of(n as nat).take(2 * n - 2 - j),
            decreases j,
        {
            cycle.push(j);
            j = j - 1;
        }
    }
    assert(cycle@ =~= cycle_of(n as nat));
    cycle
}

/// The pictures of `cycle` that can be shown, in the order of the cycle.
pub fn boomerang_pass(cycle: &Vec<usize>, readable: &Vec<bool>) -> (r: Vec<usize>)
    requires
        forall|k: int| 0 <= k < cycle@.len() ==> cycle@[k] < readable@.len(),
    ensures
        r@ == cycle@.filter(|i: usize| readable@[i as int]),
{
    let ghost keep = |i: usize| readable@[i as int];
    let mut pass: Vec<usize> = Vec::new();
    let mut k: usize = 0;
    assert(cycle@.take(0).filter(keep) =~= Seq::<usize>::empty()) by {
        reveal(Seq::filter);
    }
    while k < cycle.len()
        invariant
            k <= cycle@.len(),
            forall|k: int| 0 <= k < cycle@.len() ==> cycle@[k] < readable@.len(),
            keep == (|i: usize| readable@[i as int]),
            pass@ == cycle@.take(k as int).filter(keep),
        decreases cycle@.len() - k,
    {
        let i: usize = cycle[k];
        proof {
            reveal(Seq::filter);
            assert(cycle@.take(k + 1).drop_last() =~= cycle@.take(k as int));
        }
        if readable[i] {
            pass.push(i);
        }
        k = k + 1;
    }
    assert(cycle@.take(k as int) =~= cycle@);
    pass
}

/// One thing to do while a boomerang video is written.
#[derive(Clone, Copy, Debug, PartialEq, Eq, Structural)]
pub enum BoomerangCue {
    /// A cycle begins.
    LapStart { lap: usize },
    /// A picture is written `frames` times.
    Hold { image: usize, frames: usize },
    /// A cycle is over.
    LapEnd { lap: usize },
    /// The video is complete.
    Finish,
}

/// The cues that write the pictures of a pass from position `from` on.
pub open spec fn holds(pass: Seq<usize>, hold: usize, from: int) -> Seq<BoomerangCue> {
    pass.skip(from).map_values(|i: usize| BoomerangCue::Hold { image: i, frames: hold })
}

/// The cues of the cycles from number `lap` on.
pub open spec fn laps(pass: Seq<usize>, hold: usize, loops: usize, lap: int) -> Seq<BoomerangCue>
    decreases loops - lap,
{
    if lap < loops {
        seq![BoomerangCue::LapStart { lap: lap as usize }] + holds(pass, hold, 0)
            + seq![BoomerangCue::LapEnd { lap: lap as usize }] + laps(pass, hold, loops, lap + 1)
    } else {
        Seq::empty()
    }
}

/// A boomerang video in the making.
pub struct Boomerang {
    pass: Vec<usize>,
    hold: usize,
    loops: usize,
    lap: usize,
    position: usize,
    in_lap: bool,
}

impl Boomerang {
    /// The counters stay within the pass and the cycles.
    pub closed spec fn wf(self) -> bool {
        &&& self.lap <= self.loops
        &&& self.in_lap ==> self.lap < self.loops && self.position <= self.pass@.len()
    }

    /// What is still to be done, without the final cue.
    pub closed spec fn script(self) -> Seq<BoomerangCue> {
        if self.in_lap {
            holds(self.pass@, self.hold, self.position as int) + seq![
                BoomerangCue::LapEnd { lap: self.lap },
            ] + laps(self.pass@, self.hold, self.loops, self.lap + 1)
        } else {
            laps(self.pass@, self.hold, self.loops, self.lap as int)
        }
    }

    /// A video that shows the pictures of `pass`, each for `hold` frames, `loops` times over.
    pub fn new(pass: Vec<usize>, hold: usize, loops: usize) -> (r: Boomerang)
        ensures
            r.wf(),
            r.script() == laps(pass@, hold, loops, 0),
    {
        Boomerang { pass, hold, loops, lap: 0, position: 0, in_lap: false }
    }

    /// Takes the next cue.
    pub fn next_cue(&mut self) -> (cue: BoomerangCue)
        requires
            old(self).wf(),
        ensures
            final(self).wf(),
            cue == BoomerangCue::Finish <==> old(self).script().len() == 0,
            cue != BoomerangCue::Finish ==> old(self).script() == seq![cue]
                + final(self).script(),
            cue == BoomerangCue::Finish ==> final(self).script().len() == 0,
    {
        if !self.in_lap {
            if self.lap < self.loops {
                self.in_lap = true;
                self.position = 0;
                let cue = BoomerangCue::LapStart { lap: self.lap };
                assert(old(self).script() =~= seq![cue] + self.script());
                cue
            } else {
                BoomerangCue::Finish
            }
        } else if self.position < self.pass.len() {
            let cue = BoomerangCue::Hold { image: self.pass[self.position], frames: self.hold };
            self.position = self.position + 1;
            assert(old(self).script() =~= seq![cue] + self.script());
            cue
        } else {
            let cue = BoomerangCue::LapEnd { lap: self.lap };
            self.in_lap = false;
            self.lap = self.lap + 1;
            assert(old(self).script() =~= seq![cue] + self.script());
            cue
        }
    }
}

/// A cycle shows the first and the last picture once and every other picture twice.
pub proof fn law_cycle_visits(n: nat, i: int)
    requires
        0 <= i < n <= usize::MAX,
    ensures
        cycle_of(n)[i] == i,
        0 < i < n - 1 ==> cycle_of(n)[2 * n - 2 - i] == i,
        forall|k: int|
            0 <= k < cycle_of(n).len() && #[trigger] cycle_of(n)[k] == i ==> k == i || (0 < i < n - 1
                && k == 2 * n - 2 - i),
{
}

/// A cycle of `n` pictures shows `2 * n - 2` of them, or all where there are not more than two,
/// and nothing but these pictures.
pub proof fn law_cycle_length(n: nat, k: int)
    requires
        n <= usize::MAX,
    ensures
        n <= 2 ==> cycle_of(n).len() == n,
        n > 2 ==> cycle_of(n).len() == 2 * n - 2,
        0 <= k < cycle_of(n).len() ==> cycle_of(n)[k] < n,
{
}

/// Neighbours in a cycle are neighbours in the row of pictures, also where one cycle ends and
/// the next begins: no picture is shown twice in a row.
pub proof fn law_cycle_moves_by_one(n: nat, k: int)
    requires
        2 <= n <= usize::MAX,
        0 <= k < cycle_of(n).len(),
    ensures
        ({
            let next = if k + 1 < cycle_of(n).len() {
                k + 1
            } else {
                0
            };
            cycle_of(n)[next] - cycle_of(n)[k] == 1 || cycle_of(n)[k] - cycle_of(n)[next] == 1
        }),
{
}

/// From its first picture on a cycle reads the same in both directions.
pub proof fn law_cycle_is_symmetric(n: nat, k: int)
    requires
        2 < n <= usize::MAX,
        0 < k < cycle_of(n).len(),
    ensures
        cycle_of(n)[cycle_of(n).len() - k] == cycle_of(n)[k],
{
}

/// When every picture can be shown, a pass is the whole cycle.
pub proof fn law_readable_cycle_is_shown_whole(cycle: Seq<usize>, readable: Seq<bool>)
    requires
        forall|k: int| 0 <= k < cycle.len() ==> readable[#[trigger] cycle[k] as int],
    ensures
        cycle.filter(|i: usize| readable[i as int]) == cycle,
    decreases cycle.len(),
{
    reveal(Seq::filter);
    if cycle.len() > 0 {
        law_readable_cycle_is_shown_whole(cycle.drop_last(), readable);
        assert(readable[cycle[cycle.len() - 1] as int]);
        assert(cycle.drop_last().push(cycle.last()) =~= cycle);
    }
}

/// The pictures that a cue puts into the video, frame by frame.
pub open spec fn frames_of(cue: BoomerangCue) -> Seq<usize> {
    match cue {
        BoomerangCue::Hold { image, frames } => Seq::new(frames as nat, |t: int| image),
        _ => Seq::empty(),
    }
}

/// The pictures that a list of cues puts into the video, frame by frame.
pub open spec fn video_of(cues: Seq<BoomerangCue>) -> Seq<usize>
    decreases cues.len(),
{
    if cues.len() == 0 {
        Seq::empty()
    } else {
        video_of(cues.drop_last()) + frames_of(cues.last())
    }
}

proof fn lemma_video_of_sum(a: Seq<BoomerangCue>, b: Seq<BoomerangCue>)
    ensures
        video_of(a + b) == video_of(a) + video_of(b),
    decreases b.len(),
{
    if b.len() == 0 {
        assert(a + b =~= a);
        assert(video_of(a) + video_of(b) =~= video_of(a));
    } else {
        lemma_video_of_sum(a, b.drop_last());
        assert((a + b).drop_last() =~= a + b.drop_last());
        assert(video_of(a + b) =~= video_of(a) + video_of(b));
    }
}

proof fn lemma_video_of_one(cue: BoomerangCue)
    ensures
        video_of(seq![cue]) == frames_of(cue),
{
    reveal_with_fuel(video_of, 2);
    assert(seq![cue].drop_last() =~= Seq::empty());
    assert(video_of(seq![cue]) =~= frames_of(cue));
}

/// The pictures of one pass, each held for `hold` frames.
pub open spec fn held(pass: Seq<usize>, hold: nat) -> Seq<usize> {
    Seq::new(pass.len() * hold, |t: int| pass[t / hold as int])
}

proof fn lemma_video_of_holds(pass: Seq<usize>, hold: usize)
    ensures
        video_of(holds(pass, hold, 0)) == held(pass, hold as nat),
    decreases pass.len(),
{
    let cues = holds(pass, hold, 0);
    if pass.len() == 0 {
        assert(held(pass, hold as nat) =~= Seq::empty()) by (nonlinear_arith)
            requires
                pass.len() == 0,
        ;
    } else {
        let (front, m, h) = (pass.drop_last(), pass.len() - 1, hold as int);
        lemma_video_of_holds(front, hold);
        assert(cues.drop_last() =~= holds(front, hold, 0));
        assert(cues.last() == BoomerangCue::Hold { image: pass.last(), frames: hold });
        assert(pass.len() * h == m * h + h) by (nonlinear_arith)
            requires
                pass.len() == m + 1,
        ;
        assert forall|t: int| 0 <= t < pass.len() * h implies held(pass, hold as nat)[t] == (held(
            front,
            hold as nat,
        ) + frames_of(cues.last()))[t] by {
            assert(h > 0) by (nonlinear_arith)
                requires
                    0 <= t < (m + 1) * h,
                    m >= 0,
            ;
            if t < m * h {
                assert(0 <= t / h < m) by (nonlinear_arith)
                    requires
                        0 <= t < m * h,
                        h > 0,
                ;
            } else {
                assert(t / h == m) by (nonlinear_arith)
                    requires
                        m * h <= t < m * h + h,
                ;
            }
        }
        assert(held(pass, hold as nat) =~= held(front, hold as nat) + frames_of(cues.last()));
    }
}

/// The pictures of `n` passes in a row.
pub open spec fn repeated(row: Seq<usize>, n: nat) -> Seq<usize> {
    Seq::new(row.len() * n, |t: int| row[t % row.len() as int])
}

proof fn lemma_video_of_laps(pass: Seq<usize>, hold: usize, loops: usize, lap: int)
    requires
        0 <= lap <= loops,
    ensures
        video_of(laps(pass, hold, loops, lap)) == repeated(
            held(pass, hold as nat),
            (loops - lap) as nat,
        ),
    decreases loops - lap,
{
    let row = held(pass, hold as nat);
    let n = loops - lap;
    if lap == loops {
        assert(row.len() * 0 == 0);
        assert(repeated(row, 0) =~= Seq::empty());
    } else {
        let rest = laps(pass, hold, loops, lap + 1);
        let start = seq![BoomerangCue::LapStart { lap: lap as usize }];
        let end = seq![BoomerangCue::LapEnd { lap: lap as usize }];
        lemma_video_of_laps(pass, hold, loops, lap + 1);
        lemma_video_of_holds(pass, hold);
        lemma_video_of_sum(start + holds(pass, hold, 0) + end, rest);
        lemma_video_of_sum(start + holds(pass, hold, 0), end);
        lemma_video_of_sum(start, holds(pass, hold, 0));
        lemma_video_of_one(start[0]);
        lemma_video_of_one(end[0]);
        let len = row.len() as int;
        assert(len * n == len + len * (n - 1)) by (nonlinear_arith);
        let (whole, parts) = (repeated(row, n as nat), row + repeated(row, (n - 1) as nat));
        assert forall|t: int| 0 <= t < len * n implies #[trigger] whole[t] == parts[t] by {
            assert(len > 0) by (nonlinear_arith)
                requires
                    0 <= t < len * n,
                    len >= 0,
            ;
            if t < len {
                vstd::arithmetic::div_mod::lemma_small_mod(t as nat, len as nat);
            } else {
                vstd::arithmetic::div_mod::lemma_mod_sub_multiples_vanish(t, len);
            }
        }
        assert(whole =~= parts);
        assert(video_of(laps(pass, hold, loops, lap)) =~= row + video_of(rest));
    }
}

proof fn lemma_lap_cues(
    pass: Seq<usize>,
    hold: usize,
    loops: usize,
    first: int,
    lap: int,
    k: int,
)
    requires
        0 <= first <= lap < loops,
        0 <= k < pass.len() + 2,
    ensures
        ({
            let (cues, p) = (laps(pass, hold, loops, first), pass.len() + 2);
            &&& cues.len() == (loops - first) * p
            &&& 0 <= (lap - first) * p + k < cues.len()
            &&& cues[(lap - first) * p + k] == if k == 0 {
                BoomerangCue::LapStart { lap: lap as usize }
            } else if k <= pass.len() {
                BoomerangCue::Hold { image: pass[k - 1], frames: hold }
            } else {
                BoomerangCue::LapEnd { lap: lap as usize }
            }
        }),
    decreases lap - first,
{
    let p = pass.len() + 2;
    lemma_laps_len(pass, hold, loops, first);
    let (n, m) = (loops - first, lap - first);
    assert(0 <= m * p + k && m * p + k < n * p) by (nonlinear_arith)
        requires
            0 <= m < n,
            0 <= k < p,
    ;
    if lap > first {
        lemma_lap_cues(pass, hold, loops, first + 1, lap, k);
        assert(m * p + k == p + (m - 1) * p + k && (m - 1) * p >= 0) by (nonlinear_arith)
            requires
                m >= 1,
                p >= 2,
        ;
    } else {
        assert(0 * p + k == k);
    }
}

proof fn lemma_laps_len(pass: Seq<usize>, hold: usize, loops: usize, first: int)
    requires
        0 <= first <= loops,
    ensures
        laps(pass, hold, loops, first).len() == (loops - first) * (pass.len() + 2),
    decreases loops - first,
{
    let (n, p) = (loops - first, pass.len() + 2);
    if first < loops {
        lemma_laps_len(pass, hold, loops, first + 1);
        assert(n * p == p + (n - 1) * p) by (nonlinear_arith);
    } else {
        assert(0 * p == 0);
    }
}

/// What is to be done for a boomerang video, one by one: in every lap its start, every picture
/// of the pass in order and for the same number of frames, and its end.
pub proof fn law_boomerang_cues(pass: Seq<usize>, hold: usize, loops: usize, lap: int, k: int)
    requires
        0 <= lap < loops,
        0 <= k < pass.len(),
    ensures
        ({
            let (cues, p) = (laps(pass, hold, loops, 0), pass.len() + 2);
            &&& cues.len() == loops * p
            &&& cues[lap * p] == BoomerangCue::LapStart { lap: lap as usize }
            &&& cues[lap * p + 1 + k] == (BoomerangCue::Hold { image: pass[k], frames: hold })
            &&& cues[lap * p + 1 + pass.len()] == BoomerangCue::LapEnd { lap: lap as usize }
        }),
{
    lemma_lap_cues(pass, hold, loops, 0, lap, 0);
    lemma_lap_cues(pass, hold, loops, 0, lap, k + 1);
    lemma_lap_cues(pass, hold, loops, 0, lap, pass.len() as int + 1);
}

/// Without pictures the laps of a boomerang video only begin and end, and without laps there is
/// nothing to be done.
pub proof fn law_boomerang_without_pictures(hold: usize, loops: usize, lap: int)
    requires
        0 <= lap < loops,
    ensures
        laps(Seq::empty(), hold, loops, 0).len() == 2 * loops,
        laps(Seq::empty(), hold, loops, 0)[2 * lap] == (BoomerangCue::LapStart {
            lap: lap as usize,
        }),
        laps(Seq::empty(), hold, loops, 0)[2 * lap + 1] == (BoomerangCue::LapEnd {
            lap: lap as usize,
        }),
        laps(Seq::empty(), hold, 0, 0).len() == 0,
{
    let none = Seq::<usize>::empty();
    lemma_lap_cues(none, hold, loops, 0, lap, 0);
    lemma_lap_cues(none, hold, loops, 0, lap, 1);
    let p = none.len() + 2;
    assert((lap - 0) * p == 2 * lap && (loops - 0) * p == 2 * loops) by (nonlinear_arith)
        requires
            p == 2,
    ;
}

/// At frame `t` a boomerang video shows the picture whose turn it is in the pass when every
/// picture takes `hold` frames.
pub proof fn law_boomerang_frame(pass: Seq<usize>, hold: usize, loops: usize, t: int)
    requires
        0 <= t < pass.len() * hold * loops,
    ensures
        video_of(laps(pass, hold, loops, 0)).len() == pass.len() * hold * loops,
        video_of(laps(pass, hold, loops, 0))[t] == pass[t % (pass.len() * hold) / hold as int],
{
    law_boomerang_video(pass, hold, loops);
    let row = pass.len() * hold;
    assert(row > 0) by (nonlinear_arith)
        requires
            0 <= t < row * loops,
            row >= 0,
    ;
    assert(0 <= t % row < row);
}

/// The whole video shows the pass `loops` times over, each picture for `hold` frames.
pub proof fn law_boomerang_video(pass: Seq<usize>, hold: usize, loops: usize)
    ensures
        video_of(laps(pass, hold, loops, 0)) == repeated(held(pass, hold as nat), loops as nat),
        video_of(laps(pass, hold, loops, 0)).len() == pass.len() * hold * loops,
{
    lemma_video_of_laps(pass, hold, loops, 0);
}

} // verus!
