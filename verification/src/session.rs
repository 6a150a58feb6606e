//! The rollback engine.
//!
//! A session simulates one tick per call of `advance_frame`, on the real
//! inputs where they are known and on predictions where they are not. It
//! keeps the state before each recent tick. When a real input arrives that
//! differs from what a tick was simulated with, the next call goes back to
//! the state before that tick and simulates again from there.

use vstd::prelude::*;
use crate::checksum::{checksum, digest};
use crate::config::{PeerState, PlayerKind, SessionConfig, SyncError};
use crate::input::{is_named, names, BoxInput, Frame, LocalInput, PlayerInput};
use crate::ledger::{record_of, Ledger};
use crate::queue::{after, run, stored, Arrival};
use crate::sim::{is_pure, lemma_replay_push, replay, run_step};
use crate::wire::{decode, decoded, encode, Message};

verus! {

/// What one call of `advance_frame` did.
#[derive(Debug)]
pub struct TickReport {
    /// The tick that was simulated.
    pub frame: Frame,
    /// The tick at which the local inputs of this call take effect; peers
    /// are sent them under this number.
    pub input_frame: Frame,
    /// The inputs that `frame` was simulated with.
    pub inputs: Vec<PlayerInput>,
    /// The first tick that was simulated again, if any was.
    pub rollback: Option<Frame>,
}

/// What became of a frame that came off the network.
#[derive(Copy, Clone, PartialEq, Eq, Debug, Structural)]
pub enum Receipt {
    /// It was no message, or an input that is not waited for or not the
    /// sender's to give: it was dropped.
    Dropped,
    /// It was the next input of a remote participant and has been taken.
    InputTaken,
    /// It was an input of a remote participant for a later tick and waits
    /// for its turn.
    InputHeld,
    /// It was a checksum and agrees with the local state of its tick.
    ChecksumAgreed,
    /// It was a checksum of a tick whose local state is not final yet or no
    /// longer kept: nothing can be said.
    ChecksumUnchecked,
}

/// `trace` as it is after simulating again from `from` on: the ticks before
/// stay, the others get the inputs that `ledger` now gives.
pub open spec fn resimulated(trace: Seq<Seq<BoxInput>>, ledger: Ledger, from: int) -> Seq<Seq<BoxInput>> {
    Seq::new(
        trace.len(),
        |f: int|
            if f < from {
                trace[f]
            } else {
                ledger.inputs_for(f)
            },
    )
}

/// Tick `frame` was simulated with other inputs than `ledger` now gives.
pub open spec fn stale(trace: Seq<Seq<BoxInput>>, ledger: Ledger, frame: int) -> bool {
    0 <= frame < trace.len() && trace[frame] != ledger.inputs_for(frame)
}

/// The first stale tick, or the number of ticks if none is.
pub open spec fn first_stale(trace: Seq<Seq<BoxInput>>, ledger: Ledger) -> int {
    if exists|f: int| stale(trace, ledger, f) {
        choose|f: int| stale(trace, ledger, f) && forall|g: int| 0 <= g < f ==> !stale(trace, ledger, g)
    } else {
        trace.len() as int
    }
}

/// The first stale tick is the one before which nothing is stale and which
/// is stale itself, or the end.
pub proof fn law_first_stale_is_least(trace: Seq<Seq<BoxInput>>, ledger: Ledger, frame: int)
    requires
        0 <= frame <= trace.len(),
        forall|f: int| 0 <= f < frame ==> !stale(trace, ledger, f),
        frame < trace.len() ==> stale(trace, ledger, frame),
    ensures
        first_stale(trace, ledger) == frame,
{
    if exists|f: int| stale(trace, ledger, f) {
        let w = choose|f: int| stale(trace, ledger, f);
        assert(frame < trace.len()) by {
            if frame == trace.len() {
                assert(!stale(trace, ledger, w));
            }
        }
        assert(stale(trace, ledger, frame) && forall|g: int| 0 <= g < frame ==> !stale(trace, ledger, g));
        let c = choose|f: int| stale(trace, ledger, f) && forall|g: int| 0 <= g < f ==> !stale(trace, ledger, g);
        assert(stale(trace, ledger, c) && forall|g: int| 0 <= g < c ==> !stale(trace, ledger, g));
        if c < frame {
            assert(!stale(trace, ledger, c));
        } else if frame < c {
            assert(!stale(trace, ledger, frame));
        }
    } else {
        if frame < trace.len() {
            assert(stale(trace, ledger, frame));
        }
    }
}

/// A rollback session over the simulation `step`.
pub struct Session<F> {
    step: F,
    config: SessionConfig,
    ledger: Ledger,
    current: Frame,
    finalized: Frame,
    base: Frame,
    used: Vec<Vec<BoxInput>>,
    snapshots: Vec<Vec<u8>>,
    init: Ghost<Seq<u8>>,
    trace: Ghost<Seq<Seq<BoxInput>>>,
}

impl<F: Fn(&Vec<u8>, &Vec<BoxInput>) -> Vec<u8>> Session<F> {
    /// The simulation that the session drives.
    pub closed spec fn step_fn(&self) -> F {
        self.step
    }

    /// The settings that the session runs with.
    pub closed spec fn config(&self) -> SessionConfig {
        self.config
    }

    /// What is known of the participants' inputs.
    pub closed spec fn ledger(&self) -> Ledger {
        self.ledger
    }

    /// The state that the session started from.
    pub closed spec fn initial_state(&self) -> Seq<u8> {
        self.init@
    }

    /// The next tick to simulate; as many ticks have been simulated.
    pub closed spec fn current_frame(&self) -> int {
        self.current as int
    }

    /// The inputs that each tick was last simulated with.
    pub closed spec fn trace(&self) -> Seq<Seq<BoxInput>> {
        self.trace@
    }

    /// The oldest tick whose snapshot is kept.
    pub closed spec fn oldest_snapshot(&self) -> int {
        self.base as int
    }

    /// The state before tick `frame`, as kept.
    pub closed spec fn snapshot(&self, frame: int) -> Seq<u8> {
        self.snapshots@[frame - self.base]@
    }

    /// The number of ticks from the start whose inputs were all final when
    /// the last tick was simulated. It changes with `advance_frame` only.
    pub closed spec fn finalized_frames(&self) -> int {
        self.finalized as int
    }

    /// The number of participants.
    pub open spec fn num_players(&self) -> int {
        self.ledger().num_players()
    }

    /// How many ticks the simulation may run ahead.
    pub open spec fn max_prediction_window(&self) -> int {
        self.config().max_prediction_window()
    }

    /// By how many ticks local input is held back.
    pub open spec fn input_delay(&self) -> int {
        self.config().input_delay()
    }

    /// The latest tick, not after the current one, for which the real input
    /// of every participant still present is known; -1 if there is none.
    pub open spec fn confirmed_frame(&self) -> int {
        self.ledger().confirmed(self.current_frame())
    }

    /// The snapshot of `frame` is kept.
    pub open spec fn has_snapshot(&self, frame: int) -> bool {
        self.oldest_snapshot() <= frame <= self.current_frame()
    }

    /// The number of ticks from the start whose inputs are all final: those
    /// up to the confirmed tick, as far as they have been simulated.
    pub open spec fn settled_frames(&self) -> int {
        if self.confirmed_frame() < self.current_frame() {
            self.confirmed_frame() + 1
        } else {
            self.current_frame()
        }
    }

    /// The snapshot of `frame` is kept and will not change: every tick
    /// before `frame` was simulated with inputs that are final.
    pub open spec fn is_final(&self, frame: int) -> bool {
        self.oldest_snapshot() <= frame <= self.finalized_frames()
    }

    /// The state after all ticks simulated so far.
    pub open spec fn state(&self) -> Seq<u8> {
        self.snapshot(self.current_frame())
    }

    /// The inputs that the ledger now gives for every simulated tick.
    pub open spec fn expected(&self) -> Seq<Seq<BoxInput>> {
        Seq::new(self.current_frame() as nat, |f: int| self.ledger().inputs_for(f))
    }

    /// Every tick was simulated with the inputs that the ledger now gives.
    pub open spec fn in_sync(&self) -> bool {
        self.trace() == self.expected()
    }

    /// The simulation may not run on: it would get further ahead than the
    /// prediction window allows of the last tick for which the real input
    /// of some remote participant, still present, is known.
    pub open spec fn must_stall(&self) -> bool {
        self.ledger().behind(self.current_frame() + 1 - self.max_prediction_window())
    }

    /// The first tick whose input `recent_inputs` sends for `handle` when
    /// asked for the last `count`: of the inputs still kept, at most
    /// `count`.
    pub open spec fn resend_from(&self, handle: int, count: int) -> int {
        if self.ledger().known(handle).len() - count > self.oldest_snapshot() {
            self.ledger().known(handle).len() - count
        } else {
            self.oldest_snapshot()
        }
    }

    /// One more tick can be numbered.
    pub open spec fn has_room(&self) -> bool {
        self.current_frame() + self.input_delay() < i32::MAX
    }

    /// The oldest tick whose snapshot must be kept.
    pub open spec fn retention_floor(&self) -> int {
        if self.confirmed_frame() - self.max_prediction_window() > 0 {
            self.confirmed_frame() - self.max_prediction_window()
        } else {
            0
        }
    }

    spec fn simulated(&self) -> int {
        self.base + self.used@.len()
    }

    spec fn core_inv(&self) -> bool {
        &&& is_pure(self.step)
        &&& self.config.wf()
        &&& self.ledger.wf()
        &&& self.ledger.num_players() == self.config.kinds().len()
        &&& forall|h: int| 0 <= h < self.ledger.num_players() ==> #[trigger] self.ledger.kind(h) == self.config.kinds()[h]
        &&& 0 <= self.base <= self.finalized <= self.simulated() <= self.current
        &&& self.current + self.config.input_delay() <= i32::MAX
        &&& self.snapshots@.len() == self.used@.len() + 1
        &&& self.trace@.len() == self.simulated()
        &&& forall|i: int| 0 <= i < self.used@.len() ==> (#[trigger] self.used@[i])@ == self.trace@[self.base + i]
        &&& forall|i: int|
            0 <= i < self.snapshots@.len() ==> (#[trigger] self.snapshots@[i])@ == replay(
                self.step,
                self.init@,
                self.trace@.take(self.base + i),
            )
        &&& forall|h: int|
            self.ledger.is_local(h) ==> (#[trigger] self.ledger.known(h)).len() == self.current
                + self.config.input_delay()
        &&& forall|h: int| 0 <= h < self.ledger.num_players() ==> #[trigger] self.ledger.oldest(h) <= self.base
        &&& forall|h: int| self.ledger.is_local(h) ==> #[trigger] self.ledger.oldest(h) == self.base
        &&& forall|f: int| 0 <= f < self.finalized ==> #[trigger] self.trace@[f] == self.ledger.inputs_for(f)
        &&& forall|f: int, h: int|
            0 <= f < self.finalized && 0 <= h < self.ledger.num_players() ==> #[trigger] self.ledger.settled(
                h,
                f,
            )
        &&& self.current - self.ledger.confirmed(self.current as int) <= self.config.max_prediction_window()
        &&& self.base <= self.retention_floor()
    }

    /// What holds of a session between calls.
    pub closed spec fn wf(&self) -> bool {
        &&& self.core_inv()
        &&& self.simulated() == self.current
        &&& self.finalized >= self.current - self.config.max_prediction_window()
        &&& self.base == self.retention_floor()
    }
}

/// Whether two lists of inputs are the same.
fn same_inputs(a: &Vec<BoxInput>, b: &Vec<BoxInput>) -> (same: bool)
    ensures
        same == (a@ == b@),
{
    if a.len() != b.len() {
        return false;
    }
    let mut i: usize = 0;
    while i < a.len()
        invariant
            i <= a@.len(),
            a@.len() == b@.len(),
            forall|k: int| 0 <= k < i ==> a@[k] == b@[k],
        decreases a@.len() - i,
    {
        if a[i] != b[i] {
            return false;
        }
        i = i + 1;
    }
    assert(a@ =~= b@);
    true
}

impl<F: Fn(&Vec<u8>, &Vec<BoxInput>) -> Vec<u8>> Session<F> {
    /// What a well-formed session holds to.
    pub proof fn lemma_wf(&self)
        requires
            self.wf(),
        ensures
            is_pure(self.step_fn()),
            self.config().wf(),
            self.ledger().wf(),
            self.num_players() == self.config().kinds().len(),
            forall|h: int| 0 <= h < self.num_players() ==> #[trigger] self.ledger().kind(h) == self.config().kinds()[h],
            forall|h: int|
                self.ledger().is_local(h) ==> (#[trigger] self.ledger().known(h)).len() == self.current_frame()
                    + self.input_delay(),
            0 <= self.oldest_snapshot() <= self.finalized_frames() <= self.current_frame(),
            self.current_frame() + self.input_delay() <= i32::MAX,
            self.trace().len() == self.current_frame(),
            forall|k: int|
                self.has_snapshot(k) ==> #[trigger] self.snapshot(k) == replay(
                    self.step_fn(),
                    self.initial_state(),
                    self.trace().take(k),
                ),
            self.state() == replay(self.step_fn(), self.initial_state(), self.trace()),
            forall|f: int| 0 <= f < self.finalized_frames() ==> #[trigger] self.trace()[f] == self.ledger().inputs_for(f),
            forall|f: int, h: int|
                0 <= f < self.finalized_frames() && 0 <= h < self.num_players() ==> #[trigger] self.ledger().settled(
                    h,
                    f,
                ),
            -1 <= self.confirmed_frame() <= self.current_frame(),
            self.current_frame() - self.confirmed_frame() <= self.max_prediction_window(),
            self.oldest_snapshot() == self.retention_floor(),
    {
        self.ledger.lemma_bounds();
        self.ledger.lemma_confirmed(self.current as int);
        assert forall|k: int| self.has_snapshot(k) implies #[trigger] self.snapshot(k) == replay(
            self.step_fn(),
            self.initial_state(),
            self.trace().take(k),
        ) by {
            let i = k - self.base;
            assert(self.snapshots@[i]@ == replay(self.step, self.init@, self.trace@.take(self.base + i)));
        }
        assert(self.trace().take(self.current_frame()) =~= self.trace());
    }

    /// Starts a session on `initial_state`. Nothing has been simulated; the
    /// ticks that the input delay covers hold the zero record for everyone.
    pub fn new(config: SessionConfig, initial_state: Vec<u8>, step: F) -> (s: Self)
        requires
            config.wf(),
            is_pure(step),
        ensures
            s.wf(),
            s.step_fn() == step,
            s.config() == config,
            s.initial_state() == initial_state@,
            s.current_frame() == 0,
            s.finalized_frames() == 0,
            s.trace() == Seq::<Seq<BoxInput>>::empty(),
            s.state() == initial_state@,
            s.in_sync(),
            s.num_players() == config.kinds().len(),
            forall|h: int| 0 <= h < s.num_players() ==> #[trigger] s.ledger().kind(h) == config.kinds()[h],
            forall|h: int|
                0 <= h < s.num_players() ==> #[trigger] s.ledger().peer(h) == if config.kinds()[h] is Local {
                    PeerState::Connected
                } else {
                    PeerState::Connecting
                },
            forall|h: int|
                0 <= h < s.num_players() ==> #[trigger] s.ledger().known(h) == crate::ledger::blank(
                    config.input_delay(),
                ),
    {
        let ledger = Ledger::new(&config);
        let ghost init = initial_state@;
        let mut snapshots: Vec<Vec<u8>> = Vec::new();
        snapshots.push(initial_state);
        let s = Session {
            step,
            config,
            ledger,
            current: 0,
            finalized: 0,
            base: 0,
            used: Vec::new(),
            snapshots,
            init: Ghost(init),
            trace: Ghost(Seq::empty()),
        };
        proof {
            config.lemma_bounds();
            s.ledger.lemma_bounds();
            s.ledger.lemma_confirmed(0);
            assert(s.trace@.take(0) =~= s.trace@);
            assert(s.snapshots@[0]@ == replay(s.step, s.init@, s.trace@.take(0)));
            assert forall|h: int| s.ledger.is_local(h) implies (#[trigger] s.ledger.known(h)).len() == s.current
                + s.config.input_delay() by {
                assert(s.ledger.known(h) == crate::ledger::blank(config.input_delay()));
            }
            assert(s.core_inv());
            assert(s.trace() =~= s.expected());
        }
        s
    }

    /// Simulates the next tick that is due with the inputs that the ledger
    /// gives for it, and keeps the state that results.
    fn simulate_one(&mut self)
        requires
            old(self).core_inv(),
            old(self).simulated() < old(self).current,
        ensures
            final(self).core_inv(),
            final(self).simulated() == old(self).simulated() + 1,
            final(self).trace@ == old(self).trace@.push(old(self).ledger.inputs_for(old(self).simulated())),
            final(self).step == old(self).step,
            final(self).config == old(self).config,
            final(self).ledger == old(self).ledger,
            final(self).current == old(self).current,
            final(self).finalized == old(self).finalized,
            final(self).base == old(self).base,
            final(self).init == old(self).init,
    {
        let ghost before = *self;
        let frame: Frame = self.base + (self.used.len() as i32);
        proof {
            assert forall|h: int| 0 <= h < self.ledger.num_players() implies self.ledger.oldest(h) <= frame by {
                assert(self.ledger.oldest(h) <= self.base);
            }
        }
        let inputs = self.ledger.inputs_at(frame);
        let last = self.snapshots.len() - 1;
        let next = run_step(&self.step, &self.snapshots[last], &inputs);
        self.snapshots.push(next);
        self.used.push(inputs);
        proof {
            self.trace@ = self.trace@.push(inputs@);
            let sim = before.simulated();
            assert(before.trace@.take(sim) =~= before.trace@);
            lemma_replay_push(self.step, self.init@, before.trace@, inputs@);
            assert forall|i: int| 0 <= i < self.used@.len() implies (#[trigger] self.used@[i])@
                == self.trace@[self.base + i] by {
                if i < before.used@.len() {
                    assert(self.used@[i] == before.used@[i]);
                }
            }
            assert forall|i: int| 0 <= i < self.snapshots@.len() implies (#[trigger] self.snapshots@[i])@
                == replay(self.step, self.init@, self.trace@.take(self.base + i)) by {
                if i < before.snapshots@.len() {
                    assert(self.snapshots@[i] == before.snapshots@[i]);
                    assert(self.trace@.take(self.base + i) =~= before.trace@.take(self.base + i));
                } else {
                    assert(self.trace@.take(self.base + i) =~= self.trace@);
                    assert(before.snapshots@[last as int]@ == replay(
                        self.step,
                        self.init@,
                        before.trace@.take(self.base + last),
                    ));
                }
            }
            assert forall|f: int| 0 <= f < self.finalized implies #[trigger] self.trace@[f]
                == self.ledger.inputs_for(f) by {
                assert(self.trace@[f] == before.trace@[f]);
            }
        }
    }

    /// Goes back to the state before `frame`.
    fn rewind(&mut self, frame: Frame)
        requires
            old(self).core_inv(),
            old(self).finalized <= frame <= old(self).simulated(),
        ensures
            final(self).core_inv(),
            final(self).simulated() == frame,
            final(self).trace@ == old(self).trace@.take(frame as int),
            final(self).step == old(self).step,
            final(self).config == old(self).config,
            final(self).ledger == old(self).ledger,
            final(self).current == old(self).current,
            final(self).finalized == old(self).finalized,
            final(self).base == old(self).base,
            final(self).init == old(self).init,
    {
        let ghost before = *self;
        let keep = (frame - self.base) as usize;
        self.used.truncate(keep);
        self.snapshots.truncate(keep + 1);
        proof {
            self.trace@ = self.trace@.take(frame as int);
            assert forall|i: int| 0 <= i < self.used@.len() implies (#[trigger] self.used@[i])@
                == self.trace@[self.base + i] by {
                assert(self.used@[i] == before.used@[i]);
            }
            assert forall|i: int| 0 <= i < self.snapshots@.len() implies (#[trigger] self.snapshots@[i])@
                == replay(self.step, self.init@, self.trace@.take(self.base + i)) by {
                assert(self.snapshots@[i] == before.snapshots@[i]);
                assert(self.trace@.take(self.base + i) =~= before.trace@.take(self.base + i));
            }
            assert forall|f: int| 0 <= f < self.finalized implies #[trigger] self.trace@[f]
                == self.ledger.inputs_for(f) by {
                assert(self.trace@[f] == before.trace@[f]);
            }
        }
    }

    /// Simulates every tick that is due.
    fn catch_up(&mut self)
        requires
            old(self).core_inv(),
        ensures
            final(self).core_inv(),
            final(self).simulated() == old(self).current,
            final(self).trace@.len() == old(self).current,
            forall|f: int| 0 <= f < old(self).simulated() ==> final(self).trace@[f] == old(self).trace@[f],
            forall|f: int|
                old(self).simulated() <= f < old(self).current ==> final(self).trace@[f] == old(
                    self,
                ).ledger.inputs_for(f),
            final(self).step == old(self).step,
            final(self).config == old(self).config,
            final(self).ledger == old(self).ledger,
            final(self).current == old(self).current,
            final(self).finalized == old(self).finalized,
            final(self).base == old(self).base,
            final(self).init == old(self).init,
    {
        let ghost before = *self;
        while self.base + (self.used.len() as i32) < self.current
            invariant
                self.core_inv(),
                before.simulated() <= self.simulated() <= self.current,
                self.trace@.len() == self.simulated(),
                forall|f: int| 0 <= f < before.simulated() ==> self.trace@[f] == before.trace@[f],
                forall|f: int|
                    before.simulated() <= f < self.simulated() ==> self.trace@[f] == self.ledger.inputs_for(f),
                self.step == before.step,
                self.config == before.config,
                self.ledger == before.ledger,
                self.current == before.current,
                self.finalized == before.finalized,
                self.base == before.base,
                self.init == before.init,
                before.trace@.len() == before.simulated(),
            decreases self.current - self.simulated(),
        {
            self.simulate_one();
        }
    }

    /// The first tick, among those that may hold a prediction, that was
    /// simulated with other inputs than the ledger now gives.
    fn find_stale(&self) -> (frame: Frame)
        requires
            self.core_inv(),
        ensures
            self.finalized <= frame <= self.simulated(),
            forall|f: int| 0 <= f < frame ==> self.trace@[f] == self.ledger.inputs_for(f),
            frame < self.simulated() ==> self.trace@[frame as int] != self.ledger.inputs_for(frame as int),
    {
        let end: Frame = self.base + (self.used.len() as i32);
        let mut frame = self.finalized;
        while frame < end
            invariant
                self.core_inv(),
                end == self.simulated(),
                self.finalized <= frame <= end,
                forall|f: int| 0 <= f < frame ==> self.trace@[f] == self.ledger.inputs_for(f),
            decreases end - frame,
        {
            proof {
                assert forall|h: int| 0 <= h < self.ledger.num_players() implies self.ledger.oldest(h)
                    <= frame by {
                    assert(self.ledger.oldest(h) <= self.base);
                }
            }
            let inputs = self.ledger.inputs_at(frame);
            let index = (frame - self.base) as usize;
            assert(self.used@[index as int]@ == self.trace@[self.base + index]);
            if !same_inputs(&self.used[index], &inputs) {
                return frame;
            }
            frame = frame + 1;
        }
        frame
    }

    /// Lets go of the snapshots and inputs that are older than the
    /// prediction window reaches back from the confirmed tick.
    fn trim(&mut self)
        requires
            old(self).core_inv(),
            old(self).simulated() == old(self).current,
            old(self).finalized >= old(self).current - old(self).config.max_prediction_window(),
        ensures
            final(self).wf(),
            final(self).ledger.agrees(&old(self).ledger),
            final(self).trace@ == old(self).trace@,
            final(self).step == old(self).step,
            final(self).config == old(self).config,
            final(self).current == old(self).current,
            final(self).finalized == old(self).finalized,
            final(self).init == old(self).init,
    {
        let ghost before = *self;
        proof {
            self.config.lemma_bounds();
            self.ledger.lemma_bounds();
            self.ledger.lemma_confirmed(self.current as int);
        }
        let confirmed = self.ledger.confirmed_frame(self.current);
        let window = self.config.max_prediction();
        let floor: Frame = if confirmed - window > 0 {
            confirmed - window
        } else {
            0
        };
        if floor > self.base {
            let drop = (floor - self.base) as usize;
            let used_rest = self.used.split_off(drop);
            self.used = used_rest;
            let snapshots_rest = self.snapshots.split_off(drop);
            self.snapshots = snapshots_rest;
            self.base = floor;
            self.ledger.discard_before(floor);
            proof {
                self.ledger.lemma_agrees(&before.ledger);
                self.ledger.lemma_bounds();
                assert forall|i: int| 0 <= i < self.used@.len() implies (#[trigger] self.used@[i])@
                    == self.trace@[self.base + i] by {
                    assert(self.used@[i] == before.used@[i + drop]);
                }
                assert forall|i: int| 0 <= i < self.snapshots@.len() implies (
                #[trigger] self.snapshots@[i])@ == replay(
                    self.step,
                    self.init@,
                    self.trace@.take(self.base + i),
                ) by {
                    assert(self.snapshots@[i] == before.snapshots@[i + drop]);
                }
                assert forall|h: int| self.ledger.is_local(h) implies (#[trigger] self.ledger.known(h)).len()
                    == self.current + self.config.input_delay() by {
                    assert(before.ledger.is_local(h));
                    assert(self.ledger.known(h) == before.ledger.known(h));
                }
                assert forall|h: int| 0 <= h < self.ledger.num_players() implies #[trigger] self.ledger.oldest(
                    h,
                ) <= self.base by {
                    assert(before.ledger.oldest(h) <= before.base);
                }
                assert forall|h: int| 0 <= h < self.ledger.num_players() implies #[trigger] self.ledger.kind(h)
                    == self.config.kinds()[h] by {
                    assert(before.ledger.kind(h) == self.config.kinds()[h]);
                }
                assert forall|f: int| 0 <= f < self.finalized implies #[trigger] self.trace@[f]
                    == self.ledger.inputs_for(f) by {
                    assert(before.trace@[f] == before.ledger.inputs_for(f));
                    assert(self.ledger.inputs_for(f) == before.ledger.inputs_for(f));
                }
                assert forall|f: int, h: int|
                    0 <= f < self.finalized && 0 <= h < self.ledger.num_players() implies #[trigger] self.ledger.settled(
                    h,
                    f,
                ) by {
                    assert(before.ledger.settled(h, f));
                    assert(self.ledger.settled(h, f) == before.ledger.settled(h, f));
                }
                assert(self.ledger.confirmed(self.current as int) == before.ledger.confirmed(
                    self.current as int,
                ));
            }
        } else {
            proof {
                assert forall|h: int| 0 <= h < self.ledger.num_players() implies #[trigger] self.ledger.known(
                    h,
                ) == before.ledger.known(h) by {}
            }
        }
    }

    /// A session keeps its inner order when its ledger learns more and its
    /// current tick does not move back.
    proof fn lemma_carry(before: &Self, after: &Self)
        requires
            before.core_inv(),
            after.step == before.step,
            after.config == before.config,
            after.base == before.base,
            after.finalized == before.finalized,
            after.used == before.used,
            after.snapshots == before.snapshots,
            after.init == before.init,
            after.trace == before.trace,
            after.current >= before.current,
            after.current + after.config.input_delay() <= i32::MAX,
            after.ledger.wf(),
            after.ledger.extends(&before.ledger),
            forall|h: int|
                0 <= h < before.ledger.num_players() ==> #[trigger] after.ledger.oldest(h)
                    == before.ledger.oldest(h),
            forall|h: int|
                after.ledger.is_local(h) ==> (#[trigger] after.ledger.known(h)).len() == after.current
                    + after.config.input_delay(),
            after.current - after.ledger.confirmed(after.current as int)
                <= after.config.max_prediction_window(),
        ensures
            after.core_inv(),
    {
        assert forall|h: int| 0 <= h < after.ledger.num_players() implies #[trigger] after.ledger.kind(h)
            == after.config.kinds()[h] by {
            assert(before.ledger.kind(h) == before.config.kinds()[h]);
        }
        assert forall|h: int| 0 <= h < after.ledger.num_players() implies #[trigger] after.ledger.oldest(h)
            <= after.base by {
            assert(before.ledger.oldest(h) <= before.base);
        }
        assert forall|f: int| 0 <= f < after.finalized implies #[trigger] after.trace@[f]
            == after.ledger.inputs_for(f) by {
            assert forall|h: int| 0 <= h < before.ledger.num_players() implies #[trigger] before.ledger.settled(
                h,
                f,
            ) by {}
            after.ledger.lemma_settled_stays(&before.ledger, f);
            assert(before.trace@[f] == before.ledger.inputs_for(f));
        }
        assert forall|f: int, h: int|
            0 <= f < after.finalized && 0 <= h < after.ledger.num_players() implies #[trigger] after.ledger.settled(
            h,
            f,
        ) by {
            assert forall|k: int| 0 <= k < before.ledger.num_players() implies #[trigger] before.ledger.settled(
                k,
                f,
            ) by {}
            after.ledger.lemma_settled_stays(&before.ledger, f);
        }
        after.ledger.lemma_extends_confirmed(&before.ledger, before.current as int, after.current as int);
    }

    /// Takes the input of a remote participant for `frame`, as it came off
    /// the network. Inputs may come in any order and more than once: the
    /// one for the next tick of a remote participant that is present is
    /// taken, together with those that waited for it; one for a later tick
    /// waits for its turn; anything else (a duplicate, an input too far
    /// ahead, an unknown or local handle, a participant that has left) is
    /// dropped. Nothing is simulated here: a wrong prediction is corrected
    /// by the next call of `advance_frame`.
    pub fn add_remote_input(&mut self, handle: usize, frame: Frame, input: BoxInput) -> (arrival: Arrival)
        requires
            old(self).wf(),
        ensures
            final(self).wf(),
            arrival == old(self).ledger().arrival(handle, frame),
            arrival is Dropped ==> *final(self) == *old(self),
            final(self).ledger().same_players(&old(self).ledger()),
            final(self).ledger().extends(&old(self).ledger()),
            forall|h: int|
                0 <= h < old(self).num_players() ==> #[trigger] final(self).ledger().known(h) == if arrival is Taken
                    && h == handle {
                    old(self).ledger().known(h).push(input) + run(after(old(self).ledger().held(h), 1))
                } else {
                    old(self).ledger().known(h)
                },
            forall|h: int|
                0 <= h < old(self).num_players() ==> #[trigger] final(self).ledger().held(h) == if h != handle
                    || arrival is Dropped {
                    old(self).ledger().held(h)
                } else if arrival is Held {
                    stored(old(self).ledger().held(h), frame - old(self).ledger().known(h).len(), input)
                } else {
                    after(
                        old(self).ledger().held(h),
                        1 + run(after(old(self).ledger().held(h), 1)).len() as int,
                    )
                },
            final(self).step_fn() == old(self).step_fn(),
            final(self).config() == old(self).config(),
            final(self).initial_state() == old(self).initial_state(),
            final(self).current_frame() == old(self).current_frame(),
            final(self).finalized_frames() == old(self).finalized_frames(),
            final(self).trace() == old(self).trace(),
            final(self).state() == old(self).state(),
    {
        let ghost before = *self;
        match self.ledger.would_take(handle, frame) {
            Arrival::Dropped => {
                return Arrival::Dropped;
            },
            _ => {},
        }
        let arrival = self.ledger.receive(handle, frame, input);
        proof {
            before.lemma_wf();
            before.ledger.lemma_bounds();
            let learned = self.ledger;
            assert forall|h: int| learned.is_local(h) implies (#[trigger] learned.known(h)).len() == self.current
                + self.config.input_delay() by {
                assert(learned.kind(h) == before.ledger.kind(h));
                assert(before.ledger.is_local(h));
                assert(h != handle);
                assert(learned.known(h) == before.ledger.known(h));
                assert(before.ledger.known(h).len() == self.current + self.config.input_delay());
            }
            learned.lemma_extends_confirmed(&before.ledger, self.current as int, self.current as int);
            Self::lemma_carry(&before, self);
        }
        let ghost learned = self.ledger;
        self.trim();
        proof {
            self.lemma_wf();
            self.ledger.lemma_extends_after(&learned, &before.ledger);
            assert forall|h: int| 0 <= h < before.num_players() implies #[trigger] self.ledger().known(h)
                == if arrival is Taken && h == handle {
                before.ledger().known(h).push(input) + run(after(before.ledger().held(h), 1))
            } else {
                before.ledger().known(h)
            } by {
                assert(self.ledger.known(h) == learned.known(h));
            }
            assert forall|h: int| 0 <= h < before.num_players() implies #[trigger] self.ledger().held(h)
                == if h != handle || arrival is Dropped {
                before.ledger().held(h)
            } else if arrival is Held {
                stored(before.ledger().held(h), frame - before.ledger().known(h).len(), input)
            } else {
                after(before.ledger().held(h), 1 + run(after(before.ledger().held(h), 1)).len() as int)
            } by {
                assert(self.ledger.held(h) == learned.held(h));
            }
            assert forall|h: int| 0 <= h < self.ledger.num_players() implies self.ledger.kind(h)
                == before.ledger.kind(h) && self.ledger.peer(h) == before.ledger.peer(h) by {
                assert(self.ledger.kind(h) == learned.kind(h));
                assert(self.ledger.peer(h) == learned.peer(h));
            }
        }
        arrival
    }

    /// Notes what the transport reports of a remote participant's
    /// connection. From the tick after the last one known of it, a
    /// participant that has left is simulated with its last known input for
    /// good, and the confirmed tick no longer waits for it. A local
    /// participant, an unknown handle and a participant that has left are
    /// refused, and nothing changes.
    pub fn set_peer_state(&mut self, handle: usize, state: PeerState) -> (r: Result<(), SyncError>)
        requires
            old(self).wf(),
        ensures
            final(self).wf(),
            r is Ok <==> handle < old(self).num_players() && old(self).ledger().kind(handle as int) is Remote
                && !old(self).ledger().gone(handle as int),
            r is Err ==> r == Err::<(), SyncError>(SyncError::InvalidConfiguration) && *final(self) == *old(
                self,
            ),
            final(self).num_players() == old(self).num_players(),
            forall|h: int|
                0 <= h < old(self).num_players() ==> #[trigger] final(self).ledger().kind(h) == old(
                    self,
                ).ledger().kind(h),
            forall|h: int|
                0 <= h < old(self).num_players() ==> #[trigger] final(self).ledger().known(h) == old(
                    self,
                ).ledger().known(h),
            forall|h: int|
                0 <= h < old(self).num_players() ==> #[trigger] final(self).ledger().held(h) == old(
                    self,
                ).ledger().held(h),
            forall|h: int|
                0 <= h < old(self).num_players() ==> #[trigger] final(self).ledger().peer(h) == if r is Ok
                    && h == handle {
                    state
                } else {
                    old(self).ledger().peer(h)
                },
            final(self).step_fn() == old(self).step_fn(),
            final(self).config() == old(self).config(),
            final(self).initial_state() == old(self).initial_state(),
            final(self).current_frame() == old(self).current_frame(),
            final(self).finalized_frames() == old(self).finalized_frames(),
            final(self).trace() == old(self).trace(),
            final(self).state() == old(self).state(),
    {
        let ghost before = *self;
        match self.ledger.set_peer_state(handle, state) {
            Err(e) => {
                return Err(e);
            },
            Ok(()) => {},
        }
        proof {
            before.lemma_wf();
            let learned = self.ledger;
            assert forall|h: int| learned.is_local(h) implies (#[trigger] learned.known(h)).len() == self.current
                + self.config.input_delay() by {
                assert(learned.kind(h) == before.ledger.kind(h));
                assert(before.ledger.is_local(h));
                assert(learned.known(h) == before.ledger.known(h));
            }
            learned.lemma_extends_confirmed(&before.ledger, self.current as int, self.current as int);
            Self::lemma_carry(&before, self);
        }
        let ghost learned = self.ledger;
        self.trim();
        proof {
            self.lemma_wf();
            assert forall|h: int| 0 <= h < before.num_players() implies #[trigger] self.ledger().kind(h)
                == before.ledger().kind(h) by {
                assert(self.ledger.kind(h) == learned.kind(h));
            }
            assert forall|h: int| 0 <= h < before.num_players() implies #[trigger] self.ledger().known(h)
                == before.ledger().known(h) by {
                assert(self.ledger.known(h) == learned.known(h));
            }
            assert forall|h: int| 0 <= h < before.num_players() implies #[trigger] self.ledger().held(h)
                == before.ledger().held(h) by {
                assert(self.ledger.held(h) == learned.held(h));
            }
            assert forall|h: int| 0 <= h < before.num_players() implies #[trigger] self.ledger().peer(h) == if h
                == handle {
                state
            } else {
                before.ledger().peer(h)
            } by {
                assert(self.ledger.peer(h) == learned.peer(h));
            }
        }
        Ok(())
    }

    /// Goes back to the state before `from` and simulates again from there
    /// up to the current tick, with the inputs that are now known. Returns
    /// whether it did: that is, whether the snapshot of `from` is kept.
    /// Where every tick had been simulated with those inputs already, the
    /// result is the state that was there before.
    pub fn resimulate(&mut self, from: Frame) -> (done: bool)
        requires
            old(self).wf(),
        ensures
            final(self).wf(),
            done == old(self).has_snapshot(from as int),
            final(self).trace() == if done {
                resimulated(old(self).trace(), old(self).ledger(), from as int)
            } else {
                old(self).trace()
            },
            old(self).in_sync() ==> final(self).trace() == old(self).trace() && final(self).state() == old(
                self,
            ).state(),
            final(self).ledger() == old(self).ledger(),
            final(self).step_fn() == old(self).step_fn(),
            final(self).config() == old(self).config(),
            final(self).initial_state() == old(self).initial_state(),
            final(self).current_frame() == old(self).current_frame(),
            final(self).finalized_frames() == old(self).finalized_frames(),
            final(self).oldest_snapshot() == old(self).oldest_snapshot(),
    {
        if from < self.base || from > self.current {
            return false;
        }
        let ghost before = *self;
        let finalized = self.finalized;
        if from < finalized {
            self.finalized = from;
        }
        self.rewind(from);
        self.catch_up();
        self.finalized = finalized;
        proof {
            assert(self.trace@ =~= resimulated(before.trace@, before.ledger, from as int));
            assert forall|f: int| 0 <= f < self.finalized implies #[trigger] self.trace@[f]
                == self.ledger.inputs_for(f) by {
                if f < from {
                    assert(self.trace@[f] == before.trace@[f]);
                }
            }
            assert forall|f: int, h: int|
                0 <= f < self.finalized && 0 <= h < self.ledger.num_players() implies #[trigger] self.ledger.settled(
                h,
                f,
            ) by {
                assert(before.ledger.settled(h, f));
            }
            assert(self.core_inv());
            if before.in_sync() {
                assert(self.trace@ =~= before.trace@);
                before.lemma_wf();
                self.lemma_wf();
            }
        }
        true
    }

    /// Simulates the current tick, after going back over every tick that
    /// was simulated on a prediction that has turned out wrong.
    ///
    /// `local_inputs` holds this tick's record of every local participant.
    /// The records take effect `input_delay` ticks from now; until a remote
    /// participant's real input is known, its last known input is repeated.
    /// The call is refused, and nothing changes, where `local_inputs` is not
    /// exactly one record for each local participant, and where one more
    /// tick would take the simulation further ahead of a remote
    /// participant's last real input than the prediction window allows.
    pub fn advance_frame(&mut self, local_inputs: &Vec<LocalInput>) -> (r: Result<TickReport, SyncError>)
        requires
            old(self).wf(),
            old(self).has_room(),
        ensures
            final(self).wf(),
            final(self).step_fn() == old(self).step_fn(),
            final(self).config() == old(self).config(),
            final(self).initial_state() == old(self).initial_state(),
            r is Ok <==> old(self).ledger().covers(local_inputs@) && !old(self).must_stall(),
            r matches Err(e) ==> {
                &&& *final(self) == *old(self)
                &&& e == if !old(self).ledger().covers(local_inputs@) {
                    SyncError::InvalidConfiguration
                } else {
                    SyncError::PredictionWindowExceeded
                }
            },
            r matches Ok(report) ==> {
                &&& final(self).current_frame() == old(self).current_frame() + 1
                &&& final(self).ledger().same_players(&old(self).ledger())
                &&& forall|h: int|
                    0 <= h < old(self).num_players() ==> #[trigger] final(self).ledger().known(h) == if old(
                        self,
                    ).ledger().is_local(h) {
                        old(self).ledger().known(h).push(record_of(local_inputs@, h as usize))
                    } else {
                        old(self).ledger().known(h)
                    }
                &&& forall|h: int|
                    0 <= h < old(self).num_players() ==> #[trigger] final(self).ledger().held(h) == old(
                        self,
                    ).ledger().held(h)
                &&& final(self).in_sync()
                &&& final(self).finalized_frames() == final(self).settled_frames()
                &&& final(self).state() == replay(
                    final(self).step_fn(),
                    final(self).initial_state(),
                    final(self).expected(),
                )
                &&& report.frame == old(self).current_frame()
                &&& report.input_frame == old(self).current_frame() + old(self).input_delay()
                &&& report.inputs@ == final(self).ledger().view_for(old(self).current_frame())
                &&& report.rollback == if first_stale(old(self).trace(), old(self).ledger()) < old(
                    self,
                ).current_frame() {
                    Some(first_stale(old(self).trace(), old(self).ledger()) as Frame)
                } else {
                    None
                }
            },
    {
        let ghost before = *self;
        proof {
            before.lemma_wf();
            self.config.lemma_bounds();
            self.ledger.lemma_bounds();
            self.ledger.lemma_confirmed(self.current as int);
        }
        if !self.ledger.accepts(local_inputs) {
            return Err(SyncError::InvalidConfiguration);
        }
        if self.ledger.is_behind(self.current + 1 - self.config.max_prediction()) {
            return Err(SyncError::PredictionWindowExceeded);
        }
        let frame = self.current;
        let input_frame = frame + self.config.delay();
        self.ledger.submit(local_inputs);
        self.current = frame + 1;
        let ghost learned = self.ledger;
        proof {
            assert forall|h: int| learned.is_local(h) implies (#[trigger] learned.known(h)).len() == self.current
                + self.config.input_delay() by {
                assert(learned.kind(h) == before.ledger.kind(h));
                assert(before.ledger.is_local(h));
                assert(before.ledger.known(h).len() == before.current + before.config.input_delay());
            }
            learned.lemma_confirmed(self.current as int);
            assert(self.current - learned.confirmed(self.current as int) <= self.config.max_prediction_window()) by {
                let confirmed = learned.confirmed(self.current as int);
                if confirmed != self.current {
                    let h = choose|h: int|
                        0 <= h < learned.num_players() && !learned.gone(h) && confirmed == learned.known(h).len()
                            - 1;
                    assert(learned.kind(h) == before.ledger.kind(h));
                    assert(learned.peer(h) == before.ledger.peer(h));
                    if before.ledger.is_local(h) {
                        assert(learned.is_local(h));
                    } else {
                        assert(learned.known(h) == before.ledger.known(h));
                        assert(before.ledger.kind(h) is Remote);
                    }
                }
            }
            Self::lemma_carry(&before, self);
            // what was simulated with which inputs is judged the same before and after the local records
            assert forall|f: int| 0 <= f < before.current implies #[trigger] learned.inputs_for(f)
                == before.ledger.inputs_for(f) by {
                assert forall|h: int| 0 <= h < learned.num_players() implies learned.known(h)
                    == #[trigger] before.ledger.known(h) || (0 <= f < before.ledger.known(h).len()
                    <= learned.known(h).len() && learned.known(h)[f] == before.ledger.known(h)[f]) by {
                    if before.ledger.is_local(h) {
                        assert(before.ledger.known(h).len() == before.current + before.config.input_delay());
                        assert(learned.known(h) == before.ledger.known(h).push(
                            record_of(local_inputs@, h as usize),
                        ));
                    } else {
                        assert(learned.known(h) == before.ledger.known(h));
                    }
                }
                learned.lemma_inputs_kept(&before.ledger, f);
            }
        }
        let first = self.find_stale();
        proof {
            assert forall|f: int| 0 <= f < first implies !stale(before.trace@, before.ledger, f) by {
                assert(self.trace@[f] == learned.inputs_for(f));
            }
            if first < before.current {
                assert(stale(before.trace@, before.ledger, first as int));
            }
            law_first_stale_is_least(before.trace@, before.ledger, first as int);
        }
        let rollback = if first < frame {
            self.rewind(first);
            Some(first)
        } else {
            None
        };
        self.catch_up();
        let inputs = self.ledger.view_at(frame);
        let confirmed_now = self.ledger.confirmed_frame(self.current);
        self.finalized = if confirmed_now < self.current - 1 {
            confirmed_now + 1
        } else {
            self.current
        };
        proof {
            learned.lemma_bounds();
            learned.lemma_confirmed(self.current as int);
            assert forall|f: int| 0 <= f < self.current implies #[trigger] self.trace@[f] == learned.inputs_for(
                f,
            ) by {
                if f < first {
                    assert(self.trace@[f] == before.trace@[f]);
                }
            }
            assert forall|f: int, h: int|
                0 <= f < self.finalized && 0 <= h < learned.num_players() implies #[trigger] learned.settled(
                h,
                f,
            ) by {
                if !learned.gone(h) {
                    assert(learned.confirmed(self.current as int) < learned.known(h).len());
                }
            }
            assert(self.core_inv());
        }
        self.trim();
        proof {
            self.lemma_wf();
            self.ledger.lemma_agrees(&learned);
            assert(self.trace() =~= self.expected());
            assert forall|h: int| 0 <= h < before.num_players() implies #[trigger] self.ledger().known(h)
                == if before.ledger().is_local(h) {
                before.ledger().known(h).push(record_of(local_inputs@, h as usize))
            } else {
                before.ledger().known(h)
            } by {
                assert(self.ledger.known(h) == learned.known(h));
            }
            assert forall|h: int| 0 <= h < self.ledger.num_players() implies self.ledger.kind(h)
                == before.ledger.kind(h) && self.ledger.peer(h) == before.ledger.peer(h) by {
                assert(self.ledger.kind(h) == learned.kind(h));
                assert(self.ledger.peer(h) == learned.peer(h));
            }
            assert forall|h: int| 0 <= h < before.num_players() implies #[trigger] self.ledger().held(h)
                == before.ledger().held(h) by {
                assert(self.ledger.held(h) == learned.held(h));
            }
        }
        Ok(TickReport { frame, input_frame, inputs, rollback })
    }

    /// The next tick to simulate.
    pub fn current(&self) -> (frame: Frame)
        ensures
            frame == self.current_frame(),
    {
        self.current
    }

    /// The confirmed tick, or -1 while there is none.
    pub fn confirmed(&self) -> (frame: Frame)
        requires
            self.wf(),
        ensures
            frame == self.confirmed_frame(),
    {
        self.ledger.confirmed_frame(self.current)
    }

    /// The number of participants.
    pub fn player_count(&self) -> (n: usize)
        ensures
            n == self.num_players(),
    {
        self.ledger.player_count()
    }

    /// How many ticks the simulation may run ahead.
    pub fn max_prediction(&self) -> (window: Frame)
        ensures
            window == self.max_prediction_window(),
    {
        self.config.max_prediction()
    }

    /// By how many ticks local input is held back.
    pub fn delay(&self) -> (delay: Frame)
        ensures
            delay == self.input_delay(),
    {
        self.config.delay()
    }

    /// Ticks per second.
    pub fn tick_rate(&self) -> (fps: usize)
        ensures
            fps == self.config().fps(),
    {
        self.config.tick_rate()
    }

    /// Whether `advance_frame` can still number its tick.
    pub fn room_left(&self) -> (room: bool)
        requires
            self.wf(),
        ensures
            room == self.has_room(),
    {
        proof {
            self.config.lemma_bounds();
        }
        self.current < i32::MAX - self.config.delay()
    }

    /// Where the inputs of `handle` come from, if there is such a participant.
    pub fn player_kind(&self, handle: usize) -> (kind: Option<PlayerKind>)
        requires
            self.wf(),
        ensures
            kind == if handle < self.num_players() {
                Some(self.ledger().kind(handle as int))
            } else {
                None
            },
    {
        if handle < self.ledger.player_count() {
            Some(self.ledger.player_kind(handle))
        } else {
            None
        }
    }

    /// The connection of `handle` as last reported, if there is such a
    /// participant.
    pub fn peer_state(&self, handle: usize) -> (state: Option<PeerState>)
        requires
            self.wf(),
        ensures
            state == if handle < self.num_players() {
                Some(self.ledger().peer(handle as int))
            } else {
                None
            },
    {
        if handle < self.ledger.player_count() {
            Some(self.ledger.peer_state(handle))
        } else {
            None
        }
    }

    /// The handles of the local participants, in ascending order.
    pub fn local_players(&self) -> (handles: Vec<usize>)
        requires
            self.wf(),
        ensures
            forall|h: usize| names(handles@, h) <==> self.ledger().is_local(h as int),
            forall|i: int, j: int| 0 <= i < j < handles@.len() ==> handles@[i] < handles@[j],
    {
        let n = self.ledger.player_count();
        let mut handles: Vec<usize> = Vec::new();
        let mut h: usize = 0;
        while h < n
            invariant
                h <= n,
                n == self.num_players(),
                forall|k: usize| names(handles@, k) <==> k < h && self.ledger().is_local(k as int),
                forall|i: int| 0 <= i < handles@.len() ==> handles@[i] < h,
                forall|i: int, j: int| 0 <= i < j < handles@.len() ==> handles@[i] < handles@[j],
            decreases n - h,
        {
            let ghost before = handles@;
            match self.ledger.player_kind(h) {
                PlayerKind::Local => {
                    handles.push(h);
                    proof {
                        assert forall|k: usize| names(handles@, k) <==> k < h + 1 && self.ledger().is_local(
                            k as int,
                        ) by {
                            if names(handles@, k) {
                                let i = choose|i: int| 0 <= i < handles@.len() && handles@[i] == k;
                                if i < before.len() {
                                    assert(before[i] == k);
                                    assert(names(before, k));
                                }
                            }
                            if k < h && self.ledger().is_local(k as int) {
                                assert(names(before, k));
                                let i = choose|i: int| 0 <= i < before.len() && before[i] == k;
                                assert(handles@[i] == k);
                            }
                            if k == h {
                                assert(handles@[handles@.len() - 1] == k);
                            }
                        }
                    }
                },
                PlayerKind::Remote => {
                    proof {
                        assert forall|k: usize| names(handles@, k) <==> k < h + 1 && self.ledger().is_local(
                            k as int,
                        ) by {
                            if names(handles@, k) {
                                assert(k < h && self.ledger().is_local(k as int));
                            }
                        }
                    }
                },
            }
            h = h + 1;
        }
        handles
    }

    /// The state as it is now, after all ticks simulated so far. Ticks that
    /// were simulated on predictions may still be simulated again.
    pub fn current_state(&self) -> (state: &Vec<u8>)
        requires
            self.wf(),
        ensures
            state@ == self.state(),
    {
        &self.snapshots[self.snapshots.len() - 1]
    }

    /// The state before tick `frame`, if its snapshot is kept.
    pub fn snapshot_at(&self, frame: Frame) -> (snapshot: Option<&Vec<u8>>)
        requires
            self.wf(),
        ensures
            snapshot is Some <==> self.has_snapshot(frame as int),
            snapshot matches Some(bytes) ==> bytes@ == self.snapshot(frame as int),
    {
        if frame < self.base || frame > self.current {
            None
        } else {
            Some(&self.snapshots[(frame - self.base) as usize])
        }
    }

    /// The checksum of the state before tick `frame`, where that state is
    /// kept and final; peers are sent it to compare.
    pub fn checksum_at(&self, frame: Frame) -> (sum: Option<u64>)
        requires
            self.wf(),
        ensures
            sum == if self.is_final(frame as int) {
                Some(digest(self.snapshot(frame as int)))
            } else {
                None
            },
    {
        if frame < self.base || frame > self.finalized {
            None
        } else {
            Some(checksum(&self.snapshots[(frame - self.base) as usize]))
        }
    }

    /// Holds a peer's checksum of the state before tick `frame` against the
    /// local one. `Ok(true)`: they agree. `Ok(false)`: the local state of
    /// that tick is not final yet or no longer kept, so nothing can be
    /// said. An error: the peers have computed different states.
    pub fn compare_checksum(&self, frame: Frame, remote_checksum: u64) -> (r: Result<bool, SyncError>)
        requires
            self.wf(),
        ensures
            r is Err <==> self.is_final(frame as int) && digest(self.snapshot(frame as int))
                != remote_checksum,
            r matches Err(e) ==> e == (SyncError::DesyncDetected {
                frame,
                local_checksum: digest(self.snapshot(frame as int)),
                remote_checksum,
            }),
            r matches Ok(compared) ==> compared == self.is_final(frame as int),
    {
        match self.checksum_at(frame) {
            None => Ok(false),
            Some(local_checksum) => {
                if local_checksum == remote_checksum {
                    Ok(true)
                } else {
                    Err(SyncError::DesyncDetected { frame, local_checksum, remote_checksum })
                }
            },
        }
    }

    /// What `receive` makes of `bytes` that came from the peer controlling
    /// the participants `sender`.
    pub open spec fn receipt(&self, sender: Seq<usize>, bytes: Seq<u8>) -> Result<Receipt, SyncError> {
        match decoded(bytes) {
            None => Ok(Receipt::Dropped),
            Some(Message::Input { handle, frame, input }) => {
                if !names(sender, handle as usize) {
                    Ok(Receipt::Dropped)
                } else {
                    match self.ledger().arrival(handle as usize, frame) {
                        Arrival::Taken => Ok(Receipt::InputTaken),
                        Arrival::Held => Ok(Receipt::InputHeld),
                        Arrival::Dropped => Ok(Receipt::Dropped),
                    }
                }
            },
            Some(Message::Checksum { frame, checksum }) => {
                if !self.is_final(frame as int) {
                    Ok(Receipt::ChecksumUnchecked)
                } else if digest(self.snapshot(frame as int)) == checksum {
                    Ok(Receipt::ChecksumAgreed)
                } else {
                    Err(
                        SyncError::DesyncDetected {
                            frame,
                            local_checksum: digest(self.snapshot(frame as int)),
                            remote_checksum: checksum,
                        },
                    )
                }
            },
        }
    }

    /// Handles one frame that came off the network from the peer that
    /// controls the participants `sender`. Frames may come in any order and
    /// more than once. A frame that is no message is dropped. An input for
    /// one of the sender's participants is taken, held or dropped as
    /// `add_remote_input` says; an input for anybody else is dropped. A
    /// checksum is held against the local state of its tick; a mismatch is
    /// reported as an error and changes nothing.
    pub fn receive(&mut self, sender: &Vec<usize>, bytes: &Vec<u8>) -> (r: Result<Receipt, SyncError>)
        requires
            old(self).wf(),
        ensures
            final(self).wf(),
            r == old(self).receipt(sender@, bytes@),
            !(r matches Ok(Receipt::InputTaken | Receipt::InputHeld)) ==> *final(self) == *old(self),
            final(self).ledger().same_players(&old(self).ledger()),
            final(self).ledger().extends(&old(self).ledger()),
            decoded(bytes@) matches Some(Message::Input { handle, frame, input }) ==> {
                &&& forall|h: int|
                    0 <= h < old(self).num_players() ==> #[trigger] final(self).ledger().known(h) == if r
                        == Ok::<Receipt, SyncError>(Receipt::InputTaken) && h == handle {
                        old(self).ledger().known(h).push(input) + run(after(old(self).ledger().held(h), 1))
                    } else {
                        old(self).ledger().known(h)
                    }
                &&& forall|h: int|
                    0 <= h < old(self).num_players() ==> #[trigger] final(self).ledger().held(h) == if r
                        == Ok::<Receipt, SyncError>(Receipt::InputHeld) && h == handle {
                        stored(old(self).ledger().held(h), frame - old(self).ledger().known(h).len(), input)
                    } else if r == Ok::<Receipt, SyncError>(Receipt::InputTaken) && h == handle {
                        after(
                            old(self).ledger().held(h),
                            1 + run(after(old(self).ledger().held(h), 1)).len() as int,
                        )
                    } else {
                        old(self).ledger().held(h)
                    }
            },
            final(self).step_fn() == old(self).step_fn(),
            final(self).config() == old(self).config(),
            final(self).initial_state() == old(self).initial_state(),
            final(self).current_frame() == old(self).current_frame(),
            final(self).finalized_frames() == old(self).finalized_frames(),
            final(self).trace() == old(self).trace(),
            final(self).state() == old(self).state(),
    {
        proof {
            self.ledger.lemma_extends_self();
        }
        match decode(bytes) {
            None => Ok(Receipt::Dropped),
            Some(Message::Input { handle, frame, input }) => {
                let handle = handle as usize;
                if !is_named(sender, handle) {
                    return Ok(Receipt::Dropped);
                }
                match self.add_remote_input(handle, frame, input) {
                    Arrival::Taken => Ok(Receipt::InputTaken),
                    Arrival::Held => Ok(Receipt::InputHeld),
                    Arrival::Dropped => Ok(Receipt::Dropped),
                }
            },
            Some(Message::Checksum { frame, checksum }) => {
                match self.compare_checksum(frame, checksum) {
                    Err(e) => Err(e),
                    Ok(true) => Ok(Receipt::ChecksumAgreed),
                    Ok(false) => Ok(Receipt::ChecksumUnchecked),
                }
            },
        }
    }

    /// The messages that tell the peers the last `count` inputs of the
    /// local participant `handle`, oldest first, as far as the session
    /// still keeps them. The newest is the input of the last call of
    /// `advance_frame`; sending the ones before it again makes up for
    /// messages that got lost. For anybody but a local participant there is
    /// nothing to send.
    pub fn recent_inputs(&self, handle: usize, count: Frame) -> (messages: Vec<Vec<u8>>)
        requires
            self.wf(),
        ensures
            !self.ledger().is_local(handle as int) || count <= 0 ==> messages@.len() == 0,
            self.ledger().is_local(handle as int) && count > 0 ==> {
                let first = self.resend_from(handle as int, count as int);
                &&& messages@.len() == self.ledger().known(handle as int).len() - first
                &&& forall|i: int|
                    0 <= i < messages@.len() ==> (#[trigger] messages@[i])@ == (Message::Input {
                        handle: handle as u32,
                        frame: (first + i) as Frame,
                        input: self.ledger().known(handle as int)[first + i],
                    }).encoding()
            },
    {
        let mut messages: Vec<Vec<u8>> = Vec::new();
        if count <= 0 || handle >= self.ledger.player_count() {
            return messages;
        }
        match self.ledger.player_kind(handle) {
            PlayerKind::Remote => {
                return messages;
            },
            PlayerKind::Local => {},
        }
        proof {
            self.config.lemma_bounds();
            self.ledger.lemma_bounds();
            assert(self.ledger.is_local(handle as int));
            assert(self.ledger.oldest(handle as int) == self.base);
            assert(self.ledger.known(handle as int).len() == self.current + self.config.input_delay());
        }
        let end = self.ledger.known_len(handle);
        let first: Frame = if end - count > self.base {
            end - count
        } else {
            self.base
        };
        let mut frame = first;
        while frame < end
            invariant
                self.wf(),
                handle < self.ledger.num_players() <= u32::MAX,
                self.ledger.oldest(handle as int) == self.base,
                end == self.ledger.known(handle as int).len(),
                0 <= self.base <= first <= frame <= end,
                messages@.len() == frame - first,
                forall|i: int|
                    0 <= i < messages@.len() ==> (#[trigger] messages@[i])@ == (Message::Input {
                        handle: handle as u32,
                        frame: (first + i) as Frame,
                        input: self.ledger.known(handle as int)[first + i],
                    }).encoding(),
            decreases end - frame,
        {
            let input = self.ledger.input_at(handle, frame);
            let message = Message::Input { handle: handle as u32, frame, input };
            messages.push(encode(&message));
            frame = frame + 1;
        }
        messages
    }

    /// The message that tells the peers the checksum of the newest state
    /// that is final.
    pub fn checksum_message(&self) -> (message: Vec<u8>)
        requires
            self.wf(),
        ensures
            message@ == (Message::Checksum {
                frame: self.finalized_frames() as Frame,
                checksum: digest(self.snapshot(self.finalized_frames())),
            }).encoding(),
    {
        let frame = self.finalized;
        let checksum = checksum(&self.snapshots[(frame - self.base) as usize]);
        encode(&Message::Checksum { frame, checksum })
    }
}

} // verus!
