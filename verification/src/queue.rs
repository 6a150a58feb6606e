//! The inputs known of one participant, tick by tick.

use vstd::prelude::*;
use crate::input::{BoxInput, Frame};

verus! {

/// The input last known of a participant, or the zero record before any.
pub open spec fn last_known(known: Seq<BoxInput>) -> BoxInput {
    if known.len() > 0 {
        known.last()
    } else {
        BoxInput::zero()
    }
}

/// The input to simulate `frame` with: the real one where it is known, a
/// repetition of the last known one otherwise.
pub open spec fn best_input(known: Seq<BoxInput>, frame: int) -> BoxInput {
    if 0 <= frame < known.len() {
        known[frame]
    } else {
        last_known(known)
    }
}

/// How far ahead of the next tick waited for an input may arrive and
/// still be kept until its turn.
pub const REORDER_WINDOW: usize = 128;

/// What became of an input that arrived.
#[derive(Copy, Clone, PartialEq, Eq, Debug, Structural)]
pub enum Arrival {
    /// It was the input of the next tick and is known now.
    Taken,
    /// It is for a later tick and is kept until the ticks before it are known.
    Held,
    /// It is for a tick that is known or kept already, or too far ahead.
    Dropped,
}

/// The inputs at the front of `slots`, as far as none is missing.
pub open spec fn run(slots: Seq<Option<BoxInput>>) -> Seq<BoxInput>
    decreases slots.len(),
{
    if slots.len() > 0 && slots[0] is Some {
        seq![slots[0]->0] + run(slots.subrange(1, slots.len() as int))
    } else {
        Seq::empty()
    }
}

/// `slots` without the first `n`.
pub open spec fn after(slots: Seq<Option<BoxInput>>, n: int) -> Seq<Option<BoxInput>> {
    if 0 <= n <= slots.len() {
        slots.subrange(n, slots.len() as int)
    } else {
        Seq::empty()
    }
}

/// `slots` with `input` in slot `i`, and empty slots up to there if need be.
pub open spec fn stored(slots: Seq<Option<BoxInput>>, i: int, input: BoxInput) -> Seq<Option<BoxInput>> {
    Seq::new(
        if i < slots.len() {
            slots.len()
        } else {
            (i + 1) as nat
        },
        |k: int|
            if k == i {
                Some(input)
            } else if k < slots.len() {
                slots[k]
            } else {
                None
            },
    )
}

/// What becomes of an input that arrives for `frame`, where `known` are the
/// inputs known and `held` those that wait: the input of the next tick is
/// taken; one for a later tick, less than `REORDER_WINDOW` ticks ahead,
/// waits if none waits for that tick yet; any other is dropped.
pub open spec fn arrival_of(known: Seq<BoxInput>, held: Seq<Option<BoxInput>>, frame: Frame) -> Arrival {
    let i = frame - known.len();
    if i < 0 || i >= REORDER_WINDOW || frame == i32::MAX || (i < held.len() && held[i] is Some) {
        Arrival::Dropped
    } else if i == 0 {
        Arrival::Taken
    } else {
        Arrival::Held
    }
}

/// The input on record for tick `frame`, known or waiting, if there is one.
pub open spec fn on_record(known: Seq<BoxInput>, held: Seq<Option<BoxInput>>, frame: int) -> Option<BoxInput> {
    if 0 <= frame < known.len() {
        Some(known[frame])
    } else if known.len() <= frame < known.len() + held.len() {
        held[frame - known.len()]
    } else {
        None
    }
}

/// The run at the front of `slots` holds what the slots hold, and ends at
/// the first empty slot.
pub proof fn lemma_run(slots: Seq<Option<BoxInput>>)
    ensures
        run(slots).len() <= slots.len(),
        forall|k: int| 0 <= k < run(slots).len() ==> slots[k] == Some(#[trigger] run(slots)[k]),
        run(slots).len() < slots.len() ==> slots[run(slots).len() as int] is None,
    decreases slots.len(),
{
    if slots.len() > 0 && slots[0] is Some {
        let rest = slots.subrange(1, slots.len() as int);
        lemma_run(rest);
    }
}

/// Taking the input of the next tick puts it on record for that tick and
/// changes the record of no other tick: what waited is known now or waits
/// on, each input for the tick it arrived for.
pub proof fn law_taking_records_one_tick(
    known: Seq<BoxInput>,
    held: Seq<Option<BoxInput>>,
    input: BoxInput,
    frame: int,
)
    requires
        held.len() > 0 ==> held[0] is None,
    ensures
        on_record(
            known.push(input) + run(after(held, 1)),
            after(held, 1 + run(after(held, 1)).len() as int),
            frame,
        ) == if frame == known.len() {
            Some(input)
        } else {
            on_record(known, held, frame)
        },
{
    let rest = after(held, 1);
    let moved = run(rest);
    lemma_run(rest);
    let known_after = known.push(input) + moved;
    let held_after = after(held, 1 + moved.len() as int);
    if held.len() == 0 {
        assert(moved.len() == 0);
    } else {
        if known.len() < frame < known_after.len() {
            let k = frame - known.len() - 1;
            assert(rest[k] == Some(moved[k]));
            assert(known_after[frame] == moved[k]);
            assert(rest[k] == held[k + 1]);
        } else if known_after.len() <= frame < known.len() + held.len() {
            assert(held_after[frame - known_after.len()] == held[frame - known.len()]);
        }
    }
}

/// Keeping an input for a later tick puts it on record for that tick and
/// changes the record of no other tick.
pub proof fn law_holding_records_one_tick(
    known: Seq<BoxInput>,
    held: Seq<Option<BoxInput>>,
    i: int,
    input: BoxInput,
    frame: int,
)
    requires
        0 < i,
        i < held.len() ==> held[i] is None,
    ensures
        on_record(known, stored(held, i, input), frame) == if frame == known.len() + i {
            Some(input)
        } else {
            on_record(known, held, frame)
        },
{
}

/// A participant's real inputs from tick 0 on. Only a tail of them is held
/// in memory; the view is the whole history. Inputs that arrive ahead of
/// their turn wait in slots, one for each tick from the next one on.
pub struct InputQueue {
    start: Frame,
    tail: Vec<BoxInput>,
    last: BoxInput,
    ahead: Vec<Option<BoxInput>>,
    all: Ghost<Seq<BoxInput>>,
}

impl View for InputQueue {
    type V = Seq<BoxInput>;

    closed spec fn view(&self) -> Seq<BoxInput> {
        self.all@
    }
}

impl InputQueue {
    /// What holds of every queue: the tail in memory is the end of the
    /// history, the slot of the next tick is empty, and no tick lies beyond
    /// the last number.
    pub closed spec fn wf(&self) -> bool {
        &&& 0 <= self.start <= self.all@.len() <= i32::MAX
        &&& self.tail@ == self.all@.subrange(self.start as int, self.all@.len() as int)
        &&& self.last == last_known(self.all@)
        &&& self.ahead@.len() <= REORDER_WINDOW
        &&& self.ahead@.len() > 0 ==> self.ahead@[0] is None
        &&& forall|k: int|
            0 <= k < self.ahead@.len() && (#[trigger] self.ahead@[k]) is Some ==> self.all@.len() + k
                < i32::MAX
    }

    /// The inputs that wait for their turn: slot `k` is for the tick `k`
    /// after the next one known.
    pub closed spec fn held(&self) -> Seq<Option<BoxInput>> {
        self.ahead@
    }

    /// What becomes of an input that arrives for `frame`.
    pub open spec fn arrival(&self, frame: Frame) -> Arrival {
        arrival_of(self@, self.held(), frame)
    }

    /// The first tick whose input is still held.
    pub closed spec fn oldest(&self) -> int {
        self.start as int
    }

    /// The bounds that a queue keeps.
    pub proof fn lemma_bounds(&self)
        requires
            self.wf(),
        ensures
            0 <= self.oldest() <= self@.len() <= i32::MAX,
            self.held().len() <= REORDER_WINDOW,
            self.held().len() > 0 ==> self.held()[0] is None,
    {
    }

    /// The queue of a participant of whom nothing is known.
    pub fn new() -> (q: InputQueue)
        ensures
            q.wf(),
            q@ == Seq::<BoxInput>::empty(),
            q.held() == Seq::<Option<BoxInput>>::empty(),
            q.oldest() == 0,
    {
        let q = InputQueue {
            start: 0,
            tail: Vec::new(),
            last: BoxInput::zeroed(),
            ahead: Vec::new(),
            all: Ghost(Seq::empty()),
        };
        assert(q.tail@ =~= q.all@.subrange(0, 0));
        q
    }

    /// The number of ticks for which the real input is known.
    pub fn len(&self) -> (n: Frame)
        requires
            self.wf(),
        ensures
            n == self@.len(),
    {
        self.start + (self.tail.len() as i32)
    }

    /// Records the real input for the next tick of a participant of whom
    /// nothing waits ahead.
    pub fn push(&mut self, input: BoxInput)
        requires
            old(self).wf(),
            old(self)@.len() < i32::MAX,
            old(self).held().len() == 0,
        ensures
            final(self).wf(),
            final(self)@ == old(self)@.push(input),
            final(self).held() == old(self).held(),
            final(self).oldest() == old(self).oldest(),
    {
        self.tail.push(input);
        self.last = input;
        proof {
            self.all@ = self.all@.push(input);
            assert(self.tail@ =~= self.all@.subrange(self.start as int, self.all@.len() as int));
        }
    }

    /// The input to simulate `frame` with.
    pub fn input_at(&self, frame: Frame) -> (input: BoxInput)
        requires
            self.wf(),
            self.oldest() <= frame,
        ensures
            input == best_input(self@, frame as int),
    {
        if frame < self.len() {
            self.tail[(frame - self.start) as usize]
        } else {
            self.last
        }
    }

    /// Whether the real input for `frame` is known.
    pub fn knows(&self, frame: Frame) -> (known: bool)
        requires
            self.wf(),
        ensures
            known == (0 <= frame < self@.len()),
    {
        0 <= frame && frame < self.len()
    }

    /// Appends `input` to what is known; the slots ahead are not looked at.
    fn append(&mut self, input: BoxInput)
        requires
            old(self).all@.len() < i32::MAX,
            0 <= old(self).start <= old(self).all@.len(),
            old(self).tail@ == old(self).all@.subrange(old(self).start as int, old(self).all@.len() as int),
        ensures
            final(self).all@ == old(self).all@.push(input),
            final(self).start == old(self).start,
            final(self).ahead == old(self).ahead,
            final(self).tail@ == final(self).all@.subrange(final(self).start as int, final(self).all@.len() as int),
            final(self).last == last_known(final(self).all@),
    {
        self.tail.push(input);
        self.last = input;
        proof {
            self.all@ = self.all@.push(input);
        }
    }

    /// What would become of an input for `frame`.
    pub fn would_take(&self, frame: Frame) -> (arrival: Arrival)
        requires
            self.wf(),
        ensures
            arrival == self.arrival(frame),
    {
        let known = self.len();
        if frame < known || frame == i32::MAX {
            return Arrival::Dropped;
        }
        let gap = frame - known;
        if gap >= REORDER_WINDOW as i32 {
            return Arrival::Dropped;
        }
        let i = gap as usize;
        if i == 0 {
            Arrival::Taken
        } else if i < self.ahead.len() && self.ahead[i].is_some() {
            Arrival::Dropped
        } else {
            Arrival::Held
        }
    }

    /// Takes an input that arrived for `frame`. The input of the next tick
    /// becomes known at once, and with it those that waited for it. An
    /// input for a later tick, up to `REORDER_WINDOW` ticks on, waits
    /// until the ticks before it are known. An input for a tick that is
    /// known or waiting already, or further ahead, is dropped.
    pub fn receive(&mut self, frame: Frame, input: BoxInput) -> (arrival: Arrival)
        requires
            old(self).wf(),
        ensures
            final(self).wf(),
            arrival == old(self).arrival(frame),
            final(self).oldest() == old(self).oldest(),
            arrival is Dropped ==> final(self)@ == old(self)@ && final(self).held() == old(self).held(),
            arrival is Held ==> final(self)@ == old(self)@ && final(self).held() == stored(
                old(self).held(),
                frame - old(self)@.len(),
                input,
            ),
            arrival is Taken ==> final(self)@ == old(self)@.push(input) + run(after(old(self).held(), 1))
                && final(self).held() == after(old(self).held(), 1 + run(after(old(self).held(), 1)).len() as int),
    {
        let known = self.len();
        if frame < known || frame == i32::MAX {
            return Arrival::Dropped;
        }
        let gap = frame - known;
        if gap >= REORDER_WINDOW as i32 {
            return Arrival::Dropped;
        }
        let i = gap as usize;
        if i > 0 {
            if i < self.ahead.len() && self.ahead[i].is_some() {
                return Arrival::Dropped;
            }
            let ghost before = self.ahead@;
            while self.ahead.len() <= i
                invariant
                    self.wf(),
                    self.all == old(self).all,
                    self.start == old(self).start,
                    i < REORDER_WINDOW,
                    before.len() <= self.ahead@.len(),
                    self.ahead@.len() <= i + 1 || self.ahead@.len() == before.len(),
                    forall|k: int| 0 <= k < before.len() ==> self.ahead@[k] == before[k],
                    forall|k: int| before.len() <= k < self.ahead@.len() ==> self.ahead@[k] is None,
                decreases i + 1 - self.ahead@.len(),
            {
                self.ahead.push(None);
            }
            self.ahead.set(i, Some(input));
            return Arrival::Held;
        }
        self.append(input);
        if self.ahead.len() > 0 {
            let rest = self.ahead.split_off(1);
            self.ahead = rest;
        }
        let ghost rest = self.ahead@;
        let ghost base = self.all@;
        while self.ahead.len() > 0 && self.ahead[0].is_some()
            invariant
                0 <= self.start <= self.all@.len() <= i32::MAX,
                self.start == old(self).start,
                self.tail@ == self.all@.subrange(self.start as int, self.all@.len() as int),
                self.last == last_known(self.all@),
                self.ahead@.len() <= REORDER_WINDOW,
                forall|k: int|
                    0 <= k < self.ahead@.len() && (#[trigger] self.ahead@[k]) is Some ==> self.all@.len() + k
                        < i32::MAX,
                self.all@ + run(self.ahead@) == base + run(rest),
                self.all@.len() - base.len() + run(self.ahead@).len() == run(rest).len(),
                self.ahead@ == after(rest, self.all@.len() - base.len()),
                self.all@.len() - base.len() <= rest.len(),
            decreases self.ahead@.len(),
        {
            let next = self.ahead[0].unwrap();
            self.append(next);
            let rest_now = self.ahead.split_off(1);
            self.ahead = rest_now;
        }
        Arrival::Taken
    }

    /// Lets go of the inputs for the ticks before `frame`. What is known
    /// stays known; only reading those ticks again is given up.
    pub fn discard_before(&mut self, frame: Frame)
        requires
            old(self).wf(),
        ensures
            final(self).wf(),
            final(self)@ == old(self)@,
            final(self).held() == old(self).held(),
            final(self).oldest() == if frame <= old(self).oldest() {
                old(self).oldest()
            } else if frame <= old(self)@.len() {
                frame as int
            } else {
                old(self)@.len() as int
            },
    {
        let end = self.len();
        let target: Frame = if frame < end { frame } else { end };
        if target > self.start {
            let drop = (target - self.start) as usize;
            let rest = self.tail.split_off(drop);
            self.tail = rest;
            self.start = target;
            proof {
                assert(self.tail@ =~= self.all@.subrange(self.start as int, self.all@.len() as int));
            }
        }
    }
}

} // verus!
