//! What is known of every participant's inputs, and up to which tick the
//! inputs of all of them are known.

use vstd::prelude::*;
use crate::config::{PeerState, PlayerKind, SessionConfig, SyncError};
use crate::input::{one_each, submitted, BoxInput, Frame, InputStatus, LocalInput, PlayerInput};
use crate::queue::{after, arrival_of, best_input, run, stored, Arrival, InputQueue};

verus! {

/// The input that `records` holds for `handle`.
pub open spec fn record_of(records: Seq<LocalInput>, handle: usize) -> BoxInput {
    records[choose|i: int| 0 <= i < records.len() && (#[trigger] records[i]).handle == handle].input
}

/// Where no participant has two records, the record found for a handle is
/// the record of that handle.
pub proof fn law_record_is_unique(records: Seq<LocalInput>, i: int)
    requires
        one_each(records),
        0 <= i < records.len(),
    ensures
        record_of(records, records[i].handle) == records[i].input,
{
    let h = records[i].handle;
    let c = choose|c: int| 0 <= c < records.len() && (#[trigger] records[c]).handle == h;
    assert(records[i].handle == h);
    if c < i {
        assert(records[c].handle != records[i].handle);
    } else if i < c {
        assert(records[i].handle != records[c].handle);
    }
}

/// `n` zero records.
pub open spec fn blank(n: int) -> Seq<BoxInput> {
    Seq::new(n as nat, |t: int| BoxInput::zero())
}

/// The inputs and the connection of every participant of one session.
pub struct Ledger {
    kinds: Vec<PlayerKind>,
    peers: Vec<PeerState>,
    queues: Vec<InputQueue>,
}

impl Ledger {
    /// The number of participants.
    pub closed spec fn num_players(&self) -> int {
        self.kinds@.len() as int
    }

    /// Where the inputs of `handle` come from.
    pub closed spec fn kind(&self, handle: int) -> PlayerKind {
        self.kinds@[handle]
    }

    /// The connection of `handle`, as last reported.
    pub closed spec fn peer(&self, handle: int) -> PeerState {
        self.peers@[handle]
    }

    /// The real inputs known of `handle`, from tick 0 on.
    pub closed spec fn known(&self, handle: int) -> Seq<BoxInput> {
        self.queues@[handle]@
    }

    /// The inputs of `handle` that arrived ahead of their turn and wait.
    pub closed spec fn held(&self, handle: int) -> Seq<Option<BoxInput>> {
        self.queues@[handle].held()
    }

    /// The first tick of `handle` that can still be read.
    pub closed spec fn oldest(&self, handle: int) -> int {
        self.queues@[handle].oldest()
    }

    /// What holds of every ledger: it has a participant, every queue is in
    /// order, and a local participant is connected and has nothing waiting.
    pub closed spec fn wf(&self) -> bool {
        &&& self.kinds@.len() >= 1
        &&& self.peers@.len() == self.kinds@.len()
        &&& self.queues@.len() == self.kinds@.len()
        &&& forall|h: int| 0 <= h < self.kinds@.len() ==> (#[trigger] self.queues@[h]).wf()
        &&& forall|h: int|
            0 <= h < self.kinds@.len() && (#[trigger] self.kinds@[h]) is Local ==> self.peers@[h] is Connected
                && self.queues@[h].held().len() == 0
    }

    /// `handle` is a participant that is controlled on this device.
    pub open spec fn is_local(&self, handle: int) -> bool {
        0 <= handle < self.num_players() && self.kind(handle) is Local
    }

    /// The participant has left for good.
    pub open spec fn gone(&self, handle: int) -> bool {
        self.peer(handle) is Disconnected
    }

    /// Nothing that can still arrive changes the input of `handle` for `frame`.
    pub open spec fn settled(&self, handle: int, frame: int) -> bool {
        frame < self.known(handle).len() || self.gone(handle)
    }

    /// The input of `handle` to simulate `frame` with.
    pub open spec fn input_for(&self, handle: int, frame: int) -> BoxInput {
        best_input(self.known(handle), frame)
    }

    /// How far the input of `handle` for `frame` can be relied on.
    pub open spec fn status_for(&self, handle: int, frame: int) -> InputStatus {
        if 0 <= frame < self.known(handle).len() {
            InputStatus::Confirmed
        } else if self.gone(handle) {
            InputStatus::Disconnected
        } else {
            InputStatus::Predicted
        }
    }

    /// The inputs of all participants to simulate `frame` with.
    pub open spec fn inputs_for(&self, frame: int) -> Seq<BoxInput> {
        Seq::new(self.num_players() as nat, |h: int| self.input_for(h, frame))
    }

    /// The same with each input's status.
    pub open spec fn view_for(&self, frame: int) -> Seq<PlayerInput> {
        Seq::new(
            self.num_players() as nat,
            |h: int| PlayerInput { input: self.input_for(h, frame), status: self.status_for(h, frame) },
        )
    }

    /// The last tick, not after `cap`, for which the real input of each of
    /// the first `k` participants is known; who has left is not waited for.
    pub open spec fn confirmed_upto(&self, cap: int, k: int) -> int
        decreases k,
    {
        if k <= 0 {
            cap
        } else {
            let rest = self.confirmed_upto(cap, k - 1);
            let last = self.known(k - 1).len() - 1;
            if !self.gone(k - 1) && last < rest {
                last
            } else {
                rest
            }
        }
    }

    /// The last tick, not after `cap`, for which the real input of every
    /// participant still present is known.
    pub open spec fn confirmed(&self, cap: int) -> int {
        self.confirmed_upto(cap, self.num_players())
    }

    /// Exactly one record for each local participant, and none for anyone else.
    pub open spec fn covers(&self, records: Seq<LocalInput>) -> bool {
        &&& one_each(records)
        &&& forall|i: int| 0 <= i < records.len() ==> self.is_local((#[trigger] records[i]).handle as int)
        &&& forall|h: usize| self.is_local(h as int) ==> submitted(records, h)
    }

    /// The real input for `frame` of some remote participant that is still
    /// present is not known.
    pub open spec fn behind(&self, frame: int) -> bool {
        exists|h: int|
            0 <= h < self.num_players() && self.kind(h) is Remote && !self.gone(h) && (
            #[trigger] self.known(h)).len() <= frame
    }

    /// What becomes of an input for `frame` that arrives from `handle`:
    /// nothing, unless `handle` is a remote participant that is present.
    pub open spec fn arrival(&self, handle: usize, frame: Frame) -> Arrival {
        if handle < self.num_players() && self.kind(handle as int) is Remote && !self.gone(handle as int) {
            arrival_of(self.known(handle as int), self.held(handle as int), frame)
        } else {
            Arrival::Dropped
        }
    }

    /// The same participants, with the same connections.
    pub open spec fn same_players(&self, other: &Ledger) -> bool {
        &&& self.num_players() == other.num_players()
        &&& forall|h: int|
            0 <= h < self.num_players() ==> self.kind(h) == other.kind(h) && self.peer(h) == other.peer(h)
    }

    /// The same participants, connections and known inputs.
    pub open spec fn agrees(&self, other: &Ledger) -> bool {
        &&& self.same_players(other)
        &&& forall|h: int| 0 <= h < self.num_players() ==> #[trigger] self.known(h) == other.known(h)
        &&& forall|h: int| 0 <= h < self.num_players() ==> #[trigger] self.held(h) == other.held(h)
    }

    /// Ledgers that agree give the same inputs, statuses and confirmed tick.
    pub proof fn lemma_agrees(&self, other: &Ledger)
        requires
            self.agrees(other),
            self.num_players() >= 0,
        ensures
            forall|f: int| #[trigger] self.inputs_for(f) == other.inputs_for(f),
            forall|f: int| #[trigger] self.view_for(f) == other.view_for(f),
            forall|cap: int| #[trigger] self.confirmed(cap) == other.confirmed(cap),
            forall|h: int, f: int|
                0 <= h < self.num_players() ==> #[trigger] self.settled(h, f) == other.settled(h, f),
    {
        assert forall|cap: int| #[trigger] self.confirmed(cap) == other.confirmed(cap) by {
            self.lemma_confirmed_grows(cap, other, cap);
            other.lemma_confirmed_grows(cap, self, cap);
        }
    }

    /// `self` knows what `earlier` knew, and possibly more: inputs were
    /// added at the end, participants may have left, and whoever had left
    /// sent nothing more.
    pub open spec fn extends(&self, earlier: &Ledger) -> bool {
        &&& self.num_players() == earlier.num_players()
        &&& forall|h: int| 0 <= h < self.num_players() ==> #[trigger] self.kind(h) == earlier.kind(h)
        &&& forall|h: int|
            0 <= h < self.num_players() && #[trigger] earlier.gone(h) ==> self.gone(h) && self.known(h)
                == earlier.known(h)
        &&& forall|h: int|
            0 <= h < self.num_players() ==> (#[trigger] earlier.known(h)).len() <= self.known(h).len()
        &&& forall|h: int, f: int|
            0 <= h < self.num_players() && 0 <= f < earlier.known(h).len() ==> self.known(h)[f]
                == #[trigger] earlier.known(h)[f]
    }

    /// A ledger knows what it knows.
    pub proof fn lemma_extends_self(&self)
        ensures
            self.extends(self),
    {
    }

    /// What agrees with a ledger that knows more knows more as well.
    pub proof fn lemma_extends_after(&self, same: &Ledger, earlier: &Ledger)
        requires
            self.agrees(same),
            same.extends(earlier),
        ensures
            self.extends(earlier),
    {
        assert forall|h: int| 0 <= h < self.num_players() && #[trigger] earlier.gone(h) implies self.gone(h)
            && self.known(h) == earlier.known(h) by {
            assert(self.known(h) == same.known(h));
            assert(self.peer(h) == same.peer(h));
        }
        assert forall|h: int| 0 <= h < self.num_players() implies (#[trigger] earlier.known(h)).len()
            <= self.known(h).len() by {
            assert(self.known(h) == same.known(h));
        }
        assert forall|h: int, f: int|
            0 <= h < self.num_players() && 0 <= f < earlier.known(h).len() implies self.known(h)[f]
            == #[trigger] earlier.known(h)[f] by {
            assert(self.known(h) == same.known(h));
            assert(same.known(h)[f] == earlier.known(h)[f]);
        }
        assert forall|h: int| 0 <= h < self.num_players() implies #[trigger] self.kind(h) == earlier.kind(h) by {
            assert(self.kind(h) == same.kind(h));
        }
    }

    /// Where each participant's known inputs either did not change or
    /// already covered `frame`, the inputs for `frame` did not change.
    pub proof fn lemma_inputs_kept(&self, earlier: &Ledger, frame: int)
        requires
            self.num_players() == earlier.num_players(),
            self.num_players() >= 0,
            forall|h: int|
                0 <= h < self.num_players() ==> self.known(h) == #[trigger] earlier.known(h) || (0 <= frame
                    < earlier.known(h).len() <= self.known(h).len() && self.known(h)[frame]
                    == earlier.known(h)[frame]),
        ensures
            self.inputs_for(frame) == earlier.inputs_for(frame),
    {
    }

    /// The inputs of a tick that was settled stay what they were, and the
    /// tick stays settled.
    pub proof fn lemma_settled_stays(&self, earlier: &Ledger, frame: int)
        requires
            self.extends(earlier),
            self.num_players() >= 0,
            0 <= frame,
            forall|h: int| 0 <= h < earlier.num_players() ==> #[trigger] earlier.settled(h, frame),
        ensures
            self.inputs_for(frame) == earlier.inputs_for(frame),
            forall|h: int| 0 <= h < self.num_players() ==> #[trigger] self.settled(h, frame),
    {
        assert forall|h: int| 0 <= h < self.num_players() implies self.known(h) == #[trigger] earlier.known(h)
            || (0 <= frame < earlier.known(h).len() <= self.known(h).len() && self.known(h)[frame]
            == earlier.known(h)[frame]) by {
            assert(earlier.settled(h, frame));
        }
        assert forall|h: int| 0 <= h < self.num_players() implies #[trigger] self.settled(h, frame) by {
            assert(earlier.settled(h, frame));
        }
    }

    /// The confirmed tick never moves back.
    pub proof fn lemma_extends_confirmed(&self, earlier: &Ledger, cap: int, later_cap: int)
        requires
            self.extends(earlier),
            self.num_players() >= 0,
            cap <= later_cap,
        ensures
            earlier.confirmed(cap) <= self.confirmed(later_cap),
    {
        earlier.lemma_confirmed_grows(cap, self, later_cap);
    }

    /// The bounds that a ledger keeps.
    pub proof fn lemma_bounds(&self)
        requires
            self.wf(),
        ensures
            self.num_players() >= 1,
            forall|h: int|
                #![trigger self.known(h)]
                #![trigger self.oldest(h)]
                0 <= h < self.num_players() ==> 0 <= self.oldest(h) <= self.known(h).len() <= i32::MAX,
            forall|h: int| self.is_local(h) ==> !self.gone(h),
    {
        assert forall|h: int|
            #![trigger self.known(h)]
            #![trigger self.oldest(h)]
            0 <= h < self.num_players() implies 0 <= self.oldest(h) <= self.known(h).len() <= i32::MAX by {
            self.queues@[h].lemma_bounds();
        }
    }

    /// What pins `confirmed_upto` down.
    pub proof fn lemma_confirmed_upto(&self, cap: int, k: int)
        requires
            0 <= k,
        ensures
            self.confirmed_upto(cap, k) <= cap,
            forall|h: int| 0 <= h < k && !self.gone(h) ==> self.confirmed_upto(cap, k) < self.known(h).len(),
            self.confirmed_upto(cap, k) == cap || exists|h: int|
                0 <= h < k && !self.gone(h) && self.confirmed_upto(cap, k) == self.known(h).len() - 1,
        decreases k,
    {
        if k > 0 {
            self.lemma_confirmed_upto(cap, k - 1);
            let rest = self.confirmed_upto(cap, k - 1);
            let r = self.confirmed_upto(cap, k);
            if r != cap {
                if r == rest {
                    let h = choose|h: int|
                        0 <= h < k - 1 && !self.gone(h) && rest == self.known(h).len() - 1;
                    assert(0 <= h < k && !self.gone(h) && r == self.known(h).len() - 1);
                } else {
                    assert(!self.gone(k - 1) && r == self.known(k - 1).len() - 1);
                }
            }
        }
    }

    /// The confirmed tick is the last tick up to `cap` whose inputs are all
    /// known, of everyone who is still present.
    pub proof fn lemma_confirmed(&self, cap: int)
        requires
            self.num_players() >= 0,
        ensures
            self.confirmed(cap) <= cap,
            forall|h: int|
                0 <= h < self.num_players() && !self.gone(h) ==> self.confirmed(cap) < self.known(h).len(),
            self.confirmed(cap) == cap || exists|h: int|
                0 <= h < self.num_players() && !self.gone(h) && self.confirmed(cap) == self.known(h).len()
                    - 1,
    {
        self.lemma_confirmed_upto(cap, self.num_players());
    }

    /// More known input, fewer participants present or a later cap never
    /// move the confirmed tick back.
    pub proof fn lemma_confirmed_grows(&self, cap: int, later: &Ledger, later_cap: int)
        requires
            self.num_players() == later.num_players(),
            self.num_players() >= 0,
            cap <= later_cap,
            forall|h: int|
                0 <= h < self.num_players() ==> {
                    &&& self.gone(h) ==> later.gone(h)
                    &&& self.known(h).len() <= later.known(h).len()
                },
        ensures
            self.confirmed(cap) <= later.confirmed(later_cap),
    {
        self.lemma_confirmed(cap);
        later.lemma_confirmed(later_cap);
    }

    /// The ledger of a session that has not run yet. The ticks that the
    /// input delay covers hold the zero record for everyone.
    pub fn new(config: &SessionConfig) -> (ledger: Ledger)
        requires
            config.wf(),
        ensures
            ledger.wf(),
            ledger.num_players() == config.kinds().len(),
            forall|h: int| 0 <= h < ledger.num_players() ==> #[trigger] ledger.kind(h) == config.kinds()[h],
            forall|h: int|
                0 <= h < ledger.num_players() ==> #[trigger] ledger.peer(h) == if config.kinds()[h] is Local {
                    PeerState::Connected
                } else {
                    PeerState::Connecting
                },
            forall|h: int|
                0 <= h < ledger.num_players() ==> #[trigger] ledger.known(h) == blank(config.input_delay()),
            forall|h: int| 0 <= h < ledger.num_players() ==> #[trigger] ledger.oldest(h) == 0,
            forall|h: int| 0 <= h < ledger.num_players() ==> (#[trigger] ledger.held(h)).len() == 0,
    {
        proof {
            config.lemma_bounds();
        }
        let n = config.num_players();
        let delay = config.delay();
        let mut kinds: Vec<PlayerKind> = Vec::new();
        let mut peers: Vec<PeerState> = Vec::new();
        let mut queues: Vec<InputQueue> = Vec::new();
        let mut h: usize = 0;
        while h < n
            invariant
                h <= n,
                n == config.kinds().len(),
                delay == config.input_delay(),
                0 <= delay < i32::MAX,
                kinds@.len() == h,
                peers@.len() == h,
                queues@.len() == h,
                forall|k: int| 0 <= k < h ==> #[trigger] kinds@[k] == config.kinds()[k],
                forall|k: int|
                    0 <= k < h ==> #[trigger] peers@[k] == if config.kinds()[k] is Local {
                        PeerState::Connected
                    } else {
                        PeerState::Connecting
                    },
                forall|k: int|
                    0 <= k < h ==> {
                        &&& (#[trigger] queues@[k]).wf()
                        &&& queues@[k]@ == blank(delay as int)
                        &&& queues@[k].oldest() == 0
                        &&& queues@[k].held().len() == 0
                    },
            decreases n - h,
        {
            let kind = match config.player_kind(h) {
                Some(kind) => kind,
                None => PlayerKind::Remote,
            };
            let mut queue = InputQueue::new();
            let mut t: Frame = 0;
            while t < delay
                invariant
                    0 <= t <= delay < i32::MAX,
                    queue.wf(),
                    queue.oldest() == 0,
                    queue.held().len() == 0,
                    queue@ == blank(t as int),
                decreases delay - t,
            {
                queue.push(BoxInput::zeroed());
                t = t + 1;
            }
            kinds.push(kind);
            peers.push(
                match kind {
                    PlayerKind::Local => PeerState::Connected,
                    PlayerKind::Remote => PeerState::Connecting,
                },
            );
            queues.push(queue);
            h = h + 1;
        }
        Ledger { kinds, peers, queues }
    }

    /// The number of participants.
    pub fn player_count(&self) -> (n: usize)
        ensures
            n == self.num_players(),
    {
        self.kinds.len()
    }

    /// Where the inputs of `handle` come from.
    pub fn player_kind(&self, handle: usize) -> (kind: PlayerKind)
        requires
            handle < self.num_players(),
        ensures
            kind == self.kind(handle as int),
    {
        self.kinds[handle]
    }

    /// The connection of `handle`, as last reported.
    pub fn peer_state(&self, handle: usize) -> (state: PeerState)
        requires
            self.wf(),
            handle < self.num_players(),
        ensures
            state == self.peer(handle as int),
    {
        self.peers[handle]
    }

    /// The number of ticks for which the real input of `handle` is known.
    pub fn known_len(&self, handle: usize) -> (n: Frame)
        requires
            self.wf(),
            handle < self.num_players(),
        ensures
            n == self.known(handle as int).len(),
    {
        self.queues[handle].len()
    }

    /// Whether `records` holds what the local participants owe for a tick.
    pub fn accepts(&self, records: &Vec<LocalInput>) -> (ok: bool)
        requires
            self.wf(),
        ensures
            ok == self.covers(records@),
    {
        let n = self.kinds.len();
        let mut seen: Vec<bool> = Vec::new();
        let mut h: usize = 0;
        while h < n
            invariant
                h <= n,
                seen@.len() == h,
                forall|k: int| 0 <= k < h ==> !seen@[k],
            decreases n - h,
        {
            seen.push(false);
            h = h + 1;
        }
        let mut i: usize = 0;
        while i < records.len()
            invariant
                i <= records@.len(),
                n == self.kinds@.len(),
                seen@.len() == n,
                forall|k: int|
                    0 <= k < n ==> (seen@[k] <==> exists|j: int|
                        0 <= j < i && (#[trigger] records@[j]).handle == k),
                forall|a: int, b: int|
                    0 <= a < b < i ==> (#[trigger] records@[a]).handle != (#[trigger] records@[b]).handle,
                forall|j: int| 0 <= j < i ==> self.is_local((#[trigger] records@[j]).handle as int),
            decreases records@.len() - i,
        {
            let handle = records[i].handle;
            if handle >= n {
                return false;
            }
            match self.kinds[handle] {
                PlayerKind::Local => {},
                PlayerKind::Remote => {
                    return false;
                },
            }
            if seen[handle] {
                return false;
            }
            seen.set(handle, true);
            i = i + 1;
        }
        let mut h: usize = 0;
        while h < n
            invariant
                h <= n,
                n == self.kinds@.len(),
                seen@.len() == n,
                forall|k: int|
                    0 <= k < n ==> (seen@[k] <==> exists|j: int|
                        0 <= j < records@.len() && (#[trigger] records@[j]).handle == k),
                forall|k: int| 0 <= k < h && self.is_local(k) ==> seen@[k],
            decreases n - h,
        {
            match self.kinds[h] {
                PlayerKind::Local => {
                    if !seen[h] {
                        assert(self.is_local(h as int));
                        return false;
                    }
                },
                PlayerKind::Remote => {},
            }
            h = h + 1;
        }
        true
    }

    /// Records what the local participants submit for their next tick.
    pub fn submit(&mut self, records: &Vec<LocalInput>)
        requires
            old(self).wf(),
            old(self).covers(records@),
            forall|h: int| old(self).is_local(h) ==> old(self).known(h).len() < i32::MAX,
        ensures
            final(self).wf(),
            final(self).same_players(old(self)),
            final(self).extends(old(self)),
            forall|h: int| 0 <= h < old(self).num_players() ==> #[trigger] final(self).oldest(h) == old(self).oldest(h),
            forall|h: int| 0 <= h < old(self).num_players() ==> #[trigger] final(self).held(h) == old(self).held(h),
            forall|h: int|
                0 <= h < old(self).num_players() ==> #[trigger] final(self).known(h) == if old(self).is_local(h) {
                    old(self).known(h).push(record_of(records@, h as usize))
                } else {
                    old(self).known(h)
                },
    {
        let ghost before = *self;
        let n = self.kinds.len();
        let mut i: usize = 0;
        while i < records.len()
            invariant
                i <= records@.len(),
                n == before.num_players(),
                before.wf(),
                before.covers(records@),
                forall|h: int| before.is_local(h) ==> before.known(h).len() < i32::MAX,
                self.wf(),
                self.kinds == before.kinds,
                self.peers == before.peers,
                forall|h: int| 0 <= h < n ==> #[trigger] self.oldest(h) == before.oldest(h),
                forall|h: int| 0 <= h < n ==> #[trigger] self.held(h) == before.held(h),
                forall|h: int|
                    0 <= h < n ==> #[trigger] self.known(h) == if exists|j: int|
                        0 <= j < i && (#[trigger] records@[j]).handle == h {
                        before.known(h).push(record_of(records@, h as usize))
                    } else {
                        before.known(h)
                    },
            decreases records@.len() - i,
        {
            let record = records[i];
            let ghost mid = *self;
            proof {
                assert(self.known(record.handle as int) == before.known(record.handle as int));
            }
            self.queues[record.handle].push(record.input);
            proof {
                assert forall|h: int| 0 <= h < n implies #[trigger] self.held(h) == before.held(h) by {
                    assert(mid.held(h) == before.held(h));
                }
                assert forall|h: int| 0 <= h < n implies #[trigger] self.oldest(h) == before.oldest(h) by {
                    assert(mid.oldest(h) == before.oldest(h));
                }
                assert forall|h: int| 0 <= h < n implies #[trigger] self.known(h) == if exists|j: int|
                    0 <= j < i + 1 && (#[trigger] records@[j]).handle == h {
                    before.known(h).push(record_of(records@, h as usize))
                } else {
                    before.known(h)
                } by {
                    assert(mid.known(h) == if exists|j: int|
                        0 <= j < i && (#[trigger] records@[j]).handle == h {
                        before.known(h).push(record_of(records@, h as usize))
                    } else {
                        before.known(h)
                    });
                }
            }
            i = i + 1;
        }
    }

    /// What would become of an input for `frame` from `handle`.
    pub fn would_take(&self, handle: usize, frame: Frame) -> (arrival: Arrival)
        requires
            self.wf(),
        ensures
            arrival == self.arrival(handle, frame),
    {
        if handle >= self.kinds.len() {
            return Arrival::Dropped;
        }
        match self.kinds[handle] {
            PlayerKind::Local => {
                return Arrival::Dropped;
            },
            PlayerKind::Remote => {},
        }
        match self.peers[handle] {
            PeerState::Disconnected => {
                return Arrival::Dropped;
            },
            _ => {},
        }
        self.queues[handle].would_take(frame)
    }

    /// Takes the input of a remote participant for `frame` as it arrives.
    /// Inputs may arrive in any order and more than once: the one for the
    /// next tick becomes known, together with those that waited for it; one
    /// for a later tick waits; a duplicate, one too far ahead, and one from
    /// a participant that is local, unknown or has left is dropped.
    pub fn receive(&mut self, handle: usize, frame: Frame, input: BoxInput) -> (arrival: Arrival)
        requires
            old(self).wf(),
        ensures
            final(self).wf(),
            arrival == old(self).arrival(handle, frame),
            final(self).same_players(old(self)),
            final(self).extends(old(self)),
            forall|h: int| 0 <= h < old(self).num_players() ==> #[trigger] final(self).oldest(h) == old(self).oldest(h),
            forall|h: int|
                0 <= h < old(self).num_players() ==> #[trigger] final(self).known(h) == if arrival is Taken
                    && h == handle {
                    old(self).known(h).push(input) + run(after(old(self).held(h), 1))
                } else {
                    old(self).known(h)
                },
            forall|h: int|
                0 <= h < old(self).num_players() ==> #[trigger] final(self).held(h) == if h != handle
                    || arrival is Dropped {
                    old(self).held(h)
                } else if arrival is Held {
                    stored(old(self).held(h), frame - old(self).known(h).len(), input)
                } else {
                    after(old(self).held(h), 1 + run(after(old(self).held(h), 1)).len() as int)
                },
    {
        if handle >= self.kinds.len() {
            return Arrival::Dropped;
        }
        match self.kinds[handle] {
            PlayerKind::Local => {
                return Arrival::Dropped;
            },
            PlayerKind::Remote => {},
        }
        match self.peers[handle] {
            PeerState::Disconnected => {
                return Arrival::Dropped;
            },
            _ => {},
        }
        let arrival = self.queues[handle].receive(frame, input);
        arrival
    }

    /// Notes what the transport reports of a remote participant. Whoever has
    /// left stays away: a local participant, an unknown handle and a
    /// participant that has left are refused.
    pub fn set_peer_state(&mut self, handle: usize, state: PeerState) -> (r: Result<(), SyncError>)
        requires
            old(self).wf(),
        ensures
            final(self).wf(),
            r is Ok <==> handle < old(self).num_players() && old(self).kind(handle as int) is Remote && !old(
                self,
            ).gone(handle as int),
            r is Err ==> r == Err::<(), SyncError>(SyncError::InvalidConfiguration) && *final(self) == *old(
                self,
            ),
            final(self).num_players() == old(self).num_players(),
            final(self).extends(old(self)),
            forall|h: int| 0 <= h < old(self).num_players() ==> #[trigger] final(self).kind(h) == old(self).kind(h),
            forall|h: int| 0 <= h < old(self).num_players() ==> #[trigger] final(self).oldest(h) == old(self).oldest(h),
            forall|h: int| 0 <= h < old(self).num_players() ==> #[trigger] final(self).known(h) == old(self).known(h),
            forall|h: int| 0 <= h < old(self).num_players() ==> #[trigger] final(self).held(h) == old(self).held(h),
            forall|h: int|
                0 <= h < old(self).num_players() ==> #[trigger] final(self).peer(h) == if r is Ok && h
                    == handle {
                    state
                } else {
                    old(self).peer(h)
                },
    {
        if handle >= self.kinds.len() {
            return Err(SyncError::InvalidConfiguration);
        }
        match self.kinds[handle] {
            PlayerKind::Local => {
                return Err(SyncError::InvalidConfiguration);
            },
            PlayerKind::Remote => {},
        }
        match self.peers[handle] {
            PeerState::Disconnected => {
                return Err(SyncError::InvalidConfiguration);
            },
            _ => {},
        }
        self.peers.set(handle, state);
        Ok(())
    }

    /// Whether a remote participant that is still present has yet to send
    /// its input for `frame`.
    pub fn is_behind(&self, frame: Frame) -> (behind: bool)
        requires
            self.wf(),
        ensures
            behind == self.behind(frame as int),
    {
        let n = self.kinds.len();
        let mut h: usize = 0;
        while h < n
            invariant
                h <= n,
                n == self.num_players(),
                self.wf(),
                forall|k: int|
                    0 <= k < h ==> !(self.kind(k) is Remote && !self.gone(k) && (#[trigger] self.known(k)).len()
                        <= frame),
            decreases n - h,
        {
            let remote = match self.kinds[h] {
                PlayerKind::Remote => true,
                PlayerKind::Local => false,
            };
            let gone = match self.peers[h] {
                PeerState::Disconnected => true,
                _ => false,
            };
            if remote && !gone && self.queues[h].len() <= frame {
                assert(self.known(h as int).len() <= frame);
                return true;
            }
            h = h + 1;
        }
        false
    }

    /// The confirmed tick, not after `cap`.
    pub fn confirmed_frame(&self, cap: Frame) -> (frame: Frame)
        requires
            self.wf(),
            cap >= -1,
        ensures
            frame == self.confirmed(cap as int),
            -1 <= frame <= cap,
    {
        let n = self.kinds.len();
        let mut frame = cap;
        let mut h: usize = 0;
        while h < n
            invariant
                h <= n,
                n == self.num_players(),
                self.wf(),
                frame == self.confirmed_upto(cap as int, h as int),
                -1 <= frame <= cap,
            decreases n - h,
        {
            let gone = match self.peers[h] {
                PeerState::Disconnected => true,
                _ => false,
            };
            let len = self.queues[h].len();
            if !gone && len - 1 < frame {
                frame = len - 1;
            }
            h = h + 1;
        }
        frame
    }

    /// The input of `handle` to simulate `frame` with.
    pub fn input_at(&self, handle: usize, frame: Frame) -> (input: BoxInput)
        requires
            self.wf(),
            handle < self.num_players(),
            self.oldest(handle as int) <= frame,
        ensures
            input == self.input_for(handle as int, frame as int),
    {
        self.queues[handle].input_at(frame)
    }

    /// The inputs of all participants to simulate `frame` with.
    pub fn inputs_at(&self, frame: Frame) -> (inputs: Vec<BoxInput>)
        requires
            self.wf(),
            forall|h: int| 0 <= h < self.num_players() ==> self.oldest(h) <= frame,
        ensures
            inputs@ == self.inputs_for(frame as int),
    {
        let n = self.kinds.len();
        let mut inputs: Vec<BoxInput> = Vec::new();
        let mut h: usize = 0;
        while h < n
            invariant
                h <= n,
                n == self.num_players(),
                self.wf(),
                forall|k: int| 0 <= k < self.num_players() ==> self.oldest(k) <= frame,
                inputs@.len() == h,
                forall|k: int| 0 <= k < h ==> inputs@[k] == self.input_for(k, frame as int),
            decreases n - h,
        {
            assert(self.oldest(h as int) <= frame);
            inputs.push(self.queues[h].input_at(frame));
            h = h + 1;
        }
        inputs
    }

    /// The inputs of all participants for `frame`, each with its status.
    pub fn view_at(&self, frame: Frame) -> (view: Vec<PlayerInput>)
        requires
            self.wf(),
            forall|h: int| 0 <= h < self.num_players() ==> self.oldest(h) <= frame,
        ensures
            view@ == self.view_for(frame as int),
    {
        let n = self.kinds.len();
        let mut view: Vec<PlayerInput> = Vec::new();
        let mut h: usize = 0;
        while h < n
            invariant
                h <= n,
                n == self.num_players(),
                self.wf(),
                forall|k: int| 0 <= k < self.num_players() ==> self.oldest(k) <= frame,
                view@.len() == h,
                forall|k: int|
                    0 <= k < h ==> view@[k] == (PlayerInput {
                        input: self.input_for(k, frame as int),
                        status: self.status_for(k, frame as int),
                    }),
            decreases n - h,
        {
            assert(self.oldest(h as int) <= frame);
            let input = self.queues[h].input_at(frame);
            let status = if self.queues[h].knows(frame) {
                InputStatus::Confirmed
            } else {
                match self.peers[h] {
                    PeerState::Disconnected => InputStatus::Disconnected,
                    _ => InputStatus::Predicted,
                }
            };
            view.push(PlayerInput { input, status });
            h = h + 1;
        }
        view
    }

    /// Lets go of every participant's inputs for the ticks before `frame`.
    pub fn discard_before(&mut self, frame: Frame)
        requires
            old(self).wf(),
        ensures
            final(self).wf(),
            final(self).same_players(old(self)),
            forall|h: int| 0 <= h < old(self).num_players() ==> #[trigger] final(self).known(h) == old(self).known(h),
            forall|h: int| 0 <= h < old(self).num_players() ==> #[trigger] final(self).held(h) == old(self).held(h),
            forall|h: int|
                0 <= h < old(self).num_players() ==> #[trigger] final(self).oldest(h) == if frame <= old(
                    self,
                ).oldest(h) {
                    old(self).oldest(h)
                } else if frame <= old(self).known(h).len() {
                    frame as int
                } else {
                    old(self).known(h).len() as int
                },
    {
        let ghost before = *self;
        let n = self.queues.len();
        let mut h: usize = 0;
        while h < n
            invariant
                h <= n,
                n == before.num_players(),
                before.wf(),
                self.wf(),
                self.kinds == before.kinds,
                self.peers == before.peers,
                forall|k: int| 0 <= k < n ==> #[trigger] self.known(k) == before.known(k),
                forall|k: int| 0 <= k < n ==> #[trigger] self.held(k) == before.held(k),
                forall|k: int|
                    0 <= k < n ==> #[trigger] self.oldest(k) == if frame <= before.oldest(k) || k >= h {
                        before.oldest(k)
                    } else if frame <= before.known(k).len() {
                        frame as int
                    } else {
                        before.known(k).len() as int
                    },
            decreases n - h,
        {
            let ghost mid = *self;
            self.queues[h].discard_before(frame);
            proof {
                assert forall|k: int| 0 <= k < n implies #[trigger] self.known(k) == before.known(k) by {
                    assert(mid.known(k) == before.known(k));
                }
                assert forall|k: int| 0 <= k < n implies #[trigger] self.held(k) == before.held(k) by {
                    assert(mid.held(k) == before.held(k));
                }
                assert forall|k: int| 0 <= k < n implies #[trigger] self.oldest(k) == if frame
                    <= before.oldest(k) || k >= h + 1 {
                    before.oldest(k)
                } else if frame <= before.known(k).len() {
                    frame as int
                } else {
                    before.known(k).len() as int
                } by {
                    assert(mid.oldest(k) == if frame <= before.oldest(k) || k >= h {
                        before.oldest(k)
                    } else if frame <= before.known(k).len() {
                        frame as int
                    } else {
                        before.known(k).len() as int
                    });
                    assert(mid.known(k) == before.known(k));
                    if k == h {
                        mid.queues@[k].lemma_bounds();
                    }
                }
            }
            h = h + 1;
        }
    }
}

} // verus!
