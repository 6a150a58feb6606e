//! Session configuration: who takes part and how far the core may predict.

use vstd::prelude::*;
use crate::input::Frame;

verus! {

/// Where a participant's inputs come from.
#[derive(Copy, Clone, PartialEq, Eq, Debug, Structural)]
pub enum PlayerKind {
    /// Controlled on this device.
    Local,
    /// Controlled on another device; inputs arrive over the network.
    Remote,
}

/// What the transport last reported of a participant's connection.
#[derive(Copy, Clone, PartialEq, Eq, Debug, Structural)]
pub enum PeerState {
    Connecting,
    Connected,
    Disconnected,
}

/// What the core reports to its caller instead of a result.
#[derive(Copy, Clone, PartialEq, Eq, Debug, Structural)]
pub enum SyncError {
    /// A setting, a handle or a set of local inputs that no session can run with.
    InvalidConfiguration,
    /// The local simulation is as far ahead of a remote participant's last
    /// real input as it may go; the caller has to wait for remote input.
    PredictionWindowExceeded,
    /// A peer computed another state for a confirmed tick.
    DesyncDetected { frame: Frame, local_checksum: u64, remote_checksum: u64 },
}

/// Number of participants before any is asked for.
pub const DEFAULT_PLAYERS: usize = 2;

/// Prediction window before any is asked for.
pub const DEFAULT_MAX_PREDICTION_FRAMES: usize = 8;

/// Input delay before any is asked for.
pub const DEFAULT_INPUT_DELAY: usize = 0;

/// Tick rate before any is asked for.
pub const DEFAULT_FPS: usize = 60;

/// Largest count of ticks that a setting may name.
pub const MAX_FRAMES: usize = 0x7fff_ffff;

/// Largest number of participants: every handle fits the four bytes that a
/// message has for it.
pub const MAX_PLAYERS: usize = 0xffff_ffff;

/// Collects the settings of a session step by step.
#[derive(Debug)]
pub struct SessionBuilder {
    max_prediction: usize,
    input_delay: usize,
    fps: usize,
    slots: Vec<Option<PlayerKind>>,
}

/// The settings of a running session. They never change.
#[derive(Debug)]
pub struct SessionConfig {
    kinds: Vec<PlayerKind>,
    max_prediction: Frame,
    input_delay: Frame,
    fps: usize,
}

/// A vector of `n` unoccupied player slots.
fn empty_slots(n: usize) -> (slots: Vec<Option<PlayerKind>>)
    ensures
        slots@ == Seq::new(n as nat, |h: int| None::<PlayerKind>),
{
    let mut slots: Vec<Option<PlayerKind>> = Vec::new();
    let mut h: usize = 0;
    while h < n
        invariant
            h <= n,
            slots@ == Seq::new(h as nat, |k: int| None::<PlayerKind>),
        decreases n - h,
    {
        slots.push(None);
        h = h + 1;
    }
    slots
}

impl SessionBuilder {
    /// What holds of every builder: its window and its tick rate are ones
    /// that a session can have.
    pub closed spec fn wf(&self) -> bool {
        &&& 1 <= self.max_prediction <= MAX_FRAMES
        &&& 1 <= self.fps
    }

    /// The participants registered so far, by handle.
    pub closed spec fn players(&self) -> Seq<Option<PlayerKind>> {
        self.slots@
    }

    /// How many ticks the simulation may run ahead.
    pub closed spec fn max_prediction_window(&self) -> int {
        self.max_prediction as int
    }

    /// By how many ticks local input is held back.
    pub closed spec fn input_delay(&self) -> int {
        self.input_delay as int
    }

    /// Ticks per second.
    pub closed spec fn fps(&self) -> int {
        self.fps as int
    }

    /// The number of participants that the session is to have.
    pub open spec fn num_players(&self) -> int {
        self.players().len() as int
    }

    /// A builder with the default settings and nobody registered.
    pub fn new() -> (b: SessionBuilder)
        ensures
            b.wf(),
            b.players() == Seq::new(DEFAULT_PLAYERS as nat, |h: int| None::<PlayerKind>),
            b.max_prediction_window() == DEFAULT_MAX_PREDICTION_FRAMES,
            b.input_delay() == DEFAULT_INPUT_DELAY,
            b.fps() == DEFAULT_FPS,
    {
        SessionBuilder {
            max_prediction: DEFAULT_MAX_PREDICTION_FRAMES,
            input_delay: DEFAULT_INPUT_DELAY,
            fps: DEFAULT_FPS,
            slots: empty_slots(DEFAULT_PLAYERS),
        }
    }

    /// Sets the number of participants. Whoever was registered before is
    /// forgotten.
    pub fn with_num_players(self, num_players: usize) -> (b: SessionBuilder)
        requires
            self.wf(),
        ensures
            b.wf(),
            b.players() == Seq::new(num_players as nat, |h: int| None::<PlayerKind>),
            b.max_prediction_window() == self.max_prediction_window(),
            b.input_delay() == self.input_delay(),
            b.fps() == self.fps(),
    {
        SessionBuilder {
            max_prediction: self.max_prediction,
            input_delay: self.input_delay,
            fps: self.fps,
            slots: empty_slots(num_players),
        }
    }

    /// Sets how many ticks the simulation may run ahead of the confirmed
    /// tick. A window of no ticks, or of more than `MAX_FRAMES`, is refused.
    pub fn with_max_prediction_window(self, window: usize) -> (r: Result<SessionBuilder, SyncError>)
        requires
            self.wf(),
        ensures
            r is Ok <==> 1 <= window <= MAX_FRAMES,
            r is Err ==> r == Err::<SessionBuilder, SyncError>(SyncError::InvalidConfiguration),
            r matches Ok(b) ==> {
                &&& b.wf()
                &&& b.players() == self.players()
                &&& b.max_prediction_window() == window
                &&& b.input_delay() == self.input_delay()
                &&& b.fps() == self.fps()
            },
    {
        if window == 0 || window > MAX_FRAMES {
            return Err(SyncError::InvalidConfiguration);
        }
        Ok(
            SessionBuilder {
                max_prediction: window,
                input_delay: self.input_delay,
                fps: self.fps,
                slots: self.slots,
            },
        )
    }

    /// Sets by how many ticks a local input is held back before it takes
    /// effect.
    pub fn with_input_delay(self, delay: usize) -> (b: SessionBuilder)
        requires
            self.wf(),
        ensures
            b.wf(),
            b.players() == self.players(),
            b.max_prediction_window() == self.max_prediction_window(),
            b.input_delay() == delay,
            b.fps() == self.fps(),
    {
        SessionBuilder {
            max_prediction: self.max_prediction,
            input_delay: delay,
            fps: self.fps,
            slots: self.slots,
        }
    }

    /// Sets the tick rate. A rate of 0 is refused.
    pub fn with_fps(self, fps: usize) -> (r: Result<SessionBuilder, SyncError>)
        requires
            self.wf(),
        ensures
            r is Ok <==> fps >= 1,
            r is Err ==> r == Err::<SessionBuilder, SyncError>(SyncError::InvalidConfiguration),
            r matches Ok(b) ==> {
                &&& b.wf()
                &&& b.players() == self.players()
                &&& b.max_prediction_window() == self.max_prediction_window()
                &&& b.input_delay() == self.input_delay()
                &&& b.fps() == fps
            },
    {
        if fps == 0 {
            return Err(SyncError::InvalidConfiguration);
        }
        Ok(
            SessionBuilder {
                max_prediction: self.max_prediction,
                input_delay: self.input_delay,
                fps,
                slots: self.slots,
            },
        )
    }

    /// Registers the participant with handle `handle`. A handle that the
    /// session does not have, or that is taken, is refused.
    pub fn add_player(self, kind: PlayerKind, handle: usize) -> (r: Result<SessionBuilder, SyncError>)
        requires
            self.wf(),
        ensures
            r is Ok <==> handle < self.num_players() && self.players()[handle as int] is None,
            r is Err ==> r == Err::<SessionBuilder, SyncError>(SyncError::InvalidConfiguration),
            r matches Ok(b) ==> {
                &&& b.wf()
                &&& b.players() == self.players().update(handle as int, Some(kind))
                &&& b.max_prediction_window() == self.max_prediction_window()
                &&& b.input_delay() == self.input_delay()
                &&& b.fps() == self.fps()
            },
    {
        if handle >= self.slots.len() {
            return Err(SyncError::InvalidConfiguration);
        }
        if self.slots[handle].is_some() {
            return Err(SyncError::InvalidConfiguration);
        }
        let mut slots = self.slots;
        slots.set(handle, Some(kind));
        Ok(
            SessionBuilder {
                max_prediction: self.max_prediction,
                input_delay: self.input_delay,
                fps: self.fps,
                slots,
            },
        )
    }

    /// Whether a session can run with these settings: it has at least one
    /// participant and no more than `MAX_PLAYERS`, every handle is
    /// registered, and the input delay is a count of ticks.
    pub open spec fn complete(&self) -> bool {
        &&& 1 <= self.num_players() <= MAX_PLAYERS
        &&& forall|h: int| 0 <= h < self.num_players() ==> (#[trigger] self.players()[h]) is Some
        &&& self.input_delay() < MAX_FRAMES
    }

    /// Fixes the settings.
    pub fn build(self) -> (r: Result<SessionConfig, SyncError>)
        requires
            self.wf(),
        ensures
            r is Ok <==> self.complete(),
            r is Err ==> r == Err::<SessionConfig, SyncError>(SyncError::InvalidConfiguration),
            r matches Ok(c) ==> {
                &&& c.wf()
                &&& c.kinds().len() == self.num_players()
                &&& forall|h: int|
                    0 <= h < self.num_players() ==> self.players()[h] == Some(#[trigger] c.kinds()[h])
                &&& c.max_prediction_window() == self.max_prediction_window()
                &&& c.input_delay() == self.input_delay()
                &&& c.fps() == self.fps()
            },
    {
        if self.slots.len() == 0 || self.slots.len() > MAX_PLAYERS || self.input_delay >= MAX_FRAMES {
            return Err(SyncError::InvalidConfiguration);
        }
        let mut kinds: Vec<PlayerKind> = Vec::new();
        let mut h: usize = 0;
        while h < self.slots.len()
            invariant
                h <= self.slots@.len(),
                kinds@.len() == h,
                forall|k: int| 0 <= k < h ==> self.slots@[k] == Some(#[trigger] kinds@[k]),
            decreases self.slots@.len() - h,
        {
            match self.slots[h] {
                Some(kind) => {
                    kinds.push(kind);
                },
                None => {
                    return Err(SyncError::InvalidConfiguration);
                },
            }
            h = h + 1;
        }
        proof {
            assert forall|k: int| 0 <= k < self.num_players() implies (#[trigger] self.players()[k]) is Some by {
                assert(self.slots@[k] == Some(kinds@[k]));
            }
        }
        Ok(
            SessionConfig {
                kinds,
                max_prediction: self.max_prediction as i32,
                input_delay: self.input_delay as i32,
                fps: self.fps,
            },
        )
    }
}

impl Clone for SessionConfig {
    fn clone(&self) -> (c: SessionConfig)
        ensures
            c.wf() == self.wf(),
            c.kinds() == self.kinds(),
            c.max_prediction_window() == self.max_prediction_window(),
            c.input_delay() == self.input_delay(),
            c.fps() == self.fps(),
    {
        let mut kinds: Vec<PlayerKind> = Vec::new();
        let mut h: usize = 0;
        while h < self.kinds.len()
            invariant
                h <= self.kinds@.len(),
                kinds@ == self.kinds@.take(h as int),
            decreases self.kinds@.len() - h,
        {
            kinds.push(self.kinds[h]);
            h = h + 1;
        }
        SessionConfig {
            kinds,
            max_prediction: self.max_prediction,
            input_delay: self.input_delay,
            fps: self.fps,
        }
    }
}

impl SessionConfig {
    /// What holds of every configuration: somebody takes part, every handle
    /// fits a message, the window and the tick rate are at least 1, and the
    /// delay is a count of ticks.
    pub closed spec fn wf(&self) -> bool {
        &&& 1 <= self.kinds@.len() <= MAX_PLAYERS
        &&& 1 <= self.max_prediction
        &&& 0 <= self.input_delay < i32::MAX
        &&& 1 <= self.fps
    }

    /// Every participant's kind, by handle.
    pub closed spec fn kinds(&self) -> Seq<PlayerKind> {
        self.kinds@
    }

    /// How many ticks the simulation may run ahead.
    pub closed spec fn max_prediction_window(&self) -> int {
        self.max_prediction as int
    }

    /// By how many ticks local input is held back.
    pub closed spec fn input_delay(&self) -> int {
        self.input_delay as int
    }

    /// Ticks per second.
    pub closed spec fn fps(&self) -> int {
        self.fps as int
    }

    /// The bounds that a configuration keeps.
    pub proof fn lemma_bounds(&self)
        requires
            self.wf(),
        ensures
            1 <= self.kinds().len() <= MAX_PLAYERS,
            1 <= self.max_prediction_window() <= i32::MAX,
            0 <= self.input_delay() < i32::MAX,
            1 <= self.fps(),
    {
    }

    /// The number of participants.
    pub fn num_players(&self) -> (n: usize)
        ensures
            n == self.kinds().len(),
    {
        self.kinds.len()
    }

    /// Where the inputs of `handle` come from, if there is such a participant.
    pub fn player_kind(&self, handle: usize) -> (kind: Option<PlayerKind>)
        ensures
            kind == if handle < self.kinds().len() {
                Some(self.kinds()[handle as int])
            } else {
                None
            },
    {
        if handle < self.kinds.len() {
            Some(self.kinds[handle])
        } else {
            None
        }
    }

    /// How many ticks the simulation may run ahead.
    pub fn max_prediction(&self) -> (w: Frame)
        ensures
            w == self.max_prediction_window(),
    {
        self.max_prediction
    }

    /// By how many ticks local input is held back.
    pub fn delay(&self) -> (d: Frame)
        ensures
            d == self.input_delay(),
    {
        self.input_delay
    }

    /// Ticks per second.
    pub fn tick_rate(&self) -> (fps: usize)
        ensures
            fps == self.fps(),
    {
        self.fps
    }
}

} // verus!
