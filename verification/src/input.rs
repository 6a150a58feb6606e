//! Input records, their capture once per tick, and what a paddle makes of them.

use vstd::prelude::*;

verus! {

/// A tick of the simulation, counted from 0.
pub type Frame = i32;

/// Stands for "no tick".
pub const NULL_FRAME: Frame = -1;

/// Distance of the far wall from the near one, in world units.
pub const DEPTH: u32 = 800;

/// Depth layer of the paddle that the local participant controls.
pub const Z_OWN_PADDLE: i8 = 1;

/// Depth layer of every other paddle.
pub const Z_OTHER_PADDLE: i8 = -1;

/// One participant's action for one tick: the pointer position in
/// thousandths of a world unit. Two records are the same input exactly
/// when both fields agree.
#[derive(Copy, Clone, PartialEq, Eq, Debug, Structural)]
pub struct BoxInput {
    pub inp: i64,
    pub inp2: i64,
}

/// How far an input handed to the simulation can be relied on.
#[derive(Copy, Clone, PartialEq, Eq, Debug, Structural)]
pub enum InputStatus {
    /// The participant's real input for the tick.
    Confirmed,
    /// A repetition of the participant's last known input.
    Predicted,
    /// The participant has left; the last known input stands for good.
    Disconnected,
}

/// One participant's entry in the view of inputs for one tick.
#[derive(Copy, Clone, PartialEq, Eq, Debug, Structural)]
pub struct PlayerInput {
    pub input: BoxInput,
    pub status: InputStatus,
}

/// The record that a locally controlled participant submits for the tick.
#[derive(Copy, Clone, PartialEq, Eq, Debug, Structural)]
pub struct LocalInput {
    pub handle: usize,
    pub input: BoxInput,
}

/// A paddle and the participant that moves it.
#[derive(Copy, Clone, PartialEq, Eq, Debug, Default, Structural)]
pub struct Paddle {
    pub handle: usize,
}

/// Where a paddle stands before perspective is applied.
#[derive(Copy, Clone, PartialEq, Eq, Debug, Structural)]
pub struct PaddlePose {
    /// Whether a local participant moves this paddle.
    pub is_self: bool,
    /// Distance from the viewer: 0 for an own paddle, `DEPTH` for another.
    pub depth: u32,
    /// Horizontal position in thousandths of a world unit.
    pub x: i64,
    /// Vertical position in thousandths of a world unit.
    pub y: i64,
    /// Drawing layer.
    pub layer: i8,
}

impl BoxInput {
    /// The record of a tick on which nothing was observed.
    pub open spec fn zero() -> BoxInput {
        BoxInput { inp: 0, inp2: 0 }
    }

    /// The record for a pointer seen at `position`, or the zero record.
    pub open spec fn sample(position: Option<(i64, i64)>) -> BoxInput {
        match position {
            Some(p) => BoxInput { inp: p.0, inp2: p.1 },
            None => Self::zero(),
        }
    }

    /// The zero record.
    pub fn zeroed() -> (r: BoxInput)
        ensures
            r == Self::zero(),
    {
        BoxInput { inp: 0, inp2: 0 }
    }

    /// The record for a pointer seen at `position`, or the zero record.
    pub fn from_position(position: Option<(i64, i64)>) -> (r: BoxInput)
        ensures
            r == Self::sample(position),
    {
        match position {
            Some(p) => BoxInput { inp: p.0, inp2: p.1 },
            None => BoxInput { inp: 0, inp2: 0 },
        }
    }
}

/// Whether `handles` names `handle`.
pub open spec fn names(handles: Seq<usize>, handle: usize) -> bool {
    exists|i: int| 0 <= i < handles.len() && handles[i] == handle
}

/// Whether `records` holds an entry for `handle`.
pub open spec fn submitted(records: Seq<LocalInput>, handle: usize) -> bool {
    exists|i: int| 0 <= i < records.len() && (#[trigger] records[i]).handle == handle
}

/// No two entries of `records` are for the same participant.
pub open spec fn one_each(records: Seq<LocalInput>) -> bool {
    forall|i: int, j: int|
        0 <= i < j < records.len() ==> (#[trigger] records[i]).handle != (#[trigger] records[j]).handle
}

fn has_record(records: &Vec<LocalInput>, handle: usize) -> (found: bool)
    ensures
        found == submitted(records@, handle),
{
    let mut i: usize = 0;
    while i < records.len()
        invariant
            i <= records@.len(),
            forall|k: int| 0 <= k < i ==> (#[trigger] records@[k]).handle != handle,
        decreases records@.len() - i,
    {
        if records[i].handle == handle {
            return true;
        }
        i = i + 1;
    }
    false
}

/// Samples the local participants' input for one tick.
///
/// Every handle in `local_players` gets exactly one record: the pointer's
/// world position in thousandths of a unit where one was observed, the zero
/// record otherwise. Nothing else is read or changed.
pub fn my_cursor_system(local_players: &Vec<usize>, world_position: Option<(i64, i64)>) -> (local_inputs:
    Vec<LocalInput>)
    ensures
        one_each(local_inputs@),
        forall|h: usize|
            #![trigger names(local_players@, h)]
            #![trigger submitted(local_inputs@, h)]
            names(local_players@, h) <==> submitted(local_inputs@, h),
        forall|i: int|
            0 <= i < local_inputs@.len() ==> (#[trigger] local_inputs@[i]).input == BoxInput::sample(
                world_position,
            ),
{
    let record = BoxInput::from_position(world_position);
    let mut out: Vec<LocalInput> = Vec::new();
    let mut k: usize = 0;
    while k < local_players.len()
        invariant
            k <= local_players@.len(),
            record == BoxInput::sample(world_position),
            one_each(out@),
            forall|h: usize|
                #![trigger names(local_players@.take(k as int), h)]
                #![trigger submitted(out@, h)]
                names(local_players@.take(k as int), h) <==> submitted(out@, h),
            forall|i: int| 0 <= i < out@.len() ==> (#[trigger] out@[i]).input == record,
        decreases local_players@.len() - k,
    {
        let handle = local_players[k];
        let ghost before = out@;
        let ghost prefix = local_players@.take(k as int);
        let ghost next = local_players@.take(k + 1);
        let present = has_record(&out, handle);
        if !present {
            out.push(LocalInput { handle, input: record });
        }
        proof {
            assert forall|h: usize| names(next, h) <==> submitted(out@, h) by {
                if names(next, h) {
                    let i = choose|i: int| 0 <= i < next.len() && next[i] == h;
                    if i < k {
                        assert(names(prefix, h));
                        let j = choose|j: int| 0 <= j < before.len() && (#[trigger] before[j]).handle == h;
                        assert(out@[j].handle == h);
                    } else {
                        if !present {
                            assert(out@[out@.len() - 1].handle == h);
                        }
                    }
                }
                if submitted(out@, h) {
                    let j = choose|j: int| 0 <= j < out@.len() && (#[trigger] out@[j]).handle == h;
                    if j < before.len() {
                        assert(submitted(before, h));
                    } else {
                        assert(next[k as int] == h);
                    }
                }
            }
        }
        k = k + 1;
    }
    assert(local_players@.take(k as int) == local_players@);
    out
}

/// Whether `handles` names `handle`.
pub fn is_named(handles: &Vec<usize>, handle: usize) -> (found: bool)
    ensures
        found == names(handles@, handle),
{
    let mut i: usize = 0;
    while i < handles.len()
        invariant
            i <= handles@.len(),
            forall|k: int| 0 <= k < i ==> handles@[k] != handle,
        decreases handles@.len() - i,
    {
        if handles[i] == handle {
            return true;
        }
        i = i + 1;
    }
    false
}

/// Where `paddle` stands for a tick with the given view of inputs: at the
/// position its participant pointed to, near and in front when a local
/// participant moves it, at the far wall and behind otherwise.
pub open spec fn pose(paddle: Paddle, inputs: Seq<PlayerInput>, local_players: Seq<usize>) -> PaddlePose {
    let is_self = names(local_players, paddle.handle);
    PaddlePose {
        is_self,
        depth: if is_self { 0 } else { DEPTH },
        x: inputs[paddle.handle as int].input.inp,
        y: inputs[paddle.handle as int].input.inp2,
        layer: if is_self { Z_OWN_PADDLE } else { Z_OTHER_PADDLE },
    }
}

/// Places every paddle for one tick from the inputs of that tick.
pub fn paddle_movement(paddles: &Vec<Paddle>, inputs: &Vec<PlayerInput>, local_players: &Vec<usize>) -> (poses:
    Vec<PaddlePose>)
    requires
        forall|i: int| 0 <= i < paddles@.len() ==> (#[trigger] paddles@[i]).handle < inputs@.len(),
    ensures
        poses@.len() == paddles@.len(),
        forall|i: int|
            0 <= i < paddles@.len() ==> #[trigger] poses@[i] == pose(paddles@[i], inputs@, local_players@),
{
    let mut poses: Vec<PaddlePose> = Vec::new();
    let mut i: usize = 0;
    while i < paddles.len()
        invariant
            i <= paddles@.len(),
            poses@.len() == i,
            forall|k: int| 0 <= k < paddles@.len() ==> (#[trigger] paddles@[k]).handle < inputs@.len(),
            forall|k: int| 0 <= k < i ==> #[trigger] poses@[k] == pose(paddles@[k], inputs@, local_players@),
        decreases paddles@.len() - i,
    {
        let paddle = paddles[i];
        let is_self = is_named(local_players, paddle.handle);
        let input = inputs[paddle.handle].input;
        poses.push(
            PaddlePose {
                is_self,
                depth: if is_self { 0 } else { DEPTH },
                x: input.inp,
                y: input.inp2,
                layer: if is_self { Z_OWN_PADDLE } else { Z_OTHER_PADDLE },
            },
        );
        i = i + 1;
    }
    poses
}

} // verus!
