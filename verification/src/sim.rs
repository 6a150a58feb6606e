//! What the core asks of the simulation that it drives.
//!
//! The simulation is a function handed in by the caller. It takes the
//! serialized state before a tick and one input per participant, and gives
//! the serialized state after the tick. The core may call it any number of
//! times for the same tick, so it has to give the same answer every time.

use vstd::prelude::*;
use crate::input::BoxInput;
use crate::wire::{le_bytes, put_le, to_unsigned, unsigned};

verus! {

/// Every call of `step` on state `state` and inputs `inputs` gives `next`.
pub open spec fn yields<F: Fn(&Vec<u8>, &Vec<BoxInput>) -> Vec<u8>>(
    step: F,
    state: Seq<u8>,
    inputs: Seq<BoxInput>,
    next: Seq<u8>,
) -> bool {
    forall|s: &Vec<u8>, i: &Vec<BoxInput>, r: Vec<u8>|
        s@ == state && i@ == inputs && #[trigger] step.ensures((s, i), r) ==> r@ == next
}

/// `step` can be called on anything, and what it returns depends on the
/// bytes of the state and on the inputs and on nothing else.
pub open spec fn is_pure<F: Fn(&Vec<u8>, &Vec<BoxInput>) -> Vec<u8>>(step: F) -> bool {
    &&& forall|s: &Vec<u8>, i: &Vec<BoxInput>| #[trigger] step.requires((s, i))
    &&& forall|s1: &Vec<u8>, i1: &Vec<BoxInput>, r1: Vec<u8>, s2: &Vec<u8>, i2: &Vec<BoxInput>, r2: Vec<u8>|
        s1@ == s2@ && i1@ == i2@ && #[trigger] step.ensures((s1, i1), r1) && #[trigger] step.ensures(
            (s2, i2),
            r2,
        ) ==> r1@ == r2@
}

/// The state after one tick of a pure `step`.
pub open spec fn step_result<F: Fn(&Vec<u8>, &Vec<BoxInput>) -> Vec<u8>>(
    step: F,
    state: Seq<u8>,
    inputs: Seq<BoxInput>,
) -> Seq<u8> {
    choose|next: Seq<u8>| yields(step, state, inputs, next)
}

/// The state after running `step` from `init` over `inputs`, tick by tick.
pub open spec fn replay<F: Fn(&Vec<u8>, &Vec<BoxInput>) -> Vec<u8>>(
    step: F,
    init: Seq<u8>,
    inputs: Seq<Seq<BoxInput>>,
) -> Seq<u8>
    decreases inputs.len(),
{
    if inputs.len() == 0 {
        init
    } else {
        step_result(step, replay(step, init, inputs.drop_last()), inputs.last())
    }
}

/// What a call of a pure `step` returned is what `step_result` names.
pub proof fn lemma_step_result<F: Fn(&Vec<u8>, &Vec<BoxInput>) -> Vec<u8>>(
    step: F,
    state: &Vec<u8>,
    inputs: &Vec<BoxInput>,
    next: Vec<u8>,
)
    requires
        is_pure(step),
        step.ensures((state, inputs), next),
    ensures
        next@ == step_result(step, state@, inputs@),
{
    assert(yields(step, state@, inputs@, next@));
}

/// Running one tick more extends the replay by that tick.
pub proof fn lemma_replay_push<F: Fn(&Vec<u8>, &Vec<BoxInput>) -> Vec<u8>>(
    step: F,
    init: Seq<u8>,
    inputs: Seq<Seq<BoxInput>>,
    last: Seq<BoxInput>,
)
    ensures
        replay(step, init, inputs.push(last)) == step_result(step, replay(step, init, inputs), last),
{
    assert(inputs.push(last).drop_last() == inputs);
}

/// Calls `step` once.
pub fn run_step<F: Fn(&Vec<u8>, &Vec<BoxInput>) -> Vec<u8>>(step: &F, state: &Vec<u8>, inputs: &Vec<BoxInput>) -> (next:
    Vec<u8>)
    requires
        is_pure(*step),
    ensures
        next@ == step_result(*step, state@, inputs@),
{
    let next = step(state, inputs);
    proof {
        lemma_step_result(*step, state, inputs, next);
    }
    next
}

/// The state of the paddles after a tick with `inputs`: the two coordinates
/// that each participant pointed to, each in 8 bytes, least significant
/// first, in the order of the handles.
pub open spec fn paddles_after(inputs: Seq<BoxInput>) -> Seq<u8>
    decreases inputs.len(),
{
    if inputs.len() == 0 {
        Seq::empty()
    } else {
        paddles_after(inputs.drop_last()) + le_bytes(unsigned(inputs.last().inp), 8) + le_bytes(
            unsigned(inputs.last().inp2),
            8,
        )
    }
}

/// The simulation of the paddles alone: every paddle stands where its
/// participant pointed on the tick, wherever it stood before.
pub fn paddle_step(state: &Vec<u8>, inputs: &Vec<BoxInput>) -> (next: Vec<u8>)
    ensures
        next@ == paddles_after(inputs@),
{
    let mut next: Vec<u8> = Vec::new();
    let mut h: usize = 0;
    while h < inputs.len()
        invariant
            h <= inputs@.len(),
            next@ == paddles_after(inputs@.take(h as int)),
        decreases inputs@.len() - h,
    {
        assert(inputs@.take(h + 1).drop_last() =~= inputs@.take(h as int));
        put_le(&mut next, to_unsigned(inputs[h].inp), 8);
        put_le(&mut next, to_unsigned(inputs[h].inp2), 8);
        h = h + 1;
    }
    assert(inputs@.take(h as int) =~= inputs@);
    next
}

/// The simulation of the paddles is one that a session can drive.
pub proof fn law_paddle_step_is_pure()
    ensures
        is_pure(paddle_step),
{
}

} // verus!
