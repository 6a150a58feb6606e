//! What holds of every session, whatever happened to it.

use vstd::prelude::*;
use crate::input::BoxInput;
use crate::ledger::Ledger;
use crate::session::{resimulated, stale, Session};
use crate::sim::replay;

verus! {

/// Rolling back changes nothing in the end: a session in which every tick
/// was last simulated with the inputs now known is in the state that
/// running the simulation once over those inputs, tick by tick from the
/// initial state, gives. How often and from where ticks were simulated
/// again on the way does not show.
pub proof fn law_state_is_sequential_run<F: Fn(&Vec<u8>, &Vec<BoxInput>) -> Vec<u8>>(
    s: &Session<F>,
    inputs: Seq<Seq<BoxInput>>,
)
    requires
        s.wf(),
        s.in_sync(),
        inputs.len() == s.current_frame(),
        forall|f: int| 0 <= f < s.current_frame() ==> inputs[f] == s.ledger().inputs_for(f),
    ensures
        s.state() == replay(s.step_fn(), s.initial_state(), inputs),
{
    s.lemma_wf();
    assert(inputs =~= s.expected());
}

/// Once the real input of every participant is known for every tick that
/// was simulated, the state is the one that running the simulation once
/// over the real inputs gives: what was predicted on the way, and how often
/// ticks were simulated again, has left no mark.
pub proof fn law_confirmed_state_is_sequential_run<F: Fn(&Vec<u8>, &Vec<BoxInput>) -> Vec<u8>>(s: &Session<F>)
    requires
        s.wf(),
        s.in_sync(),
        forall|h: int| 0 <= h < s.num_players() ==> s.ledger().known(h).len() >= s.current_frame(),
    ensures
        s.state() == replay(
            s.step_fn(),
            s.initial_state(),
            Seq::new(
                s.current_frame() as nat,
                |f: int| Seq::new(s.num_players() as nat, |h: int| s.ledger().known(h)[f]),
            ),
        ),
{
    s.lemma_wf();
    let inputs = Seq::new(
        s.current_frame() as nat,
        |f: int| Seq::new(s.num_players() as nat, |h: int| s.ledger().known(h)[f]),
    );
    assert forall|f: int| 0 <= f < s.current_frame() implies inputs[f] == s.ledger().inputs_for(f) by {
        assert forall|h: int| 0 <= h < s.num_players() implies inputs[f][h] == s.ledger().inputs_for(f)[h] by {
            assert(s.ledger().known(h).len() >= s.current_frame());
        }
        assert(inputs[f] =~= s.ledger().inputs_for(f));
    }
    law_state_is_sequential_run(s, inputs);
}

/// Two sessions over the same simulation and initial state that have
/// simulated as many ticks, each with the inputs it now knows, and that
/// know the same inputs for those ticks, are in the same state. One of them
/// may have had every input in time and the other may have predicted and
/// rolled back.
pub proof fn law_determinism<F: Fn(&Vec<u8>, &Vec<BoxInput>) -> Vec<u8>>(a: &Session<F>, b: &Session<F>)
    requires
        a.wf(),
        b.wf(),
        a.in_sync(),
        b.in_sync(),
        a.step_fn() == b.step_fn(),
        a.initial_state() == b.initial_state(),
        a.current_frame() == b.current_frame(),
        forall|f: int| 0 <= f < a.current_frame() ==> a.ledger().inputs_for(f) == b.ledger().inputs_for(f),
    ensures
        a.state() == b.state(),
{
    a.lemma_wf();
    law_state_is_sequential_run(b, a.expected());
}

/// Simulating again from `from` leaves alone the record of every tick whose
/// inputs were what is now known: where that is so of all ticks from `from`
/// on, nothing changes.
pub proof fn law_correct_ticks_resimulate_alike(trace: Seq<Seq<BoxInput>>, ledger: Ledger, from: int)
    requires
        0 <= from,
        forall|f: int| from <= f < trace.len() ==> !stale(trace, ledger, f),
    ensures
        resimulated(trace, ledger, from) == trace,
{
    assert forall|f: int| 0 <= f < trace.len() implies resimulated(trace, ledger, from)[f] == trace[f] by {
        if from <= f {
            assert(!stale(trace, ledger, f));
        }
    }
}

/// Resimulation is idempotent: a session that has simulated again from
/// `from`, where every tick from `from` on had been simulated with the
/// inputs now known, is in the state it was in before.
pub proof fn law_resimulation_is_idempotent<F: Fn(&Vec<u8>, &Vec<BoxInput>) -> Vec<u8>>(
    before: &Session<F>,
    after: &Session<F>,
    from: int,
)
    requires
        before.wf(),
        after.wf(),
        0 <= from,
        after.step_fn() == before.step_fn(),
        after.initial_state() == before.initial_state(),
        after.current_frame() == before.current_frame(),
        after.trace() == resimulated(before.trace(), before.ledger(), from),
        forall|f: int| from <= f < before.current_frame() ==> !stale(before.trace(), before.ledger(), f),
    ensures
        after.trace() == before.trace(),
        after.state() == before.state(),
{
    before.lemma_wf();
    after.lemma_wf();
    law_correct_ticks_resimulate_alike(before.trace(), before.ledger(), from);
}

/// The simulation is never further ahead of the confirmed tick than the
/// prediction window allows, and never behind it.
pub proof fn law_prediction_window<F: Fn(&Vec<u8>, &Vec<BoxInput>) -> Vec<u8>>(s: &Session<F>)
    requires
        s.wf(),
    ensures
        s.confirmed_frame() <= s.current_frame() <= s.confirmed_frame() + s.max_prediction_window(),
{
    s.lemma_wf();
}

/// No snapshot is kept of a tick that lies further back from the confirmed
/// tick than the prediction window reaches.
pub proof fn law_snapshot_retention<F: Fn(&Vec<u8>, &Vec<BoxInput>) -> Vec<u8>>(s: &Session<F>, frame: int)
    requires
        s.wf(),
        s.has_snapshot(frame),
    ensures
        frame >= s.confirmed_frame() - s.max_prediction_window(),
        frame >= 0,
{
    s.lemma_wf();
}

/// Every snapshot that a rollback may need is kept: that of each tick after
/// the confirmed one, up to the current one.
pub proof fn law_rollback_is_possible<F: Fn(&Vec<u8>, &Vec<BoxInput>) -> Vec<u8>>(s: &Session<F>, frame: int)
    requires
        s.wf(),
        s.confirmed_frame() < frame <= s.current_frame(),
    ensures
        s.has_snapshot(frame),
{
    s.lemma_wf();
}

/// The state before a final tick is the sequential run over the inputs
/// known for the ticks before it.
pub proof fn law_final_snapshot<F: Fn(&Vec<u8>, &Vec<BoxInput>) -> Vec<u8>>(s: &Session<F>, frame: int)
    requires
        s.wf(),
        s.is_final(frame),
    ensures
        s.snapshot(frame) == replay(
            s.step_fn(),
            s.initial_state(),
            Seq::new(frame as nat, |f: int| s.ledger().inputs_for(f)),
        ),
{
    s.lemma_wf();
    assert(s.trace().take(frame) =~= Seq::new(frame as nat, |f: int| s.ledger().inputs_for(f)));
}

/// A final state stays: once the state before a tick is final, a session
/// that has learned more since holds the same state for that tick, as long
/// as it keeps one.
pub proof fn law_final_snapshot_stays<F: Fn(&Vec<u8>, &Vec<BoxInput>) -> Vec<u8>>(
    earlier: &Session<F>,
    later: &Session<F>,
    frame: int,
)
    requires
        earlier.wf(),
        later.wf(),
        later.step_fn() == earlier.step_fn(),
        later.initial_state() == earlier.initial_state(),
        later.ledger().extends(&earlier.ledger()),
        earlier.is_final(frame),
        later.is_final(frame),
    ensures
        later.snapshot(frame) == earlier.snapshot(frame),
{
    earlier.lemma_wf();
    law_final_snapshot(earlier, frame);
    law_final_snapshot(later, frame);
    assert forall|f: int| 0 <= f < frame implies later.ledger().inputs_for(f) == earlier.ledger().inputs_for(
        f,
    ) by {
        later.ledger().lemma_settled_stays(&earlier.ledger(), f);
    }
    assert(Seq::new(frame as nat, |f: int| later.ledger().inputs_for(f)) =~= Seq::new(
        frame as nat,
        |f: int| earlier.ledger().inputs_for(f),
    ));
}

} // verus!
