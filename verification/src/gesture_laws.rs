use vstd::prelude::*;

use crate::gesture_detector::DetectorModel;
use crate::gesture_detector::StepResult;
use crate::gesture_detector::Touch;
use crate::gesture_detector::Decision;
use crate::gesture_detector::GestureEvent;
use crate::gesture_detector::Side;
use crate::gesture_detector::Direction;
use crate::gesture_detector::side_distance;
use crate::gesture_detector::spec_touch_side;
use crate::gesture_detector::spec_touch_direction;
use crate::gesture_detector::spec_valid_combination;
use crate::gesture_detector::initial_model;
use crate::gesture_detector::spec_begin;
use crate::gesture_detector::spec_update;
use crate::gesture_detector::spec_update_classify;
use crate::gesture_detector::spec_end;
use crate::gesture_detector::tracks;
use crate::gesture_detector::id_index;
use crate::gesture_detector::distinct_ids;
use crate::gesture_detector::forced_decisions;
use crate::gesture_detector::all_decided;
use crate::gesture_detector::set_decided;
use crate::gesture_detector::reject_decision;
use crate::gesture_detector::accept_decision;
use crate::gesture_detector::lemma_id_index;
use crate::gesture_detector::lemma_id_index_first;
use crate::gesture_detector::lemma_id_index_same_ids;
use crate::gesture_detector::lemma_begin_wf;
use crate::gesture_detector::lemma_update_wf;
use crate::gesture_detector::lemma_end_wf;
use crate::gesture_detector::lemma_update_keeps_ids;

verus! {

/// One event of the serialized touch stream, as the source delivers it.
pub enum TouchEvent {
    Begin { touch_id: i32, device_id: i32, x: i32, y: i32 },
    Update { touch_id: i32, x: i32, y: i32 },
    End { touch_id: i32, x: i32, y: i32 },
}

pub open spec fn event_touch_id(e: TouchEvent) -> i32 {
    match e {
        TouchEvent::Begin { touch_id, .. } => touch_id,
        TouchEvent::Update { touch_id, .. } => touch_id,
        TouchEvent::End { touch_id, .. } => touch_id,
    }
}

pub open spec fn is_begin(e: TouchEvent) -> bool {
    e is Begin
}

/// What one event does to the detector.
pub open spec fn spec_step(s: DetectorModel, e: TouchEvent) -> StepResult {
    match e {
        TouchEvent::Begin { touch_id, device_id, x, y } => spec_begin(s, touch_id, device_id, x, y),
        TouchEvent::Update { touch_id, x, y } => spec_update(s, touch_id, x, y),
        TouchEvent::End { touch_id, x, y } => spec_end(s, touch_id, x, y),
    }
}

/// The fold of a whole event stream: the final state, every decision
/// delivered, in order, and every completed gesture, in order.
#[verifier::ext_equal]
pub struct RunResult {
    pub state: DetectorModel,
    pub decisions: Seq<Decision>,
    pub gestures: Seq<GestureEvent>,
}

pub open spec fn spec_run(s: DetectorModel, events: Seq<TouchEvent>) -> RunResult
    decreases events.len(),
{
    if events.len() == 0 {
        RunResult { state: s, decisions: Seq::empty(), gestures: Seq::empty() }
    } else {
        let first = spec_step(s, events[0]);
        let rest = spec_run(first.state, events.drop_first());
        RunResult {
            state: rest.state,
            decisions: first.decisions + rest.decisions,
            gestures: (match first.gesture {
                Some(g) => seq![g],
                None => Seq::<GestureEvent>::empty(),
            }) + rest.gestures,
        }
    }
}

/// A stream the touch source can deliver: a begin never reuses a live id.
pub open spec fn valid_stream(s: DetectorModel, events: Seq<TouchEvent>) -> bool
    decreases events.len(),
{
    events.len() == 0 || {
        &&& (is_begin(events[0]) ==> !tracks(s.touches, event_touch_id(events[0])))
        &&& valid_stream(spec_step(s, events[0]).state, events.drop_first())
    }
}

/// How many begin events of the stream carry this id.
pub open spec fn count_begins(events: Seq<TouchEvent>, touch_id: i32) -> int
    decreases events.len(),
{
    if events.len() == 0 {
        0
    } else {
        (if is_begin(events[0]) && event_touch_id(events[0]) == touch_id {
            1int
        } else {
            0int
        }) + count_begins(events.drop_first(), touch_id)
    }
}

/// How many decisions of the list carry this id.
pub open spec fn decisions_for(ds: Seq<Decision>, touch_id: i32) -> int
    decreases ds.len(),
{
    if ds.len() == 0 {
        0
    } else {
        (if ds[0].touch_id == touch_id {
            1int
        } else {
            0int
        }) + decisions_for(ds.drop_first(), touch_id)
    }
}

/// Whether some live touch with this id is still owed a decision.
pub open spec fn owes_decision(touches: Seq<Touch>, touch_id: i32) -> bool {
    exists|j: int|
        0 <= j < touches.len() && touches[j].touch_id == touch_id && !touches[j].is_decided
}

/// The decision budget still open for this id: one while a live touch with
/// the id is undecided, none otherwise.
pub open spec fn pending(s: DetectorModel, touch_id: i32) -> int {
    if owes_decision(s.touches, touch_id) {
        1
    } else {
        0
    }
}

pub proof fn lemma_decisions_for_nonneg(ds: Seq<Decision>, touch_id: i32)
    ensures
        decisions_for(ds, touch_id) >= 0,
    decreases ds.len(),
{
    if ds.len() > 0 {
        lemma_decisions_for_nonneg(ds.drop_first(), touch_id);
    }
}

pub proof fn lemma_decisions_for_single(d: Decision, touch_id: i32)
    ensures
        decisions_for(seq![d], touch_id) == (if d.touch_id == touch_id {
            1int
        } else {
            0int
        }),
{
    let s = seq![d];
    assert(s.drop_first() =~= Seq::<Decision>::empty());
    assert(decisions_for(Seq::<Decision>::empty(), touch_id) == 0);
}

pub proof fn lemma_decisions_for_add(a: Seq<Decision>, b: Seq<Decision>, touch_id: i32)
    ensures
        decisions_for(a + b, touch_id) == decisions_for(a, touch_id) + decisions_for(b, touch_id),
    decreases a.len(),
{
    if a.len() == 0 {
        assert(a + b =~= b);
    } else {
        assert((a + b).drop_first() =~= a.drop_first() + b);
        lemma_decisions_for_add(a.drop_first(), b, touch_id);
    }
}

/// Force-rejecting a distinct-id touch list delivers exactly one decision for
/// an id that is owed one, and none for any other id.
pub proof fn lemma_forced_decisions_for(touches: Seq<Touch>, accept_all: bool, touch_id: i32)
    requires
        distinct_ids(touches),
    ensures
        decisions_for(forced_decisions(touches, accept_all), touch_id) == (if owes_decision(
            touches,
            touch_id,
        ) {
            1int
        } else {
            0int
        }),
    decreases touches.len(),
{
    if touches.len() == 0 {
        assert(!owes_decision(touches, touch_id));
    } else {
        let init = touches.drop_last();
        let last = touches.last();
        assert(forall|k: int| 0 <= k < init.len() ==> init[k] == touches[k]);
        assert(distinct_ids(init));
        lemma_forced_decisions_for(init, accept_all, touch_id);
        let tail: Seq<Decision> = if last.is_decided {
            Seq::empty()
        } else {
            seq![reject_decision(last.touch_id, last.device_id, accept_all)]
        };
        lemma_decisions_for_add(forced_decisions(init, accept_all), tail, touch_id);
        if !last.is_decided {
            lemma_decisions_for_single(
                reject_decision(last.touch_id, last.device_id, accept_all),
                touch_id,
            );
        }
        if last.touch_id == touch_id && !last.is_decided {
            if owes_decision(init, touch_id) {
                let j = choose|j: int|
                    0 <= j < init.len() && init[j].touch_id == touch_id && !init[j].is_decided;
                assert(touches[j].touch_id == touches[touches.len() - 1].touch_id);
                assert(false);
            }
            assert(decisions_for(tail, touch_id) == 1);
            assert(owes_decision(touches, touch_id));
        } else {
            assert(decisions_for(tail, touch_id) == 0);
            if owes_decision(init, touch_id) {
                let j = choose|j: int|
                    0 <= j < init.len() && init[j].touch_id == touch_id && !init[j].is_decided;
                assert(touches[j].touch_id == touch_id && !touches[j].is_decided);
            }
            if owes_decision(touches, touch_id) {
                let j = choose|j: int|
                    0 <= j < touches.len() && touches[j].touch_id == touch_id
                        && !touches[j].is_decided;
                assert(j < touches.len() - 1);
                assert(init[j].touch_id == touch_id && !init[j].is_decided);
            }
        }
    }
}

/// Each forced rejection really is delivered: the decision list holds the
/// rejection of every undecided touch.
pub proof fn lemma_forced_decisions_contains(
    touches: Seq<Touch>,
    accept_all: bool,
    j: int,
)
    requires
        0 <= j < touches.len(),
        !touches[j].is_decided,
    ensures
        forced_decisions(touches, accept_all).contains(
            reject_decision(touches[j].touch_id, touches[j].device_id, accept_all),
        ),
    decreases touches.len(),
{
    let init = touches.drop_last();
    let d = reject_decision(touches[j].touch_id, touches[j].device_id, accept_all);
    if j == touches.len() - 1 {
        let out = forced_decisions(touches, accept_all);
        assert(out[out.len() - 1] == d);
    } else {
        lemma_forced_decisions_contains(init, accept_all, j);
        let k = choose|k: int|
            0 <= k < forced_decisions(init, accept_all).len() && forced_decisions(
                init,
                accept_all,
            )[k] == d;
        assert(forced_decisions(touches, accept_all)[k] == d);
    }
}

/// After every touch is marked decided, no decision is owed.
pub proof fn lemma_owes_all_decided(touches: Seq<Touch>, touch_id: i32)
    ensures
        !owes_decision(all_decided(touches), touch_id),
{
    assert(forall|j: int|
        0 <= j < all_decided(touches).len() ==> (#[trigger] all_decided(touches)[j]).is_decided);
}

/// A well-formed step preserves well-formedness.
pub proof fn lemma_step_wf(s: DetectorModel, e: TouchEvent)
    requires
        s.wf(),
        is_begin(e) ==> !tracks(s.touches, event_touch_id(e)),
    ensures
        spec_step(s, e).state.wf(),
{
    match e {
        TouchEvent::Begin { touch_id, device_id, x, y } => {
            lemma_begin_wf(s, touch_id, device_id, x, y);
        },
        TouchEvent::Update { touch_id, x, y } => {
            lemma_update_wf(s, touch_id, x, y);
        },
        TouchEvent::End { touch_id, x, y } => {
            lemma_end_wf(s, touch_id, x, y);
        },
    }
}

/// A begin event spends at most the one new decision its own id brings, plus
/// whatever was already owed.
pub proof fn lemma_begin_budget(
    s: DetectorModel,
    touch_id: i32,
    device_id: i32,
    x: i32,
    y: i32,
    t: i32,
)
    requires
        s.wf(),
        !tracks(s.touches, touch_id),
    ensures
        decisions_for(spec_begin(s, touch_id, device_id, x, y).decisions, t) + pending(
            spec_begin(s, touch_id, device_id, x, y).state,
            t,
        ) <= pending(s, t) + (if touch_id == t {
            1int
        } else {
            0int
        }),
        decisions_for(spec_begin(s, touch_id, device_id, x, y).decisions, t) >= 0,

{
    let r = spec_begin(s, touch_id, device_id, x, y);
    lemma_id_index(s.touches, touch_id);
    lemma_decisions_for_nonneg(r.decisions, t);
    if touch_id == t && owes_decision(s.touches, t) {
        let j = choose|j: int|
            0 <= j < s.touches.len() && s.touches[j].touch_id == t && !s.touches[j].is_decided;
        assert(false);
    }
    lemma_decisions_for_single(reject_decision(touch_id, device_id, s.accept_all), t);
    if s.ruined {
    } else {
        match spec_touch_side(s.config, x as int, y as int) {
            Some(side) => {
                if s.side is Some && s.side != Some(side) {
                    if s.touches.len() > 0 {
                        lemma_decisions_for_add(
                            seq![reject_decision(touch_id, device_id, s.accept_all)],
                            forced_decisions(s.touches, s.accept_all),
                            t,
                        );
                        lemma_forced_decisions_for(s.touches, s.accept_all, t);
                        lemma_owes_all_decided(s.touches, t);
                    }
                } else {
                    let me = Touch {
                        touch_id,
                        device_id,
                        start_x: x,
                        start_y: y,
                        is_decided: s.accept_all,
                    };
                    let pushed = s.touches.push(me);
                    lemma_decisions_for_single(accept_decision(me), t);
                    if t == touch_id {
                        if s.accept_all && owes_decision(pushed, t) {
                            let j = choose|j: int|
                                0 <= j < pushed.len() && pushed[j].touch_id == t
                                    && !pushed[j].is_decided;
                            assert(false);
                        }
                        if !s.accept_all {
                            assert(pushed[s.touches.len() as int].touch_id == t);
                        }
                    } else {
                        if owes_decision(pushed, t) {
                            let j = choose|j: int|
                                0 <= j < pushed.len() && pushed[j].touch_id == t
                                    && !pushed[j].is_decided;
                            assert(j < s.touches.len());
                            assert(owes_decision(s.touches, t));
                        }
                    }
                }
            },
            None => {
                if s.touches.len() > 0 {
                    lemma_decisions_for_add(
                        seq![reject_decision(touch_id, device_id, s.accept_all)],
                        forced_decisions(s.touches, s.accept_all),
                        t,
                    );
                    lemma_forced_decisions_for(s.touches, s.accept_all, t);
                    lemma_owes_all_decided(s.touches, t);
                }
            },
        }
    }
}

/// An update event only ever spends decisions that were already owed.
pub proof fn lemma_update_budget(s: DetectorModel, touch_id: i32, x: i32, y: i32, t: i32)
    requires
        s.wf(),
    ensures
        decisions_for(spec_update(s, touch_id, x, y).decisions, t) + pending(
            spec_update(s, touch_id, x, y).state,
            t,
        ) <= pending(s, t),
        decisions_for(spec_update(s, touch_id, x, y).decisions, t) >= 0,
{
    let r = spec_update(s, touch_id, x, y);
    lemma_decisions_for_nonneg(r.decisions, t);
    if tracks(s.touches, touch_id) {
        lemma_id_index(s.touches, touch_id);
        let i = id_index(s.touches, touch_id);
        let tch = s.touches[i];
        let c = spec_update_classify(s, touch_id, x, y);
        let up = s.touches.update(i, set_decided(tch));
        assert(forall|j: int| 0 <= j < up.len() ==> up[j].touch_id == s.touches[j].touch_id);
        lemma_decisions_for_single(accept_decision(tch), t);
        if t == touch_id && owes_decision(up, t) {
            let j = choose|j: int|
                0 <= j < up.len() && up[j].touch_id == t && !up[j].is_decided;
            assert(s.touches[j].touch_id == s.touches[i].touch_id);
            assert(j == i);
            assert(false);
        }
        if t != touch_id {
            if owes_decision(up, t) {
                let j = choose|j: int|
                    0 <= j < up.len() && up[j].touch_id == t && !up[j].is_decided;
                assert(j != i);
                assert(owes_decision(s.touches, t));
            }
            if owes_decision(s.touches, t) {
                let j = choose|j: int|
                    0 <= j < s.touches.len() && s.touches[j].touch_id == t
                        && !s.touches[j].is_decided;
                assert(j != i);
                assert(up[j].touch_id == t && !up[j].is_decided);
                assert(owes_decision(up, t));
            }
        }
        if t == touch_id && !tch.is_decided {
            assert(owes_decision(s.touches, t));
        }
        // the classify phase leaves the touches untouched or marks this touch
        // decided, so its id list and distinctness carry over
        assert(c.state.touches == s.touches || c.state.touches == up);
        assert(distinct_ids(c.state.touches));
        if c.state.ruined {
            lemma_decisions_for_add(
                c.decisions,
                forced_decisions(c.state.touches, s.accept_all),
                t,
            );
            lemma_forced_decisions_for(c.state.touches, s.accept_all, t);
            lemma_owes_all_decided(c.state.touches, t);
            lemma_decisions_for_nonneg(c.decisions, t);
        }
    }
}

/// An end event only ever spends decisions that were already owed.
pub proof fn lemma_end_budget(s: DetectorModel, touch_id: i32, x: i32, y: i32, t: i32)
    requires
        s.wf(),
    ensures
        decisions_for(spec_end(s, touch_id, x, y).decisions, t) + pending(
            spec_end(s, touch_id, x, y).state,
            t,
        ) <= pending(s, t),
        decisions_for(spec_end(s, touch_id, x, y).decisions, t) >= 0,
{
    let r = spec_end(s, touch_id, x, y);
    lemma_decisions_for_nonneg(r.decisions, t);
    if tracks(s.touches, touch_id) {
        lemma_update_budget(s, touch_id, x, y, t);
        lemma_update_wf(s, touch_id, x, y);
        lemma_update_keeps_ids(s, touch_id, x, y);
        lemma_id_index(s.touches, touch_id);
        let up = spec_update(s, touch_id, x, y);
        let s1 = up.state;
        lemma_id_index_same_ids(s.touches, s1.touches, touch_id);
        lemma_id_index(s1.touches, touch_id);
        let i = id_index(s1.touches, touch_id);
        let s2 = if !s1.touches[i].is_decided {
            DetectorModel { ruined: true, ..s1 }
        } else {
            s1
        };
        if s2.touches.len() <= 1 {
            if s2.direction is Some && s2.side is Some && !s2.ruined {
            } else {
                lemma_forced_decisions_for(s2.touches, s2.accept_all, t);
                lemma_decisions_for_add(
                    up.decisions,
                    forced_decisions(s2.touches, s2.accept_all),
                    t,
                );
            }
        } else {
            let rm = s2.touches.remove(i);
            if owes_decision(rm, t) {
                let j = choose|j: int|
                    0 <= j < rm.len() && rm[j].touch_id == t && !rm[j].is_decided;
                assert(rm[j] == if j < i {
                    s2.touches[j]
                } else {
                    s2.touches[j + 1]
                });
                assert(owes_decision(s1.touches, t));
            }
        }
    }
}

/// One event spends at most the decision budget open for the touch: what was
/// already owed, plus the one decision a begin event of its own id brings.
pub proof fn lemma_step_budget(s: DetectorModel, e: TouchEvent, t: i32)
    requires
        s.wf(),
        is_begin(e) ==> !tracks(s.touches, event_touch_id(e)),
    ensures
        decisions_for(spec_step(s, e).decisions, t) + pending(spec_step(s, e).state, t)
            <= pending(s, t) + (if is_begin(e) && event_touch_id(e) == t {
            1int
        } else {
            0int
        }),
        decisions_for(spec_step(s, e).decisions, t) >= 0,
{
    match e {
        TouchEvent::Begin { touch_id, device_id, x, y } => {
            lemma_begin_budget(s, touch_id, device_id, x, y, t);
        },
        TouchEvent::Update { touch_id, x, y } => {
            lemma_update_budget(s, touch_id, x, y, t);
        },
        TouchEvent::End { touch_id, x, y } => {
            lemma_end_budget(s, touch_id, x, y, t);
        },
    }
}

proof fn lemma_run_budget(s: DetectorModel, events: Seq<TouchEvent>, t: i32)
    requires
        s.wf(),
        valid_stream(s, events),
    ensures
        decisions_for(spec_run(s, events).decisions, t) <= pending(s, t) + count_begins(
            events,
            t,
        ),
    decreases events.len(),
{
    if events.len() > 0 {
        let e = events[0];
        let first = spec_step(s, e);
        lemma_step_budget(s, e, t);
        lemma_step_wf(s, e);
        lemma_run_budget(first.state, events.drop_first(), t);
        lemma_decisions_for_add(
            first.decisions,
            spec_run(first.state, events.drop_first()).decisions,
            t,
        );
    }
}

/// Law: over a touch's lifetime, at most one accept-or-reject decision is
/// ever delivered for it. From any state in which the id is not live, a
/// stream holding at most one begin event for the id yields at most one
/// decision for it, however the stream goes.
pub proof fn lemma_decision_at_most_once(s: DetectorModel, events: Seq<TouchEvent>, t: i32)
    requires
        s.wf(),
        valid_stream(s, events),
        !tracks(s.touches, t),
        count_begins(events, t) <= 1,
    ensures
        decisions_for(spec_run(s, events).decisions, t) <= 1,
{
    lemma_id_index(s.touches, t);
    if owes_decision(s.touches, t) {
        let j = choose|j: int|
            0 <= j < s.touches.len() && s.touches[j].touch_id == t && !s.touches[j].is_decided;
        assert(false);
    }
    lemma_run_budget(s, events, t);
}

/// Splitting a stream splits its run: states chain, and decisions and
/// gestures concatenate.
pub proof fn lemma_run_add(s: DetectorModel, a: Seq<TouchEvent>, b: Seq<TouchEvent>)
    ensures
        spec_run(s, a + b).state == spec_run(spec_run(s, a).state, b).state,
        spec_run(s, a + b).decisions == spec_run(s, a).decisions + spec_run(
            spec_run(s, a).state,
            b,
        ).decisions,
        spec_run(s, a + b).gestures == spec_run(s, a).gestures + spec_run(
            spec_run(s, a).state,
            b,
        ).gestures,
    decreases a.len(),
{
    if a.len() == 0 {
        assert(a + b =~= b);
        assert(spec_run(s, a).decisions + spec_run(spec_run(s, a).state, b).decisions
            =~= spec_run(s, b).decisions);
        assert(spec_run(s, a).gestures + spec_run(spec_run(s, a).state, b).gestures
            =~= spec_run(s, b).gestures);
    } else {
        let first = spec_step(s, a[0]);
        assert((a + b).drop_first() =~= a.drop_first() + b);
        lemma_run_add(first.state, a.drop_first(), b);
        assert(spec_run(s, a + b).decisions =~= spec_run(s, a).decisions + spec_run(
            spec_run(s, a).state,
            b,
        ).decisions);
        assert(spec_run(s, a + b).gestures =~= spec_run(s, a).gestures + spec_run(
            spec_run(s, a).state,
            b,
        ).gestures);
    }
}

/// Law: a touch beginning on a different edge while a gesture is live ruins
/// the epoch: it is rejected, every undecided live touch is force-rejected
/// (each rejection is in the decision list), and no gesture completes.
pub proof fn lemma_foreign_edge_ruins(
    s: DetectorModel,
    touch_id: i32,
    device_id: i32,
    x: i32,
    y: i32,
)
    requires
        s.wf(),
        !s.ruined,
        s.touches.len() > 0,
        !tracks(s.touches, touch_id),
        spec_touch_side(s.config, x as int, y as int) is Some,
        spec_touch_side(s.config, x as int, y as int) != s.side,
    ensures
        spec_begin(s, touch_id, device_id, x, y).state.ruined,
        spec_begin(s, touch_id, device_id, x, y).gesture is None,
        spec_begin(s, touch_id, device_id, x, y).decisions == seq![
            reject_decision(touch_id, device_id, s.accept_all),
        ] + forced_decisions(s.touches, s.accept_all),
        forall|j: int|
            0 <= j < s.touches.len() && !s.touches[j].is_decided ==> spec_begin(
                s,
                touch_id,
                device_id,
                x,
                y,
            ).decisions.contains(
                reject_decision(s.touches[j].touch_id, s.touches[j].device_id, s.accept_all),
            ),
{
    let r = spec_begin(s, touch_id, device_id, x, y);
    assert forall|j: int|
        0 <= j < s.touches.len() && !s.touches[j].is_decided implies r.decisions.contains(
        reject_decision(s.touches[j].touch_id, s.touches[j].device_id, s.accept_all),
    ) by {
        lemma_forced_decisions_contains(s.touches, s.accept_all, j);
        let d = reject_decision(s.touches[j].touch_id, s.touches[j].device_id, s.accept_all);
        let k = choose|k: int|
            0 <= k < forced_decisions(s.touches, s.accept_all).len() && forced_decisions(
                s.touches,
                s.accept_all,
            )[k] == d;
        assert(r.decisions[k + 1] == d);
    }
}

/// The epoch after a finished gesture attempt: everything cleared, ready for
/// the next one.
pub open spec fn epoch_over(s: DetectorModel) -> bool {
    &&& s.touches.len() == 0
    &&& s.side is None
    &&& s.direction is None
    &&& s.num_touches == 0
    &&& !s.ruined
}

/// From a ruined epoch, one event never completes a gesture: the state stays
/// ruined until the epoch resets.
pub proof fn lemma_ruined_step(s: DetectorModel, e: TouchEvent)
    requires
        s.wf(),
        s.ruined,
    ensures
        spec_step(s, e).gesture is None,
        spec_step(s, e).state.ruined || epoch_over(spec_step(s, e).state),
{
}

/// Law: a ruined epoch never completes a gesture. If any gesture follows, the
/// ruined epoch had already ended, with no gesture, by the time it fires.
pub proof fn lemma_no_gesture_while_ruined(s: DetectorModel, events: Seq<TouchEvent>)
    requires
        s.wf(),
        s.ruined,
        valid_stream(s, events),
    ensures
        spec_run(s, events).gestures.len() > 0 ==> exists|k: int|
            0 <= k < events.len() && epoch_over(
                #[trigger] spec_run(s, events.take(k + 1)).state,
            ) && spec_run(s, events.take(k + 1)).gestures.len() == 0,
    decreases events.len(),
{
    if events.len() > 0 && spec_run(s, events).gestures.len() > 0 {
        let e = events[0];
        let first = spec_step(s, e);
        lemma_ruined_step(s, e);
        lemma_step_wf(s, e);
        if epoch_over(first.state) {
            assert(events.take(1) =~= seq![e]);
            assert(events.take(1)[0] == e);
            assert(events.take(1).drop_first() =~= Seq::<TouchEvent>::empty());
            assert(spec_run(first.state, Seq::<TouchEvent>::empty()).state == first.state);
            assert(spec_run(first.state, Seq::<TouchEvent>::empty()).gestures.len() == 0);
            assert(spec_run(s, events.take(1)).state == first.state);
            assert(spec_run(s, events.take(1)).gestures.len() == 0);
            assert(0 <= 0int < events.len() && epoch_over(
                spec_run(s, events.take(0int + 1)).state,
            ) && spec_run(s, events.take(0int + 1)).gestures.len() == 0);
        } else {
            lemma_no_gesture_while_ruined(first.state, events.drop_first());
            assert(spec_run(s, events).gestures =~= spec_run(
                first.state,
                events.drop_first(),
            ).gestures);
            let k = choose|k: int|
                0 <= k < events.drop_first().len() && epoch_over(
                    #[trigger] spec_run(first.state, events.drop_first().take(k + 1)).state,
                ) && spec_run(first.state, events.drop_first().take(k + 1)).gestures.len() == 0;
            assert(events.take(k + 2) =~= seq![e] + events.drop_first().take(k + 1));
            lemma_run_add(s, seq![e], events.drop_first().take(k + 1));
            assert(seq![e][0] == e);
            assert(seq![e].drop_first() =~= Seq::<TouchEvent>::empty());
            assert(spec_run(first.state, Seq::<TouchEvent>::empty()).state == first.state);
            assert(spec_run(first.state, Seq::<TouchEvent>::empty()).gestures.len() == 0);
            assert(spec_run(s, seq![e]).state == first.state);
            assert(spec_run(s, seq![e]).gestures.len() == 0);
            assert(spec_run(s, events.take(k + 2)).state == spec_run(
                first.state,
                events.drop_first().take(k + 1),
            ).state);
            assert(spec_run(s, events.take(k + 2)).gestures.len() == 0);
            assert(0 <= k + 1 < events.len() && epoch_over(
                spec_run(s, events.take((k + 1) + 1)).state,
            ) && spec_run(s, events.take((k + 1) + 1)).gestures.len() == 0);
        }
    }
}

/// Law: a touch whose displacement stays within the detection threshold on
/// both axes is not decided by its own update, and changes nothing at all in
/// an unruined epoch.
pub proof fn lemma_small_move_is_no_op(s: DetectorModel, touch_id: i32, x: i32, y: i32)
    requires
        s.wf(),
        !s.ruined,
        tracks(s.touches, touch_id),
        crate::gesture_detector::abs(
            x - s.touches[id_index(s.touches, touch_id)].start_x,
        ) <= s.config.detection_threshold,
        crate::gesture_detector::abs(
            y - s.touches[id_index(s.touches, touch_id)].start_y,
        ) <= s.config.detection_threshold,
    ensures
        spec_update(s, touch_id, x, y).state == s,
        spec_update(s, touch_id, x, y).decisions == Seq::<Decision>::empty(),
        spec_update(s, touch_id, x, y).gesture is None,
{
    lemma_id_index(s.touches, touch_id);
}

pub open spec fn updates_of(touch_id: i32, moves: Seq<(i32, i32)>) -> Seq<TouchEvent> {
    moves.map_values(|m: (i32, i32)| TouchEvent::Update { touch_id, x: m.0, y: m.1 })
}

/// Law: however many updates a touch delivers, while none of them moves past
/// the threshold on either axis and the epoch is whole, the touch stays
/// undecided: the state does not change and no decision is delivered.
pub proof fn lemma_small_moves_change_nothing(
    s: DetectorModel,
    touch_id: i32,
    moves: Seq<(i32, i32)>,
)
    requires
        s.wf(),
        !s.ruined,
        tracks(s.touches, touch_id),
        forall|k: int|
            0 <= k < moves.len() ==> crate::gesture_detector::abs(
                (#[trigger] moves[k]).0 - s.touches[id_index(s.touches, touch_id)].start_x,
            ) <= s.config.detection_threshold,
        forall|k: int|
            0 <= k < moves.len() ==> crate::gesture_detector::abs(
                (#[trigger] moves[k]).1 - s.touches[id_index(s.touches, touch_id)].start_y,
            ) <= s.config.detection_threshold,
    ensures
        spec_run(s, updates_of(touch_id, moves)).state == s,
        spec_run(s, updates_of(touch_id, moves)).decisions == Seq::<Decision>::empty(),
        spec_run(s, updates_of(touch_id, moves)).gestures == Seq::<GestureEvent>::empty(),
    decreases moves.len(),
{
    if moves.len() > 0 {
        lemma_small_move_is_no_op(s, touch_id, moves[0].0, moves[0].1);
        assert(updates_of(touch_id, moves)[0] == (TouchEvent::Update {
            touch_id,
            x: moves[0].0,
            y: moves[0].1,
        }));
        assert(updates_of(touch_id, moves).drop_first() =~= updates_of(
            touch_id,
            moves.drop_first(),
        ));
        assert(forall|k: int|
            0 <= k < moves.drop_first().len() ==> moves.drop_first()[k] == moves[k + 1]);
        lemma_small_moves_change_nothing(s, touch_id, moves.drop_first());
        assert(spec_run(s, updates_of(touch_id, moves)).decisions =~= Seq::<Decision>::empty());
        assert(spec_run(s, updates_of(touch_id, moves)).gestures =~= Seq::<
            GestureEvent,
        >::empty());
    }
}

/// Law: a touch that ends still undecided ruins the epoch: no gesture
/// completes on this event, and the epoch is left ruined, or wholly reset
/// when this touch was the last.
pub proof fn lemma_end_undecided_ruins(s: DetectorModel, touch_id: i32, x: i32, y: i32)
    requires
        s.wf(),
        !s.ruined,
        tracks(s.touches, touch_id),
        !s.touches[id_index(s.touches, touch_id)].is_decided,
        crate::gesture_detector::abs(
            x - s.touches[id_index(s.touches, touch_id)].start_x,
        ) <= s.config.detection_threshold,
        crate::gesture_detector::abs(
            y - s.touches[id_index(s.touches, touch_id)].start_y,
        ) <= s.config.detection_threshold,
    ensures
        spec_end(s, touch_id, x, y).gesture is None,
        s.touches.len() > 1 ==> spec_end(s, touch_id, x, y).state.ruined,
        s.touches.len() <= 1 ==> epoch_over(spec_end(s, touch_id, x, y).state),
{
    lemma_id_index(s.touches, touch_id);
    lemma_small_move_is_no_op(s, touch_id, x, y);
}

/// Law: a point whose nearest borders tie is assigned no edge, whichever two
/// tie, under the Left, Right, Bottom, Top candidate order.
pub proof fn lemma_edge_tie_gives_none(
    config: crate::config::Config,
    x: int,
    y: int,
    e1: Side,
    e2: Side,
)
    requires
        e1 != e2,
        side_distance(config, x, y, e1) == side_distance(config, x, y, e2),
        side_distance(config, x, y, e1) <= side_distance(config, x, y, Side::Left),
        side_distance(config, x, y, e1) <= side_distance(config, x, y, Side::Right),
        side_distance(config, x, y, e1) <= side_distance(config, x, y, Side::Bottom),
        side_distance(config, x, y, e1) <= side_distance(config, x, y, Side::Top),
    ensures
        spec_touch_side(config, x, y) is None,
{
}

/// A one-event run is one step.
pub proof fn lemma_run_one(s: DetectorModel, e: TouchEvent)
    ensures
        spec_run(s, seq![e]).state == spec_step(s, e).state,
        spec_run(s, seq![e]).decisions == spec_step(s, e).decisions,
        spec_run(s, seq![e]).gestures == (match spec_step(s, e).gesture {
            Some(g) => seq![g],
            None => Seq::<GestureEvent>::empty(),
        }),
{
    let next = spec_step(s, e).state;
    assert(seq![e][0] == e);
    assert(seq![e].drop_first() =~= Seq::<TouchEvent>::empty());
    assert(spec_run(next, Seq::<TouchEvent>::empty()).state == next);
    assert(spec_run(next, Seq::<TouchEvent>::empty()).decisions =~= Seq::<Decision>::empty());
    assert(spec_run(next, Seq::<TouchEvent>::empty()).gestures =~= Seq::<GestureEvent>::empty());
    assert(spec_run(s, seq![e]).decisions =~= spec_step(s, e).decisions);
    assert(spec_run(s, seq![e]).gestures =~= (match spec_step(s, e).gesture {
        Some(g) => seq![g],
        None => Seq::<GestureEvent>::empty(),
    }));
}

/// The plan of one touch in a unanimous swipe: where it begins, and where its
/// movement takes it.
pub struct TouchPlan {
    pub touch_id: i32,
    pub device_id: i32,
    pub start_x: i32,
    pub start_y: i32,
    pub end_x: i32,
    pub end_y: i32,
}

pub open spec fn plan_touch(p: TouchPlan, decided: bool) -> Touch {
    Touch {
        touch_id: p.touch_id,
        device_id: p.device_id,
        start_x: p.start_x,
        start_y: p.start_y,
        is_decided: decided,
    }
}

pub open spec fn accept_of(p: TouchPlan) -> Decision {
    Decision { touch_id: p.touch_id, device_id: p.device_id, accept: true }
}

pub open spec fn plan_begins(plans: Seq<TouchPlan>) -> Seq<TouchEvent> {
    plans.map_values(
        |p: TouchPlan|
            TouchEvent::Begin {
                touch_id: p.touch_id,
                device_id: p.device_id,
                x: p.start_x,
                y: p.start_y,
            },
    )
}

pub open spec fn plan_moves(plans: Seq<TouchPlan>) -> Seq<TouchEvent> {
    plans.map_values(
        |p: TouchPlan| TouchEvent::Update { touch_id: p.touch_id, x: p.end_x, y: p.end_y },
    )
}

pub open spec fn plan_ends(plans: Seq<TouchPlan>) -> Seq<TouchEvent> {
    plans.map_values(
        |p: TouchPlan| TouchEvent::End { touch_id: p.touch_id, x: p.end_x, y: p.end_y },
    )
}

pub open spec fn plan_accepts(plans: Seq<TouchPlan>) -> Seq<Decision> {
    plans.map_values(|p: TouchPlan| accept_of(p))
}

pub open spec fn plan_distinct(plans: Seq<TouchPlan>) -> bool {
    forall|i: int, j: int| 0 <= i < j < plans.len() ==> plans[i].touch_id != plans[j].touch_id
}

pub open spec fn plan_starts_on(config: crate::config::Config, p: TouchPlan, side: Side) -> bool {
    spec_touch_side(config, p.start_x as int, p.start_y as int) == Some(side)
}

pub open spec fn plan_moves_toward(
    config: crate::config::Config,
    p: TouchPlan,
    direction: Direction,
) -> bool {
    spec_touch_direction(
        config.detection_threshold as int,
        p.end_x - p.start_x,
        p.end_y - p.start_y,
    ) == Some(direction)
}

pub open spec fn swipe_state_after_begins(
    config: crate::config::Config,
    plans: Seq<TouchPlan>,
    side: Side,
    k: int,
) -> DetectorModel {
    DetectorModel {
        config,
        touches: plans.take(k).map_values(|p: TouchPlan| plan_touch(p, false)),
        num_touches: 0,
        side: if k == 0 {
            None
        } else {
            Some(side)
        },
        direction: None,
        ruined: false,
        accept_all: false,
    }
}

pub open spec fn swipe_state_after_moves(
    config: crate::config::Config,
    plans: Seq<TouchPlan>,
    side: Side,
    direction: Direction,
    j: int,
) -> DetectorModel {
    DetectorModel {
        config,
        touches: Seq::new(plans.len(), |i: int| plan_touch(plans[i], i < j)),
        num_touches: j as u32,
        side: Some(side),
        direction: if j == 0 {
            None
        } else {
            Some(direction)
        },
        ruined: false,
        accept_all: false,
    }
}

pub open spec fn swipe_state_after_ends(
    config: crate::config::Config,
    plans: Seq<TouchPlan>,
    side: Side,
    direction: Direction,
    m: int,
) -> DetectorModel {
    DetectorModel {
        config,
        touches: Seq::new(
            (plans.len() - m) as nat,
            |i: int| plan_touch(plans[m + i], true),
        ),
        num_touches: plans.len() as u32,
        side: Some(side),
        direction: Some(direction),
        ruined: false,
        accept_all: false,
    }
}

proof fn lemma_swipe_begins(
    config: crate::config::Config,
    plans: Seq<TouchPlan>,
    side: Side,
    k: int,
)
    requires
        config.wf(),
        plan_distinct(plans),
        forall|j: int| 0 <= j < plans.len() ==> plan_starts_on(config, #[trigger] plans[j], side),
        0 <= k <= plans.len(),
    ensures
        spec_run(initial_model(config), plan_begins(plans.take(k))).state
            == swipe_state_after_begins(config, plans, side, k),
        spec_run(initial_model(config), plan_begins(plans.take(k))).decisions == Seq::<
            Decision,
        >::empty(),
        spec_run(initial_model(config), plan_begins(plans.take(k))).gestures == Seq::<
            GestureEvent,
        >::empty(),
    decreases k,
{
    if k == 0 {
        assert(plan_begins(plans.take(0)) =~= Seq::<TouchEvent>::empty());
        assert(swipe_state_after_begins(config, plans, side, 0) =~= initial_model(config));
    } else {
        lemma_swipe_begins(config, plans, side, k - 1);
        let sprev = swipe_state_after_begins(config, plans, side, k - 1);
        let p = plans[k - 1];
        let ev = TouchEvent::Begin {
            touch_id: p.touch_id,
            device_id: p.device_id,
            x: p.start_x,
            y: p.start_y,
        };
        assert(plan_begins(plans.take(k)) =~= plan_begins(plans.take(k - 1)) + seq![ev]);
        lemma_run_add(initial_model(config), plan_begins(plans.take(k - 1)), seq![ev]);
        lemma_run_one(sprev, ev);
        lemma_id_index(sprev.touches, p.touch_id);
        if tracks(sprev.touches, p.touch_id) {
            let i = id_index(sprev.touches, p.touch_id);
            assert(sprev.touches[i] == plan_touch(plans.take(k - 1)[i], false));
            assert(false);
        }
        assert(plan_starts_on(config, plans[k - 1], side));
        let r = spec_begin(sprev, p.touch_id, p.device_id, p.start_x, p.start_y);
        assert(r.state.touches =~= swipe_state_after_begins(config, plans, side, k).touches);
        assert(r.state =~= swipe_state_after_begins(config, plans, side, k));
        assert(r.decisions =~= Seq::<Decision>::empty());
        assert(spec_run(initial_model(config), plan_begins(plans.take(k))).decisions =~= Seq::<
            Decision,
        >::empty());
        assert(spec_run(initial_model(config), plan_begins(plans.take(k))).gestures =~= Seq::<
            GestureEvent,
        >::empty());
    }
}

proof fn lemma_swipe_moves(
    config: crate::config::Config,
    plans: Seq<TouchPlan>,
    side: Side,
    direction: Direction,
    j: int,
)
    requires
        config.wf(),
        plan_distinct(plans),
        1 <= plans.len() <= u32::MAX,
        forall|l: int|
            0 <= l < plans.len() ==> plan_moves_toward(config, #[trigger] plans[l], direction),
        spec_valid_combination(side, direction),
        0 <= j <= plans.len(),
    ensures
        spec_run(
            swipe_state_after_moves(config, plans, side, direction, 0),
            plan_moves(plans.take(j)),
        ).state == swipe_state_after_moves(config, plans, side, direction, j),
        spec_run(
            swipe_state_after_moves(config, plans, side, direction, 0),
            plan_moves(plans.take(j)),
        ).decisions == plan_accepts(plans.take(j)),
        spec_run(
            swipe_state_after_moves(config, plans, side, direction, 0),
            plan_moves(plans.take(j)),
        ).gestures == Seq::<GestureEvent>::empty(),
    decreases j,
{
    let s0 = swipe_state_after_moves(config, plans, side, direction, 0);
    if j == 0 {
        assert(plan_moves(plans.take(0)) =~= Seq::<TouchEvent>::empty());
        assert(plan_accepts(plans.take(0)) =~= Seq::<Decision>::empty());
    } else {
        lemma_swipe_moves(config, plans, side, direction, j - 1);
        let sprev = swipe_state_after_moves(config, plans, side, direction, j - 1);
        let p = plans[j - 1];
        let ev = TouchEvent::Update { touch_id: p.touch_id, x: p.end_x, y: p.end_y };
        assert(plan_moves(plans.take(j)) =~= plan_moves(plans.take(j - 1)) + seq![ev]);
        lemma_run_add(s0, plan_moves(plans.take(j - 1)), seq![ev]);
        lemma_run_one(sprev, ev);
        assert(forall|l: int|
            0 <= l < j - 1 ==> sprev.touches[l].touch_id == plans[l].touch_id);
        lemma_id_index_first(sprev.touches, p.touch_id, j - 1);
        let tch = sprev.touches[j - 1];
        assert(tch == plan_touch(p, false));
        assert(plan_moves_toward(config, plans[j - 1], direction));
        let r = spec_update(sprev, p.touch_id, p.end_x, p.end_y);
        let c = spec_update_classify(sprev, p.touch_id, p.end_x, p.end_y);
        assert(!c.state.ruined);
        assert(c.state.touches =~= swipe_state_after_moves(
            config,
            plans,
            side,
            direction,
            j,
        ).touches);
        assert(c.state =~= swipe_state_after_moves(config, plans, side, direction, j));
        assert(c.decisions =~= seq![accept_of(p)]);
        assert(r == c);
        assert(plan_accepts(plans.take(j)) =~= plan_accepts(plans.take(j - 1)) + seq![
            accept_of(p),
        ]);
        assert(spec_run(s0, plan_moves(plans.take(j))).decisions =~= plan_accepts(
            plans.take(j),
        ));
        assert(spec_run(s0, plan_moves(plans.take(j))).gestures =~= Seq::<GestureEvent>::empty());
    }
}

proof fn lemma_swipe_ends(
    config: crate::config::Config,
    plans: Seq<TouchPlan>,
    side: Side,
    direction: Direction,
    m: int,
)
    requires
        config.wf(),
        plan_distinct(plans),
        1 <= plans.len() <= u32::MAX,
        forall|l: int|
            0 <= l < plans.len() ==> plan_moves_toward(config, #[trigger] plans[l], direction),
        spec_valid_combination(side, direction),
        0 <= m <= plans.len(),
    ensures
        m < plans.len() ==> spec_run(
            swipe_state_after_ends(config, plans, side, direction, 0),
            plan_ends(plans.take(m)),
        ).state == swipe_state_after_ends(config, plans, side, direction, m),
        m == plans.len() ==> spec_run(
            swipe_state_after_ends(config, plans, side, direction, 0),
            plan_ends(plans.take(m)),
        ).state == initial_model(config),
        spec_run(
            swipe_state_after_ends(config, plans, side, direction, 0),
            plan_ends(plans.take(m)),
        ).decisions == Seq::<Decision>::empty(),
        m < plans.len() ==> spec_run(
            swipe_state_after_ends(config, plans, side, direction, 0),
            plan_ends(plans.take(m)),
        ).gestures == Seq::<GestureEvent>::empty(),
        m == plans.len() ==> spec_run(
            swipe_state_after_ends(config, plans, side, direction, 0),
            plan_ends(plans.take(m)),
        ).gestures == seq![
            GestureEvent { side, direction, num_touches: plans.len() as u32 },
        ],
    decreases m,
{
    let s0 = swipe_state_after_ends(config, plans, side, direction, 0);
    if m == 0 {
        assert(plan_ends(plans.take(0)) =~= Seq::<TouchEvent>::empty());
    } else {
        lemma_swipe_ends(config, plans, side, direction, m - 1);
        let sprev = swipe_state_after_ends(config, plans, side, direction, m - 1);
        let p = plans[m - 1];
        let ev = TouchEvent::End { touch_id: p.touch_id, x: p.end_x, y: p.end_y };
        assert(plan_ends(plans.take(m)) =~= plan_ends(plans.take(m - 1)) + seq![ev]);
        lemma_run_add(s0, plan_ends(plans.take(m - 1)), seq![ev]);
        lemma_run_one(sprev, ev);
        assert(sprev.touches[0] == plan_touch(p, true));
        assert(tracks(sprev.touches, p.touch_id));
        assert(id_index(sprev.touches, p.touch_id) == 0);
        assert(plan_moves_toward(config, plans[m - 1], direction));
        let up = spec_update(sprev, p.touch_id, p.end_x, p.end_y);
        let c = spec_update_classify(sprev, p.touch_id, p.end_x, p.end_y);
        assert(c.state == sprev);
        assert(up.state == sprev);
        assert(up.decisions =~= Seq::<Decision>::empty());
        let r = spec_end(sprev, p.touch_id, p.end_x, p.end_y);
        if m < plans.len() {
            assert(sprev.touches.len() > 1);
            assert(r.state.touches =~= swipe_state_after_ends(
                config,
                plans,
                side,
                direction,
                m,
            ).touches);
            assert(r.state =~= swipe_state_after_ends(config, plans, side, direction, m));
            assert(r.gesture is None);
        } else {
            assert(sprev.touches.len() == 1);
            assert(r.state =~= initial_model(config));
            assert(r.gesture == Some(
                GestureEvent { side, direction, num_touches: plans.len() as u32 },
            ));
        }
        assert(spec_run(s0, plan_ends(plans.take(m))).decisions =~= Seq::<Decision>::empty());
        if m < plans.len() {
            assert(spec_run(s0, plan_ends(plans.take(m))).gestures =~= Seq::<
                GestureEvent,
            >::empty());
        } else {
            assert(spec_run(s0, plan_ends(plans.take(m))).gestures =~= seq![
                GestureEvent { side, direction, num_touches: plans.len() as u32 },
            ]);
        }
    }
}

/// Law: touches that all begin in the zone of one edge and all move past the
/// detection threshold in one consistent valid direction, then all end,
/// complete exactly one gesture, whose finger count is the number of touches;
/// each touch receives exactly one decision, its acceptance, and the epoch
/// ends cleanly reset.
pub proof fn lemma_unanimous_swipe_completes(
    config: crate::config::Config,
    plans: Seq<TouchPlan>,
    side: Side,
    direction: Direction,
)
    requires
        config.wf(),
        plan_distinct(plans),
        1 <= plans.len() <= u32::MAX,
        forall|k: int| 0 <= k < plans.len() ==> plan_starts_on(config, #[trigger] plans[k], side),
        forall|k: int|
            0 <= k < plans.len() ==> plan_moves_toward(config, #[trigger] plans[k], direction),
        spec_valid_combination(side, direction),
    ensures
        spec_run(
            initial_model(config),
            plan_begins(plans) + plan_moves(plans) + plan_ends(plans),
        ).gestures == seq![GestureEvent { side, direction, num_touches: plans.len() as u32 }],
        spec_run(
            initial_model(config),
            plan_begins(plans) + plan_moves(plans) + plan_ends(plans),
        ).decisions == plan_accepts(plans),
        spec_run(
            initial_model(config),
            plan_begins(plans) + plan_moves(plans) + plan_ends(plans),
        ).state == initial_model(config),
{
    let n = plans.len() as int;
    let init = initial_model(config);
    assert(plans.take(n) =~= plans);
    lemma_swipe_begins(config, plans, side, n);
    lemma_swipe_moves(config, plans, side, direction, n);
    lemma_swipe_ends(config, plans, side, direction, n);
    assert(swipe_state_after_begins(config, plans, side, n) =~= swipe_state_after_moves(
        config,
        plans,
        side,
        direction,
        0,
    ));
    assert(swipe_state_after_moves(config, plans, side, direction, n) =~= swipe_state_after_ends(
        config,
        plans,
        side,
        direction,
        0,
    ));
    lemma_run_add(init, plan_begins(plans), plan_moves(plans));
    lemma_run_add(init, plan_begins(plans) + plan_moves(plans), plan_ends(plans));
    assert(spec_run(
        init,
        plan_begins(plans) + plan_moves(plans) + plan_ends(plans),
    ).decisions =~= plan_accepts(plans));
    assert(spec_run(
        init,
        plan_begins(plans) + plan_moves(plans) + plan_ends(plans),
    ).gestures =~= seq![GestureEvent { side, direction, num_touches: plans.len() as u32 }]);
}

} // verus!
