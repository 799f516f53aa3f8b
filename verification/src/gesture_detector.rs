use vstd::prelude::*;

use crate::config::Config;

verus! {

/// A screen border where a gesture may originate.
#[derive(PartialEq, Eq, Structural, Debug, Copy, Clone)]
pub enum Side {
    Top,
    Right,
    Bottom,
    Left,
}

/// A direction a touch may travel toward.
#[derive(PartialEq, Eq, Structural, Debug, Copy, Clone)]
pub enum Direction {
    Up,
    Right,
    Down,
    Left,
}

/// Distance of the point from the given screen border.
pub open spec fn side_distance(config: Config, x: int, y: int, side: Side) -> int {
    match side {
        Side::Left => x,
        Side::Top => y,
        Side::Right => config.screen_width - x - 1,
        Side::Bottom => config.screen_height - y - 1,
    }
}

/// Which border, if any, a touch at this point belongs to: the point must be
/// within `zone_width` of some border, and one border must be strictly nearest,
/// the candidates tried in the fixed order Left, Right, Bottom, Top.
pub open spec fn spec_touch_side(config: Config, x: int, y: int) -> Option<Side> {
    let left = side_distance(config, x, y, Side::Left);
    let right = side_distance(config, x, y, Side::Right);
    let bottom = side_distance(config, x, y, Side::Bottom);
    let top = side_distance(config, x, y, Side::Top);
    if left > config.zone_width && right > config.zone_width && bottom > config.zone_width
        && top > config.zone_width {
        None
    } else if left < top && left < bottom && left < right {
        Some(Side::Left)
    } else if right < top && right < bottom && right < left {
        Some(Side::Right)
    } else if bottom < top && bottom < right && bottom < left {
        Some(Side::Bottom)
    } else if top < bottom && top < right && top < left {
        Some(Side::Top)
    } else {
        None
    }
}

pub open spec fn abs(v: int) -> int {
    if v < 0 { -v } else { v }
}

/// The direction of a displacement: the axis with the strictly larger magnitude
/// wins, and only when that magnitude exceeds the threshold; axis ties or
/// sub-threshold movement give no direction.
pub open spec fn spec_touch_direction(threshold: int, diff_x: int, diff_y: int) -> Option<
    Direction,
> {
    if abs(diff_x) > abs(diff_y) && abs(diff_x) > threshold {
        if diff_x > 0 {
            Some(Direction::Right)
        } else {
            Some(Direction::Left)
        }
    } else if abs(diff_y) > abs(diff_x) && abs(diff_y) > threshold {
        if diff_y > 0 {
            Some(Direction::Down)
        } else {
            Some(Direction::Up)
        }
    } else {
        None
    }
}

/// A left or right edge pairs only with a horizontal direction, a top or
/// bottom edge only with a vertical one.
pub open spec fn spec_valid_combination(side: Side, direction: Direction) -> bool {
    ((side == Side::Left || side == Side::Right) && (direction == Direction::Left || direction
        == Direction::Right)) || ((side == Side::Top || side == Side::Bottom) && (direction
        == Direction::Up || direction == Direction::Down))
}

/// Whether a swipe in `direction` is one that can originate at `side`.
pub fn is_valid_combination(side: Side, direction: Direction) -> (r: bool)
    ensures
        r == spec_valid_combination(side, direction),
{
    ((side == Side::Left || side == Side::Right) && (direction == Direction::Left || direction
        == Direction::Right)) || ((side == Side::Top || side == Side::Bottom) && (direction
        == Direction::Up || direction == Direction::Down))
}

/// The direction of the movement from `(start_x, start_y)` to `(end_x, end_y)`,
/// if it is long enough on one axis to be read.
pub fn get_touch_direction(config: &Config, start_x: i32, start_y: i32, end_x: i32, end_y: i32) -> (r:
    Option<Direction>)
    ensures
        r == spec_touch_direction(
            config.detection_threshold as int,
            end_x - start_x,
            end_y - start_y,
        ),
{
    let diff_x: i64 = end_x as i64 - start_x as i64;
    let diff_y: i64 = end_y as i64 - start_y as i64;
    let abs_x: i64 = if diff_x < 0 { -diff_x } else { diff_x };
    let abs_y: i64 = if diff_y < 0 { -diff_y } else { diff_y };
    let threshold: i64 = config.detection_threshold as i64;
    if abs_x > abs_y && abs_x > threshold {
        if diff_x > 0 {
            Some(Direction::Right)
        } else {
            Some(Direction::Left)
        }
    } else if abs_y > abs_x && abs_y > threshold {
        if diff_y > 0 {
            Some(Direction::Down)
        } else {
            Some(Direction::Up)
        }
    } else {
        None
    }
}

/// One touch tracked by the current epoch, with its starting point and whether
/// an accept or reject has already been issued for it.
#[derive(PartialEq, Eq, Structural, Debug, Copy, Clone)]
pub struct Touch {
    pub touch_id: i32,
    pub device_id: i32,
    pub start_x: i32,
    pub start_y: i32,
    pub is_decided: bool,
}

/// One accept (`accept == true`) or reject decision owed to the touch source.
#[derive(PartialEq, Eq, Structural, Debug, Copy, Clone)]
pub struct Decision {
    pub touch_id: i32,
    pub device_id: i32,
    pub accept: bool,
}

/// A completed gesture: its edge, its direction, and how many touches were
/// accepted into it.
#[derive(PartialEq, Eq, Structural, Debug, Copy, Clone)]
pub struct GestureEvent {
    pub side: Side,
    pub direction: Direction,
    pub num_touches: u32,
}

/// The abstract state of a `GestureDetector`.
#[verifier::ext_equal]
pub struct DetectorModel {
    pub config: Config,
    pub touches: Seq<Touch>,
    pub num_touches: u32,
    pub side: Option<Side>,
    pub direction: Option<Direction>,
    pub ruined: bool,
    pub accept_all: bool,
}

/// What one event does to the detector: the state afterwards, the decisions
/// delivered during the call in order, and the gesture completed by it, if any.
#[verifier::ext_equal]
pub struct StepResult {
    pub state: DetectorModel,
    pub decisions: Seq<Decision>,
    pub gesture: Option<GestureEvent>,
}

/// The first position holding `touch_id`, or -1 when there is none.
pub open spec fn id_index(touches: Seq<Touch>, touch_id: i32) -> int
    decreases touches.len(),
{
    if touches.len() == 0 {
        -1
    } else if touches[0].touch_id == touch_id {
        0
    } else {
        let r = id_index(touches.drop_first(), touch_id);
        if r < 0 {
            -1
        } else {
            r + 1
        }
    }
}

/// Whether some tracked touch carries `touch_id`.
pub open spec fn tracks(touches: Seq<Touch>, touch_id: i32) -> bool {
    id_index(touches, touch_id) >= 0
}

/// No two tracked touches share an id.
pub open spec fn distinct_ids(touches: Seq<Touch>) -> bool {
    forall|i: int, j: int|
        0 <= i < j < touches.len() ==> touches[i].touch_id != touches[j].touch_id
}

pub proof fn lemma_id_index(touches: Seq<Touch>, touch_id: i32)
    ensures
        tracks(touches, touch_id) ==> {
            let i = id_index(touches, touch_id);
            &&& 0 <= i < touches.len()
            &&& touches[i].touch_id == touch_id
            &&& forall|j: int| 0 <= j < i ==> touches[j].touch_id != touch_id
        },
        !tracks(touches, touch_id) ==> forall|j: int|
            0 <= j < touches.len() ==> touches[j].touch_id != touch_id,
    decreases touches.len(),
{
    if touches.len() > 0 && touches[0].touch_id != touch_id {
        lemma_id_index(touches.drop_first(), touch_id);
        assert(forall|j: int|
            1 <= j < touches.len() ==> touches[j] == touches.drop_first()[j - 1]);
    }
}

/// Two touch lists with the same ids in the same places index an id alike.
pub proof fn lemma_id_index_same_ids(a: Seq<Touch>, b: Seq<Touch>, touch_id: i32)
    requires
        a.len() == b.len(),
        forall|j: int| 0 <= j < a.len() ==> a[j].touch_id == b[j].touch_id,
    ensures
        id_index(a, touch_id) == id_index(b, touch_id),
    decreases a.len(),
{
    if a.len() > 0 && a[0].touch_id != touch_id {
        lemma_id_index_same_ids(a.drop_first(), b.drop_first(), touch_id);
    }
}

/// The decision delivered on a rejection path: passthrough mode turns every
/// reject into an accept.
pub open spec fn reject_decision(touch_id: i32, device_id: i32, accept_all: bool) -> Decision {
    Decision { touch_id, device_id, accept: accept_all }
}

pub open spec fn accept_decision(t: Touch) -> Decision {
    Decision { touch_id: t.touch_id, device_id: t.device_id, accept: true }
}

/// The decisions delivered when every undecided touch is force-rejected, in
/// the order the touches are tracked.
pub open spec fn forced_decisions(touches: Seq<Touch>, accept_all: bool) -> Seq<Decision>
    decreases touches.len(),
{
    if touches.len() == 0 {
        Seq::empty()
    } else {
        forced_decisions(touches.drop_last(), accept_all) + (if touches.last().is_decided {
            Seq::<Decision>::empty()
        } else {
            seq![
                reject_decision(touches.last().touch_id, touches.last().device_id, accept_all),
            ]
        })
    }
}

pub open spec fn set_decided(t: Touch) -> Touch {
    Touch { is_decided: true, ..t }
}

/// Every tracked touch marked decided.
pub open spec fn all_decided(touches: Seq<Touch>) -> Seq<Touch> {
    touches.map_values(|t: Touch| set_decided(t))
}

/// The touch count grows by one, but never past its widest value.
pub open spec fn inc_sat(n: u32) -> u32 {
    if n == u32::MAX {
        n
    } else {
        (n + 1) as u32
    }
}

impl DetectorModel {
    /// Internal consistency: distinct ids, a positive configuration, and the
    /// epoch fields set in the order the machine sets them.
    pub open spec fn wf(self) -> bool {
        &&& self.config.wf()
        &&& distinct_ids(self.touches)
        &&& (self.touches.len() > 0 ==> self.side is Some)
        &&& (self.direction is Some ==> self.side is Some)
    }
}

/// The state of a freshly constructed detector.
pub open spec fn initial_model(config: Config) -> DetectorModel {
    DetectorModel {
        config,
        touches: Seq::empty(),
        num_touches: 0,
        side: None,
        direction: None,
        ruined: false,
        accept_all: false,
    }
}

/// Epoch fields cleared; configuration and passthrough mode stay.
pub open spec fn spec_reset(s: DetectorModel) -> DetectorModel {
    DetectorModel {
        touches: Seq::empty(),
        side: None,
        direction: None,
        num_touches: 0,
        ruined: false,
        ..s
    }
}

/// Reject the incoming touch with `first`, and when a gesture is live, ruin
/// the epoch and force-reject every undecided active touch.
pub open spec fn ruin_after(s: DetectorModel, first: Seq<Decision>) -> StepResult {
    if s.touches.len() > 0 {
        StepResult {
            state: DetectorModel { touches: all_decided(s.touches), ruined: true, ..s },
            decisions: first + forced_decisions(s.touches, s.accept_all),
            gesture: None,
        }
    } else {
        StepResult { state: s, decisions: first, gesture: None }
    }
}

/// What a begin event does, per the touch-start rules: a ruined epoch rejects
/// outright; an interior touch or an edge mismatch rejects and ruins a live
/// epoch; a touch on the epoch's edge (or the first edge) is tracked, and in
/// passthrough mode accepted at once.
pub open spec fn spec_begin(
    s: DetectorModel,
    touch_id: i32,
    device_id: i32,
    x: i32,
    y: i32,
) -> StepResult {
    if s.ruined {
        StepResult {
            state: s,
            decisions: seq![reject_decision(touch_id, device_id, s.accept_all)],
            gesture: None,
        }
    } else {
        match spec_touch_side(s.config, x as int, y as int) {
            Some(side) => {
                if s.side is Some && s.side != Some(side) {
                    ruin_after(s, seq![reject_decision(touch_id, device_id, s.accept_all)])
                } else {
                    let me = Touch {
                        touch_id,
                        device_id,
                        start_x: x,
                        start_y: y,
                        is_decided: s.accept_all,
                    };
                    StepResult {
                        state: DetectorModel {
                            side: Some(side),
                            touches: s.touches.push(me),
                            ..s
                        },
                        decisions: if s.accept_all {
                            seq![accept_decision(me)]
                        } else {
                            Seq::empty()
                        },
                        gesture: None,
                    }
                }
            },
            None => ruin_after(s, seq![reject_decision(touch_id, device_id, s.accept_all)]),
        }
    }
}

/// What an update event does, per the touch-update rules: an untracked id is
/// ignored; a newly read direction is validated against the edge and, for an
/// undecided touch, accepted and recorded; a matching direction accepts an
/// undecided touch; a conflicting one ruins the epoch. Whenever the epoch is
/// ruined at the end of the call, every undecided touch is force-rejected.
pub open spec fn spec_update(s: DetectorModel, touch_id: i32, x: i32, y: i32) -> StepResult {
    if !tracks(s.touches, touch_id) {
        StepResult { state: s, decisions: Seq::empty(), gesture: None }
    } else {
        let step1 = spec_update_classify(s, touch_id, x, y);
        if step1.state.ruined {
            StepResult {
                state: DetectorModel {
                    touches: all_decided(step1.state.touches),
                    ..step1.state
                },
                decisions: step1.decisions + forced_decisions(
                    step1.state.touches,
                    s.accept_all,
                ),
                gesture: None,
            }
        } else {
            step1
        }
    }
}

/// The direction-classification half of an update event, before any forced
/// rejection of undecided touches.
pub open spec fn spec_update_classify(
    s: DetectorModel,
    touch_id: i32,
    x: i32,
    y: i32,
) -> StepResult {
    {
        let i = id_index(s.touches, touch_id);
        let t = s.touches[i];
        let dir = spec_touch_direction(
            s.config.detection_threshold as int,
            x - t.start_x,
            y - t.start_y,
        );
        if dir is Some && s.direction is None {
            if !spec_valid_combination(s.side.unwrap(), dir.unwrap()) {
                StepResult {
                    state: DetectorModel { ruined: true, ..s },
                    decisions: Seq::empty(),
                    gesture: None,
                }
            } else if !t.is_decided {
                StepResult {
                    state: DetectorModel {
                        direction: dir,
                        num_touches: inc_sat(s.num_touches),
                        touches: s.touches.update(i, set_decided(t)),
                        ..s
                    },
                    decisions: seq![accept_decision(t)],
                    gesture: None,
                }
            } else {
                StepResult { state: s, decisions: Seq::empty(), gesture: None }
            }
        } else if dir is Some && s.direction == dir {
            if !t.is_decided {
                StepResult {
                    state: DetectorModel {
                        num_touches: inc_sat(s.num_touches),
                        touches: s.touches.update(i, set_decided(t)),
                        ..s
                    },
                    decisions: seq![accept_decision(t)],
                    gesture: None,
                }
            } else {
                StepResult { state: s, decisions: Seq::empty(), gesture: None }
            }
        } else if dir is Some {
            StepResult {
                state: DetectorModel { ruined: true, ..s },
                decisions: Seq::empty(),
                gesture: None,
            }
        } else {
            StepResult { state: s, decisions: Seq::empty(), gesture: None }
        }
    }
}

/// What an end event does, per the touch-end rules: the update classification
/// runs first; a touch still undecided ruins the epoch; when this touch is the
/// last one the epoch finalizes, completing the gesture exactly when an edge
/// and a direction are set and the epoch is whole, and resets; otherwise the
/// record is simply dropped.
pub open spec fn spec_end(s: DetectorModel, touch_id: i32, x: i32, y: i32) -> StepResult {
    if !tracks(s.touches, touch_id) {
        StepResult { state: s, decisions: Seq::empty(), gesture: None }
    } else {
        let up = spec_update(s, touch_id, x, y);
        let s1 = up.state;
        let i = id_index(s1.touches, touch_id);
        let s2 = if !s1.touches[i].is_decided {
            DetectorModel { ruined: true, ..s1 }
        } else {
            s1
        };
        if s2.touches.len() <= 1 {
            if s2.direction is Some && s2.side is Some && !s2.ruined {
                StepResult {
                    state: spec_reset(s2),
                    decisions: up.decisions,
                    gesture: Some(
                        GestureEvent {
                            side: s2.side.unwrap(),
                            direction: s2.direction.unwrap(),
                            num_touches: s2.num_touches,
                        },
                    ),
                }
            } else {
                StepResult {
                    state: spec_reset(s2),
                    decisions: up.decisions + forced_decisions(s2.touches, s2.accept_all),
                    gesture: None,
                }
            }
        } else {
            StepResult {
                state: DetectorModel { touches: s2.touches.remove(i), ..s2 },
                decisions: up.decisions,
                gesture: None,
            }
        }
    }
}

/// The ids, and their places, survive an update event.
pub proof fn lemma_update_keeps_ids(s: DetectorModel, touch_id: i32, x: i32, y: i32)
    requires
        s.wf(),
    ensures
        spec_update(s, touch_id, x, y).state.touches.len() == s.touches.len(),
        forall|j: int|
            0 <= j < s.touches.len() ==> spec_update(s, touch_id, x, y).state.touches[j].touch_id
                == s.touches[j].touch_id,
        spec_update(s, touch_id, x, y).state.config == s.config,
        spec_update(s, touch_id, x, y).state.accept_all == s.accept_all,
        spec_update(s, touch_id, x, y).state.side == s.side,
{
    if tracks(s.touches, touch_id) {
        lemma_id_index(s.touches, touch_id);
    }
}

pub proof fn lemma_begin_wf(s: DetectorModel, touch_id: i32, device_id: i32, x: i32, y: i32)
    requires
        s.wf(),
        !tracks(s.touches, touch_id),
    ensures
        spec_begin(s, touch_id, device_id, x, y).state.wf(),
{
    lemma_id_index(s.touches, touch_id);
}

pub proof fn lemma_update_wf(s: DetectorModel, touch_id: i32, x: i32, y: i32)
    requires
        s.wf(),
    ensures
        spec_update(s, touch_id, x, y).state.wf(),
{
    if tracks(s.touches, touch_id) {
        lemma_id_index(s.touches, touch_id);
    }
}

pub proof fn lemma_end_wf(s: DetectorModel, touch_id: i32, x: i32, y: i32)
    requires
        s.wf(),
    ensures
        spec_end(s, touch_id, x, y).state.wf(),
{
    if tracks(s.touches, touch_id) {
        lemma_id_index(s.touches, touch_id);
        lemma_update_wf(s, touch_id, x, y);
        lemma_update_keeps_ids(s, touch_id, x, y);
        let s1 = spec_update(s, touch_id, x, y).state;
        lemma_id_index_same_ids(s.touches, s1.touches, touch_id);
        let i = id_index(s1.touches, touch_id);
        lemma_id_index(s1.touches, touch_id);
        let s2 = if !s1.touches[i].is_decided {
            DetectorModel { ruined: true, ..s1 }
        } else {
            s1
        };
        if s2.touches.len() > 1 {
            let r = s2.touches.remove(i);
            assert forall|a: int, b: int|
                0 <= a < b < r.len() implies r[a].touch_id != r[b].touch_id by {
                assert(r[a] == if a < i {
                    s2.touches[a]
                } else {
                    s2.touches[a + 1]
                });
                assert(r[b] == if b < i {
                    s2.touches[b]
                } else {
                    s2.touches[b + 1]
                });
            }
        }
    }
}

/// The executable gesture classifier: one live epoch of touches, fed a single
/// serialized stream of begin, update and end events, and handing back the
/// accept and reject decisions, and the completed gesture, as values.
pub struct GestureDetector {
    pub config: Config,
    current_num_touches: u32,
    current_side: Option<Side>,
    current_direction: Option<Direction>,
    current_is_ruined: bool,
    active_touches: Vec<Touch>,
    /// Passthrough mode: while set, every decision delivered is an accept.
    pub accept_all: bool,
}

impl View for GestureDetector {
    type V = DetectorModel;

    closed spec fn view(&self) -> DetectorModel {
        DetectorModel {
            config: self.config,
            touches: self.active_touches@,
            num_touches: self.current_num_touches,
            side: self.current_side,
            direction: self.current_direction,
            ruined: self.current_is_ruined,
            accept_all: self.accept_all,
        }
    }
}

impl GestureDetector {
    pub fn new(config: Config) -> (d: GestureDetector)
        requires
            config.wf(),
        ensures
            d@ == initial_model(config),
            d@.wf(),
    {
        let d = GestureDetector {
            config,
            current_num_touches: 0,
            current_side: None,
            current_direction: None,
            current_is_ruined: false,
            active_touches: Vec::new(),
            accept_all: false,
        };
        proof {
            assert(d@ =~= initial_model(config));
        }
        d
    }

    /// Which border, if any, the point belongs to; see `spec_touch_side`.
    pub fn get_touch_side(&self, x: i32, y: i32) -> (r: Option<Side>)
        ensures
            r == spec_touch_side(self@.config, x as int, y as int),
    {
        let left: i64 = x as i64;
        let top: i64 = y as i64;
        let bottom: i64 = self.config.screen_height as i64 - y as i64 - 1;
        let right: i64 = self.config.screen_width as i64 - x as i64 - 1;
        let zone: i64 = self.config.zone_width as i64;
        if left > zone && right > zone && bottom > zone && top > zone {
            None
        } else if left < top && left < bottom && left < right {
            Some(Side::Left)
        } else if right < top && right < bottom && right < left {
            Some(Side::Right)
        } else if bottom < top && bottom < right && bottom < left {
            Some(Side::Bottom)
        } else if top < bottom && top < right && top < left {
            Some(Side::Top)
        } else {
            None
        }
    }

    /// The first tracked position of this id, when there is one.
    fn find_touch(&self, touch_id: i32) -> (r: Option<usize>)
        ensures
            tracks(self@.touches, touch_id) ==> r == Some(
                id_index(self@.touches, touch_id) as usize,
            ),
            !tracks(self@.touches, touch_id) ==> r is None,
    {
        let n = self.active_touches.len();
        let mut i: usize = 0;
        while i < n
            invariant
                n == self.active_touches@.len(),
                i <= n,
                forall|j: int| 0 <= j < i ==> self.active_touches@[j].touch_id != touch_id,
            decreases n - i,
        {
            if self.active_touches[i].touch_id == touch_id {
                proof {
                    lemma_id_index_first(self@.touches, touch_id, i as int);
                }
                return Some(i);
            }
            i += 1;
        }
        proof {
            lemma_id_index(self@.touches, touch_id);
        }
        None
    }

    /// Mark every undecided touch decided and append its forced rejection.
    fn force_reject_undecided(&mut self, decisions: &mut Vec<Decision>)
        ensures
            final(self)@ == (DetectorModel {
                touches: all_decided(old(self)@.touches),
                ..old(self)@
            }),
            final(decisions)@ == old(decisions)@ + forced_decisions(
                old(self)@.touches,
                old(self)@.accept_all,
            ),
    {
        let ghost orig = self.active_touches@;
        let ghost pre = self@;
        let ghost predec = decisions@;
        let accept_all = self.accept_all;
        let n = self.active_touches.len();
        let mut i: usize = 0;
        while i < n
            invariant
                n == self.active_touches@.len(),
                orig.len() == n,
                i <= n,
                self@ == (DetectorModel { touches: self.active_touches@, ..pre }),
                forall|j: int| 0 <= j < i ==> self.active_touches@[j] == set_decided(orig[j]),
                forall|j: int| i <= j < n ==> self.active_touches@[j] == orig[j],
                accept_all == pre.accept_all,
                decisions@ == predec + forced_decisions(orig.take(i as int), accept_all),
            decreases n - i,
        {
            let t = self.active_touches[i];
            proof {
                assert(orig.take(i as int + 1).drop_last() =~= orig.take(i as int));
                assert(orig.take(i as int + 1).last() == orig[i as int]);
            }
            if !t.is_decided {
                decisions.push(
                    Decision { touch_id: t.touch_id, device_id: t.device_id, accept: accept_all },
                );
                let mut nt = t;
                nt.is_decided = true;
                self.active_touches[i] = nt;
            }
            i += 1;
        }
        proof {
            assert(orig.take(n as int) =~= orig);
            assert(self.active_touches@ =~= all_decided(orig));
            assert(final(self)@ =~= (DetectorModel { touches: all_decided(pre.touches), ..pre }));
        }
    }

    /// Handle a touch begin; the returned decisions are owed to the source in
    /// order. The id must not already be live.
    pub fn handle_touch_start(
        &mut self,
        touch_id: i32,
        device_id: i32,
        x: i32,
        y: i32,
    ) -> (decisions: Vec<Decision>)
        requires
            old(self)@.wf(),
            !tracks(old(self)@.touches, touch_id),
        ensures
            final(self)@.wf(),
            final(self)@ == spec_begin(old(self)@, touch_id, device_id, x, y).state,
            decisions@ == spec_begin(old(self)@, touch_id, device_id, x, y).decisions,
    {
        proof {
            lemma_begin_wf(old(self)@, touch_id, device_id, x, y);
        }
        let ghost pre = self@;
        let mut decisions: Vec<Decision> = Vec::new();
        if self.current_is_ruined {
            decisions.push(Decision { touch_id, device_id, accept: self.accept_all });
            proof {
                assert(decisions@ =~= spec_begin(pre, touch_id, device_id, x, y).decisions);
            }
            return decisions;
        }
        match self.get_touch_side(x, y) {
            Some(side) => {
                let mismatch = match self.current_side {
                    Some(cur) => cur != side,
                    None => false,
                };
                if mismatch {
                    decisions.push(Decision { touch_id, device_id, accept: self.accept_all });
                    if self.active_touches.len() > 0 {
                        self.current_is_ruined = true;
                        self.force_reject_undecided(&mut decisions);
                    }
                    proof {
                        assert(self@ =~= spec_begin(pre, touch_id, device_id, x, y).state);
                        assert(decisions@ =~= spec_begin(
                            pre,
                            touch_id,
                            device_id,
                            x,
                            y,
                        ).decisions);
                    }
                } else {
                    if self.accept_all {
                        decisions.push(Decision { touch_id, device_id, accept: true });
                    }
                    self.current_side = Some(side);
                    let decided = self.accept_all;
                    self.active_touches.push(
                        Touch { touch_id, device_id, start_x: x, start_y: y, is_decided: decided },
                    );
                    proof {
                        assert(self@ =~= spec_begin(pre, touch_id, device_id, x, y).state);
                        assert(decisions@ =~= spec_begin(
                            pre,
                            touch_id,
                            device_id,
                            x,
                            y,
                        ).decisions);
                    }
                }
            },
            None => {
                decisions.push(Decision { touch_id, device_id, accept: self.accept_all });
                if self.active_touches.len() > 0 {
                    self.current_is_ruined = true;
                    self.force_reject_undecided(&mut decisions);
                }
                proof {
                    assert(self@ =~= spec_begin(pre, touch_id, device_id, x, y).state);
                    assert(decisions@ =~= spec_begin(pre, touch_id, device_id, x, y).decisions);
                }
            },
        }
        decisions
    }

    /// Handle a touch update; the returned decisions are owed to the source in
    /// order. An unknown id is a required no-op.
    pub fn handle_touch_update(&mut self, touch_id: i32, x: i32, y: i32) -> (decisions: Vec<
        Decision,
    >)
        requires
            old(self)@.wf(),
        ensures
            final(self)@.wf(),
            final(self)@ == spec_update(old(self)@, touch_id, x, y).state,
            decisions@ == spec_update(old(self)@, touch_id, x, y).decisions,
    {
        proof {
            lemma_update_wf(old(self)@, touch_id, x, y);
        }
        let ghost pre = self@;
        let mut decisions: Vec<Decision> = Vec::new();
        let i = match self.find_touch(touch_id) {
            Some(i) => i,
            None => {
                proof {
                    assert(self@ =~= spec_update(pre, touch_id, x, y).state);
                    assert(decisions@ =~= spec_update(pre, touch_id, x, y).decisions);
                }
                return decisions;
            },
        };
        proof {
            lemma_id_index(pre.touches, touch_id);
            assert(self.active_touches.len() == pre.touches.len());
            assert(i as int == id_index(pre.touches, touch_id));
        }
        let t = self.active_touches[i];
        let dir_opt = get_touch_direction(&self.config, t.start_x, t.start_y, x, y);
        match (dir_opt, self.current_direction) {
            (Some(dir), None) => {
                let side = self.current_side.unwrap();
                if !is_valid_combination(side, dir) {
                    self.current_is_ruined = true;
                } else if !t.is_decided {
                    self.current_direction = Some(dir);
                    if self.current_num_touches < u32::MAX {
                        self.current_num_touches = self.current_num_touches + 1;
                    }
                    decisions.push(
                        Decision { touch_id: t.touch_id, device_id: t.device_id, accept: true },
                    );
                    let mut nt = t;
                    nt.is_decided = true;
                    self.active_touches[i] = nt;
                }
            },
            (Some(dir), Some(cur)) => {
                if cur == dir {
                    if !t.is_decided {
                        if self.current_num_touches < u32::MAX {
                            self.current_num_touches = self.current_num_touches + 1;
                        }
                        decisions.push(
                            Decision {
                                touch_id: t.touch_id,
                                device_id: t.device_id,
                                accept: true,
                            },
                        );
                        let mut nt = t;
                        nt.is_decided = true;
                        self.active_touches[i] = nt;
                    }
                } else {
                    self.current_is_ruined = true;
                }
            },
            (None, _) => {},
        }
        proof {
            assert(self@ =~= spec_update_classify(pre, touch_id, x, y).state);
            assert(decisions@ =~= spec_update_classify(pre, touch_id, x, y).decisions);
        }
        if self.current_is_ruined {
            self.force_reject_undecided(&mut decisions);
        }
        proof {
            assert(self@ =~= spec_update(pre, touch_id, x, y).state);
            assert(decisions@ =~= spec_update(pre, touch_id, x, y).decisions);
        }
        decisions
    }

    /// Handle a touch end; the returned decisions are owed to the source in
    /// order, and the gesture, when one is returned, is complete. An unknown
    /// id is a required no-op.
    pub fn handle_touch_end(&mut self, touch_id: i32, x: i32, y: i32) -> (r: (
        Vec<Decision>,
        Option<GestureEvent>,
    ))
        requires
            old(self)@.wf(),
        ensures
            final(self)@.wf(),
            final(self)@ == spec_end(old(self)@, touch_id, x, y).state,
            r.0@ == spec_end(old(self)@, touch_id, x, y).decisions,
            r.1 == spec_end(old(self)@, touch_id, x, y).gesture,
    {
        proof {
            lemma_end_wf(old(self)@, touch_id, x, y);
        }
        let ghost pre = self@;
        let i = match self.find_touch(touch_id) {
            Some(i) => i,
            None => {
                proof {
                    assert(self@ =~= spec_end(pre, touch_id, x, y).state);
                }
                return (Vec::new(), None);
            },
        };
        let mut decisions = self.handle_touch_update(touch_id, x, y);
        proof {
            lemma_id_index(pre.touches, touch_id);
            lemma_update_keeps_ids(pre, touch_id, x, y);
            lemma_id_index_same_ids(pre.touches, self@.touches, touch_id);
        }
        if !self.active_touches[i].is_decided {
            self.current_is_ruined = true;
        }
        if self.active_touches.len() <= 1 {
            let gesture = if self.current_direction.is_some() && self.current_side.is_some()
                && !self.current_is_ruined {
                Some(
                    GestureEvent {
                        side: self.current_side.unwrap(),
                        direction: self.current_direction.unwrap(),
                        num_touches: self.current_num_touches,
                    },
                )
            } else {
                self.force_reject_undecided(&mut decisions);
                None
            };
            self.reset_state();
            proof {
                assert(self@ =~= spec_end(pre, touch_id, x, y).state);
                assert(decisions@ =~= spec_end(pre, touch_id, x, y).decisions);
            }
            (decisions, gesture)
        } else {
            self.active_touches.remove(i);
            proof {
                assert(self@ =~= spec_end(pre, touch_id, x, y).state);
                assert(decisions@ =~= spec_end(pre, touch_id, x, y).decisions);
            }
            (decisions, None)
        }
    }

    /// Whether a live touch with this id is being tracked.
    pub fn is_tracked(&self, touch_id: i32) -> (r: bool)
        ensures
            r == tracks(self@.touches, touch_id),
    {
        self.find_touch(touch_id).is_some()
    }

    /// Whether passthrough mode is on.
    pub fn get_accept_all(&self) -> (r: bool)
        ensures
            r == self@.accept_all,
    {
        self.accept_all
    }

    /// Switch passthrough mode; it takes effect with the very next event.
    pub fn set_accept_all(&mut self, value: bool)
        ensures
            final(self)@ == (DetectorModel { accept_all: value, ..old(self)@ }),
    {
        self.accept_all = value;
        proof {
            assert(self@ =~= (DetectorModel { accept_all: value, ..old(self)@ }));
        }
    }

    /// Clear every epoch field; configuration and passthrough mode stay.
    fn reset_state(&mut self)
        ensures
            final(self)@ == spec_reset(old(self)@),
    {
        self.active_touches.clear();
        self.current_side = None;
        self.current_direction = None;
        self.current_num_touches = 0;
        self.current_is_ruined = false;
        proof {
            assert(self@ =~= spec_reset(old(self)@));
        }
    }
}

pub proof fn lemma_id_index_first(touches: Seq<Touch>, touch_id: i32, i: int)
    requires
        0 <= i < touches.len(),
        touches[i].touch_id == touch_id,
        forall|j: int| 0 <= j < i ==> touches[j].touch_id != touch_id,
    ensures
        id_index(touches, touch_id) == i,
    decreases i,
{
    if i > 0 {
        assert(forall|j: int|
            0 <= j < i - 1 ==> touches.drop_first()[j] == touches[j + 1]);
        lemma_id_index_first(touches.drop_first(), touch_id, i - 1);
    }
}

} // verus!
