use edgy::config::Config;
use edgy::gesture_detector::get_touch_direction;
use edgy::gesture_detector::is_valid_combination;
use edgy::gesture_detector::Direction;
use edgy::gesture_detector::GestureDetector;
use edgy::gesture_detector::Side;

fn config() -> Config {
    Config { screen_width: 1000, screen_height: 1000, zone_width: 50, detection_threshold: 24 }
}

#[test]
fn edge_classification_each_side() {
    let d = GestureDetector::new(config());
    assert_eq!(d.get_touch_side(10, 500), Some(Side::Left));
    assert_eq!(d.get_touch_side(990, 500), Some(Side::Right));
    assert_eq!(d.get_touch_side(500, 995), Some(Side::Bottom));
    assert_eq!(d.get_touch_side(500, 5), Some(Side::Top));
    assert_eq!(d.get_touch_side(500, 500), None);
}

#[test]
fn edge_tie_at_corner_gives_none() {
    // A square surface, the touch exactly on the corner diagonal inside the
    // zone: left and top distances tie, so no edge is chosen.
    let d = GestureDetector::new(config());
    assert_eq!(d.get_touch_side(5, 5), None);
    assert_eq!(d.get_touch_side(0, 0), None);
    // Ties of the other corners behave the same way.
    assert_eq!(d.get_touch_side(994, 994), None);
    assert_eq!(d.get_touch_side(5, 994), None);
}

#[test]
fn direction_classification() {
    let c = config();
    assert_eq!(get_touch_direction(&c, 0, 0, 100, 0), Some(Direction::Right));
    assert_eq!(get_touch_direction(&c, 100, 0, 0, 0), Some(Direction::Left));
    assert_eq!(get_touch_direction(&c, 0, 0, 0, 100), Some(Direction::Down));
    assert_eq!(get_touch_direction(&c, 0, 100, 0, 0), Some(Direction::Up));
    // Sub-threshold movement on both axes reads no direction.
    assert_eq!(get_touch_direction(&c, 0, 0, 10, 5), None);
    // Exactly the threshold is not enough.
    assert_eq!(get_touch_direction(&c, 0, 0, 24, 0), None);
    assert_eq!(get_touch_direction(&c, 0, 0, 25, 0), Some(Direction::Right));
    // An exact diagonal is ambiguous.
    assert_eq!(get_touch_direction(&c, 0, 0, 50, 50), None);
}

#[test]
fn valid_combinations() {
    assert!(is_valid_combination(Side::Left, Direction::Left));
    assert!(is_valid_combination(Side::Left, Direction::Right));
    assert!(is_valid_combination(Side::Right, Direction::Left));
    assert!(is_valid_combination(Side::Right, Direction::Right));
    assert!(is_valid_combination(Side::Top, Direction::Up));
    assert!(is_valid_combination(Side::Top, Direction::Down));
    assert!(is_valid_combination(Side::Bottom, Direction::Up));
    assert!(is_valid_combination(Side::Bottom, Direction::Down));
    assert!(!is_valid_combination(Side::Left, Direction::Up));
    assert!(!is_valid_combination(Side::Left, Direction::Down));
    assert!(!is_valid_combination(Side::Top, Direction::Left));
    assert!(!is_valid_combination(Side::Bottom, Direction::Right));
}

#[test]
fn three_finger_swipe_completes_once() {
    let mut d = GestureDetector::new(config());
    // Three touches begin inside the bottom zone: no decisions yet.
    assert!(d.handle_touch_start(1, 2, 400, 990).is_empty());
    assert!(d.handle_touch_start(2, 2, 500, 990).is_empty());
    assert!(d.handle_touch_start(3, 2, 600, 990).is_empty());
    // Each moves up past the threshold: each is accepted exactly once.
    for id in 1..=3 {
        let ds = d.handle_touch_update(id, 100 * id + 300, 900);
        assert_eq!(ds.len(), 1);
        assert_eq!(ds[0].touch_id, id);
        assert_eq!(ds[0].device_id, 2);
        assert!(ds[0].accept);
    }
    // A second qualifying update decides nothing further.
    assert!(d.handle_touch_update(1, 400, 880).is_empty());
    // The first two ends do not finalize.
    let (ds, g) = d.handle_touch_end(1, 400, 900);
    assert!(ds.is_empty());
    assert!(g.is_none());
    let (ds, g) = d.handle_touch_end(2, 500, 900);
    assert!(ds.is_empty());
    assert!(g.is_none());
    // The last end completes the gesture exactly once, with the touch count.
    let (ds, g) = d.handle_touch_end(3, 600, 900);
    assert!(ds.is_empty());
    let g = g.expect("gesture must complete");
    assert_eq!(g.side, Side::Bottom);
    assert_eq!(g.direction, Direction::Up);
    assert_eq!(g.num_touches, 3);
    // The epoch reset: a late event for a gone touch is a no-op.
    assert!(d.handle_touch_update(3, 600, 900).is_empty());
}

#[test]
fn foreign_edge_ruins_epoch() {
    let mut d = GestureDetector::new(config());
    assert!(d.handle_touch_start(7, 2, 500, 990).is_empty());
    // A touch on the left edge while the bottom epoch is live: it is
    // rejected, and the undecided live touch is force-rejected.
    let ds = d.handle_touch_start(8, 2, 5, 500);
    assert_eq!(ds.len(), 2);
    assert_eq!(ds[0].touch_id, 8);
    assert!(!ds[0].accept);
    assert_eq!(ds[1].touch_id, 7);
    assert!(!ds[1].accept);
    // No gesture can complete in the ruined epoch.
    assert!(d.handle_touch_update(7, 500, 900).is_empty());
    let (ds, g) = d.handle_touch_end(7, 500, 900);
    assert!(ds.is_empty());
    assert!(g.is_none());
}

#[test]
fn interior_touch_ruins_epoch() {
    let mut d = GestureDetector::new(config());
    assert!(d.handle_touch_start(1, 2, 500, 990).is_empty());
    let ds = d.handle_touch_start(2, 2, 500, 500);
    assert_eq!(ds.len(), 2);
    assert_eq!(ds[0].touch_id, 2);
    assert!(!ds[0].accept);
    assert_eq!(ds[1].touch_id, 1);
    assert!(!ds[1].accept);
}

#[test]
fn interior_touch_alone_rejects_without_ruining() {
    let mut d = GestureDetector::new(config());
    // No gesture is live: the interior touch is rejected and nothing more.
    let ds = d.handle_touch_start(1, 2, 500, 500);
    assert_eq!(ds.len(), 1);
    assert_eq!(ds[0].touch_id, 1);
    assert!(!ds[0].accept);
    // The epoch is not ruined: a fresh gesture still completes.
    assert!(d.handle_touch_start(2, 2, 500, 990).is_empty());
    assert_eq!(d.handle_touch_update(2, 500, 900).len(), 1);
    let (_, g) = d.handle_touch_end(2, 500, 900);
    assert!(g.is_some());
}

#[test]
fn small_movement_stays_undecided_and_ruins_on_end() {
    let mut d = GestureDetector::new(config());
    assert!(d.handle_touch_start(1, 2, 500, 990).is_empty());
    assert!(d.handle_touch_start(2, 2, 600, 990).is_empty());
    // Movement within the threshold decides nothing.
    assert!(d.handle_touch_update(1, 510, 980).is_empty());
    // The touch ends undecided: the epoch is ruined; its record is dropped.
    let (ds, g) = d.handle_touch_end(1, 510, 980);
    assert!(ds.is_empty());
    assert!(g.is_none());
    // The other touch's next event delivers its forced rejection, and the
    // epoch finishes without a gesture.
    let (ds, g) = d.handle_touch_end(2, 600, 985);
    assert_eq!(ds.len(), 1);
    assert_eq!(ds[0].touch_id, 2);
    assert!(!ds[0].accept);
    assert!(g.is_none());
}

#[test]
fn conflicting_direction_ruins_epoch() {
    let mut d = GestureDetector::new(config());
    assert!(d.handle_touch_start(1, 2, 400, 990).is_empty());
    assert!(d.handle_touch_start(2, 2, 600, 990).is_empty());
    // The first touch sets the direction and is accepted.
    let ds = d.handle_touch_update(1, 400, 900);
    assert_eq!(ds.len(), 1);
    assert!(ds[0].accept);
    // The second moves the other way: the epoch is ruined and the undecided
    // touch is force-rejected.
    let ds = d.handle_touch_update(2, 600, 1080);
    assert_eq!(ds.len(), 1);
    assert_eq!(ds[0].touch_id, 2);
    assert!(!ds[0].accept);
    // No gesture completes.
    let (_, g) = d.handle_touch_end(1, 400, 900);
    assert!(g.is_none());
    let (_, g) = d.handle_touch_end(2, 600, 1080);
    assert!(g.is_none());
}

#[test]
fn invalid_pairing_ruins_epoch() {
    let mut d = GestureDetector::new(config());
    // A bottom-edge touch moving sideways is an invalid pairing.
    assert!(d.handle_touch_start(1, 2, 500, 990).is_empty());
    let ds = d.handle_touch_update(1, 700, 990);
    assert_eq!(ds.len(), 1);
    assert_eq!(ds[0].touch_id, 1);
    assert!(!ds[0].accept);
    let (ds, g) = d.handle_touch_end(1, 700, 990);
    assert!(ds.is_empty());
    assert!(g.is_none());
}

#[test]
fn at_most_one_decision_per_touch() {
    let mut d = GestureDetector::new(config());
    assert!(d.handle_touch_start(5, 2, 990, 500).is_empty());
    let mut decisions_for_5 = 0;
    decisions_for_5 += d
        .handle_touch_update(5, 900, 500)
        .iter()
        .filter(|x| x.touch_id == 5)
        .count();
    decisions_for_5 += d
        .handle_touch_update(5, 850, 500)
        .iter()
        .filter(|x| x.touch_id == 5)
        .count();
    let (ds, g) = d.handle_touch_end(5, 850, 500);
    decisions_for_5 += ds.iter().filter(|x| x.touch_id == 5).count();
    assert_eq!(decisions_for_5, 1);
    let g = g.expect("gesture must complete");
    assert_eq!(g.side, Side::Right);
    assert_eq!(g.direction, Direction::Left);
    assert_eq!(g.num_touches, 1);
}

#[test]
fn passthrough_accepts_everything_and_blocks_gestures() {
    let mut d = GestureDetector::new(config());
    d.set_accept_all(true);
    // A begin in the zone is accepted at once.
    let ds = d.handle_touch_start(1, 2, 500, 990);
    assert_eq!(ds.len(), 1);
    assert!(ds[0].accept);
    // An interior begin is "rejected", which passthrough turns into accept;
    // the live touch was already accepted, so it is not decided again.
    let ds = d.handle_touch_start(2, 2, 500, 500);
    assert_eq!(ds.len(), 1);
    assert!(ds[0].accept);
    assert_eq!(ds[0].touch_id, 2);
    // Movement decides nothing further, and no gesture completes.
    assert!(d.handle_touch_update(1, 500, 900).is_empty());
    let (ds, g) = d.handle_touch_end(1, 500, 900);
    assert!(ds.is_empty());
    assert!(g.is_none());
}

#[test]
fn ruined_epoch_rejects_new_touches() {
    let mut d = GestureDetector::new(config());
    assert!(d.handle_touch_start(1, 2, 500, 990).is_empty());
    let _ = d.handle_touch_start(2, 2, 500, 500);
    // While ruined, every new touch is rejected outright.
    let ds = d.handle_touch_start(3, 2, 400, 990);
    assert_eq!(ds.len(), 1);
    assert_eq!(ds[0].touch_id, 3);
    assert!(!ds[0].accept);
}
