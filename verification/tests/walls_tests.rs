// Tests for the background wall layer and its break tracker.

use terralistic::errors::WorldError;
use terralistic::events::EventManager;
use terralistic::walls::events::WallEvent;
use terralistic::walls::layer::Walls;
use terralistic::walls::types::{BreakingWall, Wall};

fn walls_8x8_with_brick() -> (Walls, terralistic::walls::types::WallId) {
    let mut w = Walls::new();
    w.create(8, 8);
    let mut t = Wall::new();
    t.name = "brick".to_owned();
    t.break_time = Some(80);
    let brick = w.register_new_wall_type(t);
    (w, brick)
}

fn drain(events: &mut EventManager<WallEvent>) -> Vec<WallEvent> {
    let mut out = Vec::new();
    while let Some(e) = events.pop_event() {
        out.push(e);
    }
    out
}

#[test]
fn test_wall_set_and_get() {
    let (mut w, brick) = walls_8x8_with_brick();
    w.set_wall_type(2, 2, brick).unwrap();
    assert_eq!(w.get_wall(2, 2).unwrap(), brick);
    assert_eq!(w.get_wall(0, 0).unwrap(), w.clear());
    assert_eq!(w.get_wall(-1, 0).unwrap_err(), WorldError::OutOfBounds);
    assert_eq!(w.get_wall(8, 0).unwrap_err(), WorldError::OutOfBounds);
}

#[test]
fn test_wall_breaking_flow() {
    let (mut w, brick) = walls_8x8_with_brick();
    let mut events: EventManager<WallEvent> = EventManager::new();
    w.set_wall_type(3, 3, brick).unwrap();
    w.start_breaking_wall(&mut events, 3, 3).unwrap();
    assert!(matches!(events.pop_event(), Some(WallEvent::StartedBreaking(e)) if e.x == 3 && e.y == 3));
    w.update_breaking_walls(50).unwrap();
    assert_eq!(w.get_break_progress(3, 3).unwrap(), 50);
    assert_eq!(w.get_wall(3, 3).unwrap(), brick);
    // pause keeps the progress and emits the stop event
    w.stop_breaking_wall(&mut events, 3, 3);
    assert!(matches!(events.pop_event(), Some(WallEvent::StoppedBreaking(e)) if e.x == 3 && e.y == 3));
    w.update_breaking_walls(500).unwrap();
    assert_eq!(w.get_break_progress(3, 3).unwrap(), 50);
    // resume and pass the threshold: the wall clears
    w.start_breaking_wall(&mut events, 3, 3).unwrap();
    w.update_breaking_walls(40).unwrap();
    assert_eq!(w.get_wall(3, 3).unwrap(), w.clear());
    assert_eq!(w.get_break_progress(3, 3).unwrap(), 0);
}

#[test]
fn test_wall_unbreakable_clear_is_noop() {
    let (mut w, _brick) = walls_8x8_with_brick();
    let mut events: EventManager<WallEvent> = EventManager::new();
    // the clear sentinel has no break time, so starting a break does
    // nothing and emits nothing
    w.start_breaking_wall(&mut events, 1, 1).unwrap();
    assert!(drain(&mut events).is_empty());
    w.update_breaking_walls(1000).unwrap();
    assert_eq!(w.get_break_progress(1, 1).unwrap(), 0);
    // stopping without an entry emits nothing either
    w.stop_breaking_wall(&mut events, 1, 1);
    assert!(drain(&mut events).is_empty());
}

#[test]
fn test_wall_break_stage() {
    let (mut w, brick) = walls_8x8_with_brick();
    let mut events: EventManager<WallEvent> = EventManager::new();
    w.set_wall_type(4, 4, brick).unwrap();
    w.start_breaking_wall(&mut events, 4, 4).unwrap();
    w.update_breaking_walls(40).unwrap();
    // 40 * 9 / 80 == 4
    assert_eq!(w.get_break_stage(4, 4).unwrap(), 4);
}

#[test]
fn test_wall_registry() {
    let (w, brick) = walls_8x8_with_brick();
    assert_eq!(w.get_wall_id_by_name(&"brick".to_string()).unwrap(), brick);
    assert_eq!(
        w.get_wall_id_by_name(&"granite".to_string()).unwrap_err(),
        WorldError::NotFound
    );
    assert_eq!(w.get_wall_type(brick).unwrap().get_id(), brick);
    let e = BreakingWall::new((1, 2));
    assert_eq!(e.get_coord(), (1, 2));
}
