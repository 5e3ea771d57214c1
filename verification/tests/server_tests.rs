// Tests for the server-side bridge: placement, break requests, the
// neighbor pass after change events, and the welcome snapshot.

use terralistic::blocks::events::BlockEvent;
use terralistic::blocks::types::Block;
use terralistic::events::EventManager;
use terralistic::server_blocks::ServerBlocks;

fn server_with_bench() -> (ServerBlocks, terralistic::blocks::types::BlockId) {
    let mut s = ServerBlocks::new();
    let bench = {
        let blocks = s.get_blocks_mut();
        blocks.create(10, 10);
        let mut t = Block::new();
        t.name = "bench".to_owned();
        t.width = 2;
        t.height = 1;
        t.break_time = Some(60);
        blocks.register_new_block_type(t)
    };
    (s, bench)
}

#[test]
fn test_place_and_grow_via_events() {
    let (mut s, bench) = server_with_bench();
    let mut events: EventManager<BlockEvent> = EventManager::new();
    let placed = s.on_right_click_place(&mut events, 3, 3, bench).unwrap();
    assert!(placed);
    // drain the change events, running the neighbor pass for each
    while let Some(e) = events.pop_event() {
        if let BlockEvent::Change(c) = e {
            let mut more: EventManager<BlockEvent> = EventManager::new();
            s.on_block_change_event(&mut more, c.x, c.y).unwrap();
            while let Some(e2) = more.pop_event() {
                events.push_event(e2);
            }
        }
    }
    assert_eq!(s.get_blocks().get_block(3, 3).unwrap(), bench);
    assert_eq!(s.get_blocks().get_block(4, 3).unwrap(), bench);
    assert_eq!(s.get_blocks().get_block_from_main(4, 3).unwrap(), (1, 0));

    // a second click on the occupied area places nothing
    let placed_again = s.on_right_click_place(&mut events, 3, 3, bench).unwrap();
    assert!(!placed_again);
}

#[test]
fn test_break_request_flow() {
    let (mut s, bench) = server_with_bench();
    let mut events: EventManager<BlockEvent> = EventManager::new();
    assert!(s.on_right_click_place(&mut events, 2, 2, bench).unwrap());
    while events.pop_event().is_some() {}

    s.on_break_start_request(&mut events, 7, 2, 2, None, 0).unwrap();
    assert!(matches!(events.pop_event(), Some(BlockEvent::StartedBreaking(_))));
    s.update(&mut events, 30).unwrap();
    let stop = s.make_break_stop_packet(2, 2).unwrap();
    assert_eq!(stop.break_time, 30);
    s.on_break_stop_request(&mut events, 7, 2, 2).unwrap();
    s.update(&mut events, 1000).unwrap();
    assert_eq!(s.get_blocks().get_block(2, 2).unwrap(), bench);
    s.on_break_start_request(&mut events, 7, 2, 2, None, 0).unwrap();
    s.update(&mut events, 40).unwrap();
    assert_eq!(s.get_blocks().get_block(2, 2).unwrap(), s.get_blocks().air());
}

#[test]
fn test_welcome_snapshot_restores_world() {
    let (mut s, bench) = server_with_bench();
    let mut events: EventManager<BlockEvent> = EventManager::new();
    assert!(s.on_right_click_place(&mut events, 5, 5, bench).unwrap());
    let welcome = s.on_new_connection().unwrap();

    let mut client = ServerBlocks::new();
    client.load_snapshot(&welcome.data).unwrap();
    assert_eq!(client.get_blocks().get_width(), 10);
    assert_eq!(
        client.get_blocks().get_block(5, 5).unwrap(),
        s.get_blocks().get_block(5, 5).unwrap()
    );
}

#[test]
fn test_change_packet_carries_cell_state() {
    let (mut s, bench) = server_with_bench();
    let mut events: EventManager<BlockEvent> = EventManager::new();
    assert!(s.on_right_click_place(&mut events, 1, 1, bench).unwrap());
    let p = s.make_block_change_packet(1, 1).unwrap();
    assert_eq!(p.x, 1);
    assert_eq!(p.y, 1);
    assert_eq!(p.block, bench);
    assert_eq!((p.from_main_x, p.from_main_y), (0, 0));
    assert!(p.inventory.is_empty());
}

#[test]
fn test_update_block_emits_update_event() {
    let (mut s, bench) = server_with_bench();
    let mut events: EventManager<BlockEvent> = EventManager::new();
    s.update_block(6, 6, &mut events).unwrap();
    // a pass over a plain cell changes nothing but still announces the
    // re-derivation to the mod host
    assert!(matches!(events.pop_event(), Some(BlockEvent::Update(e)) if e.x == 6 && e.y == 6));
    assert!(events.pop_event().is_none());
    // the neighbor pass announces all five cells it visited
    s.on_block_change_event(&mut events, 4, 4).unwrap();
    let mut updates = 0;
    while let Some(e) = events.pop_event() {
        if matches!(e, BlockEvent::Update(_)) {
            updates += 1;
        }
    }
    assert_eq!(updates, 5);
    let _ = bench;
}

