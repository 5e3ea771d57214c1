// Tests for the block grid: placement, reads, the breaking state machine,
// big blocks and the snapshot round trip.

use terralistic::blocks::breaking::BreakingBlock;
use terralistic::blocks::events::BlockEvent;
use terralistic::blocks::grid::Blocks;
use terralistic::blocks::types::{Block, BlockId, Tool};
use terralistic::errors::WorldError;
use terralistic::events::EventManager;
use terralistic::items::{ItemId, ItemStack};

fn world_10x10() -> Blocks {
    let mut b = Blocks::new();
    b.create(10, 10);
    b
}

fn register(b: &mut Blocks, name: &str, break_time: Option<i32>) -> BlockId {
    let mut t = Block::new();
    t.name = name.to_owned();
    t.break_time = break_time;
    b.register_new_block_type(t)
}

fn drain_events(events: &mut EventManager<BlockEvent>) -> Vec<BlockEvent> {
    let mut out = Vec::new();
    while let Some(e) = events.pop_event() {
        out.push(e);
    }
    out
}

#[test]
fn test_set_then_get() {
    let mut b = world_10x10();
    let stone = register(&mut b, "stone", Some(100));
    let mut events: EventManager<BlockEvent> = EventManager::new();
    for x in 0..10 {
        for y in 0..10 {
            b.set_block(&mut events, x, y, stone).unwrap();
            assert_eq!(b.get_block(x, y).unwrap(), stone);
        }
    }
}

#[test]
fn test_out_of_bounds_accessors() {
    let b = world_10x10();
    assert_eq!(b.get_block(-1, 0).unwrap_err(), WorldError::OutOfBounds);
    assert_eq!(b.get_block(0, 10).unwrap_err(), WorldError::OutOfBounds);
    assert_eq!(b.get_block_from_main(10, 0).unwrap_err(), WorldError::OutOfBounds);
    assert_eq!(b.get_block_data(0, -1).unwrap_err(), WorldError::OutOfBounds);
    assert_eq!(b.get_block_inventory_data(11, 11).unwrap_err(), WorldError::OutOfBounds);
    assert_eq!(b.get_break_progress(-5, 2).unwrap_err(), WorldError::OutOfBounds);
    assert_eq!(b.get_block_inventory_size(0, 100).unwrap_err(), WorldError::OutOfBounds);
}

#[test]
fn test_set_big_block_idempotent_emits_once() {
    let mut b = world_10x10();
    let stone = register(&mut b, "stone", Some(100));
    let mut events: EventManager<BlockEvent> = EventManager::new();
    b.set_big_block(&mut events, 2, 2, stone, (0, 0)).unwrap();
    b.set_big_block(&mut events, 2, 2, stone, (0, 0)).unwrap();
    let evs = drain_events(&mut events);
    let changes = evs
        .iter()
        .filter(|e| matches!(e, BlockEvent::Change(_)))
        .count();
    assert_eq!(changes, 1);
}

#[test]
fn test_breaking_scenario() {
    let mut b = world_10x10();
    let stone = register(&mut b, "stone", Some(100));
    let mut events: EventManager<BlockEvent> = EventManager::new();
    b.set_block(&mut events, 3, 3, stone).unwrap();
    b.start_breaking_block(&mut events, 3, 3, None, 0).unwrap();
    b.update_breaking_blocks(&mut events, 50).unwrap();
    assert_eq!(b.get_break_progress(3, 3).unwrap(), 50);
    assert_eq!(b.get_block(3, 3).unwrap(), stone);
    b.update_breaking_blocks(&mut events, 60).unwrap();
    assert_eq!(b.get_break_progress(3, 3).unwrap(), 0);
    assert_eq!(b.get_block(3, 3).unwrap(), b.air());
}

#[test]
fn test_breaking_pause_resumes_from_retained_progress() {
    let mut b = world_10x10();
    let stone = register(&mut b, "stone", Some(100));
    let mut events: EventManager<BlockEvent> = EventManager::new();
    b.set_block(&mut events, 1, 1, stone).unwrap();
    b.start_breaking_block(&mut events, 1, 1, None, 0).unwrap();
    b.update_breaking_blocks(&mut events, 40).unwrap();
    b.stop_breaking_block(&mut events, 1, 1).unwrap();
    b.update_breaking_blocks(&mut events, 500).unwrap();
    assert_eq!(b.get_break_progress(1, 1).unwrap(), 40);
    assert_eq!(b.get_block(1, 1).unwrap(), stone);
    b.start_breaking_block(&mut events, 1, 1, None, 0).unwrap();
    b.update_breaking_blocks(&mut events, 30).unwrap();
    assert_eq!(b.get_break_progress(1, 1).unwrap(), 70);
}

#[test]
fn test_unbreakable_start_is_noop() {
    let mut b = world_10x10();
    let bedrock = register(&mut b, "bedrock", None);
    let mut events: EventManager<BlockEvent> = EventManager::new();
    b.set_block(&mut events, 4, 4, bedrock).unwrap();
    drain_events(&mut events);
    b.start_breaking_block(&mut events, 4, 4, None, 100).unwrap();
    assert!(drain_events(&mut events).is_empty());
    assert!(b.get_breaking_blocks().is_empty());
}

#[test]
fn test_tool_gating() {
    let mut b = world_10x10();
    let mut t = Block::new();
    t.name = "ore".to_owned();
    t.break_time = Some(100);
    let mut pickaxe = Tool::new();
    pickaxe.name = "pickaxe".to_owned();
    let pickaxe_id = b.register_new_tool_type(pickaxe);
    t.effective_tool = Some(pickaxe_id);
    t.required_tool_power = 5;
    let ore = b.register_new_block_type(t);

    let mut events: EventManager<BlockEvent> = EventManager::new();
    b.set_block(&mut events, 5, 5, ore).unwrap();
    drain_events(&mut events);

    // no tool: silently rejected
    b.start_breaking_block(&mut events, 5, 5, None, 100).unwrap();
    assert!(drain_events(&mut events).is_empty());
    assert!(b.get_breaking_blocks().is_empty());

    // right tool, not enough power: silently rejected
    b.start_breaking_block(&mut events, 5, 5, Some(pickaxe_id), 4).unwrap();
    assert!(drain_events(&mut events).is_empty());
    assert!(b.get_breaking_blocks().is_empty());

    // right tool and power: the break starts
    b.start_breaking_block(&mut events, 5, 5, Some(pickaxe_id), 5).unwrap();
    assert_eq!(drain_events(&mut events).len(), 1);
    assert_eq!(b.get_breaking_blocks().len(), 1);
}

#[test]
fn test_break_stage_formula() {
    let mut b = world_10x10();
    let stone = register(&mut b, "stone", Some(100));
    let mut events: EventManager<BlockEvent> = EventManager::new();
    b.set_block(&mut events, 3, 3, stone).unwrap();
    b.set_break_progress(3, 3, 50).unwrap();
    // 50 * 9 / 100 == 4
    assert_eq!(b.get_break_stage(3, 3).unwrap(), 4);
    b.set_break_progress(3, 3, 100).unwrap();
    assert_eq!(b.get_break_stage(3, 3).unwrap(), 9);
    assert_eq!(b.get_break_stage(0, 0).unwrap(), 0);
}

#[test]
fn test_inventory_size_mismatch_and_event_once() {
    let mut b = world_10x10();
    let mut t = Block::new();
    t.name = "chest".to_owned();
    t.inventory_slots = vec![(0, 0), (1, 0)];
    let chest = b.register_new_block_type(t);
    let mut events: EventManager<BlockEvent> = EventManager::new();
    b.set_block(&mut events, 2, 2, chest).unwrap();
    drain_events(&mut events);

    assert_eq!(
        b.set_block_inventory_data(2, 2, vec![None], &mut events).unwrap_err(),
        WorldError::SizeMismatch
    );
    assert!(drain_events(&mut events).is_empty());

    let stack = Some(ItemStack::new(ItemId { id: 7 }, 3));
    b.set_block_inventory_data(2, 2, vec![stack, None], &mut events).unwrap();
    assert_eq!(drain_events(&mut events).len(), 1);
    // writing identical data again emits nothing
    b.set_block_inventory_data(2, 2, vec![stack, None], &mut events).unwrap();
    assert!(drain_events(&mut events).is_empty());
    assert_eq!(b.get_block_inventory_data(2, 2).unwrap(), vec![stack, None]);
    assert_eq!(b.get_block_inventory_size(2, 2).unwrap(), 2);
}

#[test]
fn test_big_block_stamp_and_collapse() {
    let mut b = world_10x10();
    let mut t = Block::new();
    t.name = "bench".to_owned();
    t.width = 2;
    t.height = 1;
    let bench = b.register_new_block_type(t);
    let mut events: EventManager<BlockEvent> = EventManager::new();
    b.set_big_block(&mut events, 0, 0, bench, (0, 0)).unwrap();
    b.update_block(0, 0, &mut events).unwrap();
    assert_eq!(b.get_block(1, 0).unwrap(), bench);
    assert_eq!(b.get_block_from_main(1, 0).unwrap(), (1, 0));

    let air = b.air();
    b.set_block(&mut events, 0, 0, air).unwrap();
    b.update_block(1, 0, &mut events).unwrap();
    assert_eq!(b.get_block(1, 0).unwrap(), air);
}

#[test]
fn test_big_block_cascade_two_by_two() {
    let mut b = world_10x10();
    let mut t = Block::new();
    t.name = "door".to_owned();
    t.width = 2;
    t.height = 2;
    let door = b.register_new_block_type(t);
    let mut events: EventManager<BlockEvent> = EventManager::new();
    b.set_big_block(&mut events, 4, 4, door, (0, 0)).unwrap();
    // two passes stamp the whole footprint
    b.update_block(4, 4, &mut events).unwrap();
    b.update_block(5, 4, &mut events).unwrap();
    b.update_block(4, 5, &mut events).unwrap();
    assert_eq!(b.get_block(5, 5).unwrap(), door);
    assert_eq!(b.get_block_from_main(5, 5).unwrap(), (1, 1));

    // destroy the main cell: the others collapse on their next pass
    let air = b.air();
    b.set_block(&mut events, 4, 4, air).unwrap();
    b.update_block(5, 4, &mut events).unwrap();
    b.update_block(4, 5, &mut events).unwrap();
    b.update_block(5, 5, &mut events).unwrap();
    assert_eq!(b.get_block(4, 4).unwrap(), air);
    assert_eq!(b.get_block(5, 4).unwrap(), air);
    assert_eq!(b.get_block(4, 5).unwrap(), air);
    assert_eq!(b.get_block(5, 5).unwrap(), air);
}

#[test]
fn test_break_block_resolves_to_main_cell() {
    let mut b = world_10x10();
    let mut t = Block::new();
    t.name = "bench".to_owned();
    t.width = 2;
    t.height = 1;
    let bench = b.register_new_block_type(t);
    let mut events: EventManager<BlockEvent> = EventManager::new();
    b.set_big_block(&mut events, 3, 3, bench, (0, 0)).unwrap();
    b.update_block(3, 3, &mut events).unwrap();
    // breaking the continuation cell clears the main cell
    b.break_block(&mut events, 4, 3).unwrap();
    assert_eq!(b.get_block(3, 3).unwrap(), b.air());
}

#[test]
fn test_serialize_round_trip() {
    let mut b = world_10x10();
    let stone = register(&mut b, "stone", Some(100));
    let mut t = Block::new();
    t.name = "chest".to_owned();
    t.inventory_slots = vec![(0, 0)];
    let chest = b.register_new_block_type(t);

    let mut events: EventManager<BlockEvent> = EventManager::new();
    b.set_block(&mut events, 1, 2, stone).unwrap();
    b.set_block(&mut events, 7, 7, chest).unwrap();
    b.set_big_block(&mut events, 9, 9, stone, (3, 1)).unwrap();
    b.set_block_data(5, 5, vec![1, 2, 3, 250]).unwrap();
    b.set_block_inventory_data(
        7,
        7,
        vec![Some(ItemStack::new(ItemId { id: 42 }, 9))],
        &mut events,
    )
    .unwrap();

    let bytes = b.serialize().unwrap();
    let mut restored = Blocks::new();
    restored.deserialize(&bytes).unwrap();

    assert_eq!(restored.get_width(), 10);
    assert_eq!(restored.get_height(), 10);
    for x in 0..10 {
        for y in 0..10 {
            assert_eq!(restored.get_block(x, y).unwrap(), b.get_block(x, y).unwrap());
            assert_eq!(
                restored.get_block_from_main(x, y).unwrap(),
                b.get_block_from_main(x, y).unwrap()
            );
            assert_eq!(
                restored.get_block_data(x, y).unwrap(),
                b.get_block_data(x, y).unwrap()
            );
            assert_eq!(
                restored.get_block_inventory_data(x, y).unwrap(),
                b.get_block_inventory_data(x, y).unwrap()
            );
        }
    }
}

#[test]
fn test_deserialize_rejects_garbage() {
    let mut b = world_10x10();
    assert_eq!(
        b.deserialize(&[1, 2, 3, 4, 5]).unwrap_err(),
        WorldError::SerializationFailure
    );
    // the failed load leaves the world untouched
    assert_eq!(b.get_width(), 10);
}

#[test]
fn test_create_from_block_ids() {
    let mut b = Blocks::new();
    let air = b.air();
    let stone = register(&mut b, "stone", Some(100));
    let grid = vec![
        vec![air, stone, air],
        vec![stone, stone, air],
    ];
    b.create_from_block_ids(&grid).unwrap();
    assert_eq!(b.get_width(), 2);
    assert_eq!(b.get_height(), 3);
    assert_eq!(b.get_block(0, 1).unwrap(), stone);
    assert_eq!(b.get_block(1, 2).unwrap(), air);

    let ragged = vec![vec![air, stone], vec![air]];
    assert_eq!(
        b.create_from_block_ids(&ragged).unwrap_err(),
        WorldError::ShapeMismatch
    );
    let empty: Vec<Vec<BlockId>> = Vec::new();
    assert_eq!(b.create_from_block_ids(&empty).unwrap_err(), WorldError::ShapeMismatch);
}

#[test]
fn test_registry_lookup() {
    let mut b = Blocks::new();
    let stone = register(&mut b, "stone", Some(100));
    assert_eq!(b.get_block_id_by_name(&"stone".to_string()).unwrap(), stone);
    assert_eq!(
        b.get_block_id_by_name(&"marble".to_string()).unwrap_err(),
        WorldError::NotFound
    );
    assert_eq!(
        b.get_block_type(BlockId { id: 100 }).unwrap_err(),
        WorldError::UnknownBlockType
    );
    assert_eq!(b.get_block_type(stone).unwrap().name, "stone");
    assert_eq!(b.get_all_block_ids().len(), 2);
    let air_type = b.get_block_type(b.air()).unwrap();
    assert!(air_type.ghost_block && air_type.transparent);
}

#[test]
fn test_breaking_block_struct() {
    let e = BreakingBlock::new((2, 3));
    assert_eq!(e.get_coord(), (2, 3));
    assert_eq!(e.break_progress, 0);
    assert!(e.is_breaking);
}
