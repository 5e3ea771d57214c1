// Tests for coordinate translation.

use terralistic::errors::WorldError;
use terralistic::world_map::WorldMap;

#[test]
fn test_translate_coords() {
    let m = WorldMap::new((4, 3));
    assert_eq!(m.get_size(), (4, 3));
    assert_eq!(m.translate_coords(0, 0).unwrap(), 0);
    assert_eq!(m.translate_coords(1, 0).unwrap(), 3);
    assert_eq!(m.translate_coords(2, 2).unwrap(), 8);
    assert_eq!(m.translate_coords(3, 2).unwrap(), 11);
    assert_eq!(m.translate_coords(4, 0).unwrap_err(), WorldError::OutOfBounds);
    assert_eq!(m.translate_coords(0, 3).unwrap_err(), WorldError::OutOfBounds);
    assert_eq!(m.translate_coords(-1, 1).unwrap_err(), WorldError::OutOfBounds);
}

#[test]
fn test_translate_chunk_coords() {
    let m = WorldMap::new((64, 32));
    assert_eq!(m.translate_chunk_coords(0, 0).unwrap(), 0);
    assert_eq!(m.translate_chunk_coords(3, 1).unwrap(), 7);
    assert_eq!(m.translate_chunk_coords(4, 0).unwrap_err(), WorldError::OutOfBounds);
    assert_eq!(m.translate_chunk_coords(0, 2).unwrap_err(), WorldError::OutOfBounds);
}

#[test]
fn test_empty_map() {
    let m = WorldMap::new_empty();
    assert_eq!(m.get_size(), (0, 0));
    assert_eq!(m.translate_coords(0, 0).unwrap_err(), WorldError::OutOfBounds);
}
