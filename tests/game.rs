use network::game::{player_input_system, tile_transform_system, MovementDirection, Player, Tile, TileSpawnable};
use network::network_entity::Entity;

#[test]
fn tile_translation_in_pixels() {
    assert_eq!(Tile { x: 2, y: 3, z: 1 }.to_translation(), (64, 112));
    assert_eq!(Tile { x: -1, y: 0, z: -2 }.to_translation(), (-32, -32));
    let far = Tile { x: i32::MAX, y: i32::MIN, z: i32::MIN };
    assert_eq!(far.to_translation(), (i32::MAX as i64 * 32, i32::MIN as i64 * 48));
}

#[test]
fn tile_transforms_follow_tiles() {
    let spawnable = TileSpawnable { tile: Tile { x: 1, y: 1, z: 0 } };
    let tiles = vec![spawnable.tile, Tile { x: 0, y: 0, z: 2 }];
    assert_eq!(tile_transform_system(&tiles), vec![(32, 32), (0, 32)]);
}

#[test]
fn keys_set_the_direction() {
    let mut direction = MovementDirection { x: 0, y: 0 };
    player_input_system(true, false, false, true, &mut direction);
    assert_eq!(direction, MovementDirection { x: -1, y: 1 });
    player_input_system(true, true, true, true, &mut direction);
    assert_eq!(direction, MovementDirection { x: 0, y: 0 });
    player_input_system(false, true, true, false, &mut direction);
    assert_eq!(direction, MovementDirection { x: 1, y: -1 });
}

#[test]
fn player_starts_without_objects() {
    let player = Player { entity: None, camera: None };
    assert_eq!(player.entity, None);
    let placed = Player { entity: Some(Entity(1)), camera: Some(Entity(2)) };
    assert_ne!(player, placed);
}
