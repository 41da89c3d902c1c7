use platformer::entity::EntityType;
use platformer::tile::TileType;

#[test]
fn from_char_knows_the_three_tiles() {
    assert_eq!(TileType::from_char('g'), Some(TileType::Grass));
    assert_eq!(TileType::from_char('d'), Some(TileType::Dirt));
    assert_eq!(TileType::from_char('s'), Some(TileType::Stone));
}

#[test]
fn from_char_rejects_everything_else() {
    assert_eq!(TileType::from_char(' '), None);
    assert_eq!(TileType::from_char('G'), None);
    assert_eq!(TileType::from_char('x'), None);
    assert_eq!(TileType::from_char('\n'), None);
    assert_eq!(TileType::from_char('\r'), None);
    assert_eq!(TileType::from_char('\u{1F600}'), None);
}

#[test]
fn tile_texture_offsets() {
    assert_eq!(TileType::Grass.texture_offset(), (0, 0));
    assert_eq!(TileType::Dirt.texture_offset(), (1, 0));
    assert_eq!(TileType::Stone.texture_offset(), (2, 0));
}

#[test]
fn player_texture_offset() {
    assert_eq!(EntityType::Player.texture_offset(), (0, 7));
}
