use pole_optimizer::position::BoundingBox;
use pole_optimizer::position::CardinalDirection;
use pole_optimizer::position::CardinalDirection::East;
use pole_optimizer::position::CardinalDirection::North;
use pole_optimizer::position::CardinalDirection::South;
use pole_optimizer::position::CardinalDirection::West;
use pole_optimizer::position::MapPosition;
use pole_optimizer::position::TileBoundingBox;
use pole_optimizer::position::TilePosition;

/// A map coordinate from a number of tiles.
fn units(tiles: f64) -> i64 {
    (tiles * 1_000_000.0).round() as i64
}

fn map(x: f64, y: f64) -> MapPosition {
    MapPosition::new(units(x), units(y))
}

fn tile(x: i32, y: i32) -> TilePosition {
    TilePosition::new(x, y)
}

fn map_box(x0: f64, y0: f64, x1: f64, y1: f64) -> BoundingBox {
    BoundingBox::new(map(x0, y0), map(x1, y1))
}

fn tile_box(x0: i32, y0: i32, x1: i32, y1: i32) -> TileBoundingBox {
    TileBoundingBox::new(tile(x0, y0), tile(x1, y1))
}

#[test]
fn iter_tiles() {
    let box_ = tile_box(1, 2, 3, 4);
    let tiles: Vec<_> = box_.iter_tiles();
    assert_eq!(tiles, [tile(1, 2), tile(1, 3), tile(2, 2), tile(2, 3)]);
}

#[test]
fn tile_to_map() {
    assert_eq!(tile(1, 2).center_map_pos(), map(1.5, 2.5));
    assert_eq!(tile(1, 2).corner_map_pos(), map(1.0, 2.0));
}

#[test]
fn contract_max() {
    let box_ = map_box(1.0, 2.0, 3.0, 4.0);
    assert_eq!(box_.contract_max(units(1.0)), map_box(1.0, 2.0, 2.0, 3.0));
}

#[test]
fn tile_pos() {
    assert_eq!(map(1.0, 2.0).tile_pos(), tile(1, 2));
    assert_eq!(map(1.5, 2.5).tile_pos(), tile(1, 2));
}

#[test]
fn round_out_to_tiles() {
    let box_ = map_box(0.5, 1.5, 3.5, 4.5);
    assert_eq!(box_.round_out_to_tiles(), tile_box(0, 1, 4, 5));
}

#[test]
fn round_to_tiles_covering_center() {
    let box_ = map_box(0.5, 1.6, 3.5, 4.4);
    assert_eq!(box_.round_to_tiles_covering_center(), tile_box(0, 2, 4, 4));
}

#[test]
fn around_point() {
    let box_ = BoundingBox::around_point(map(1.0, 2.0), units(1.0));
    assert_eq!(box_, map_box(0.0, 1.0, 2.0, 3.0));
}

#[test]
fn tile_center() {
    assert_eq!(tile(0, 0).center_map_pos(), map(0.5, 0.5));
    assert_eq!(tile(1, 2).center_map_pos(), map(1.5, 2.5));
}

#[test]
fn rotate() {
    let pos = map(1.0, 2.0);
    assert_eq!(pos.rotate(North), pos);
    assert_eq!(pos.rotate(East), map(-2.0, 1.0));
    assert_eq!(pos.rotate(South), map(-1.0, -2.0));
    assert_eq!(pos.rotate(West), map(2.0, -1.0));

    let box_ = map_box(1.0, 2.0, 3.0, 4.0);
    assert_eq!(box_.rotate(North), box_);
    assert_eq!(box_.rotate(East), map_box(-4.0, 1.0, -2.0, 3.0));
    assert_eq!(box_.rotate(South), map_box(-3.0, -4.0, -1.0, -2.0));
    assert_eq!(box_.rotate(West), map_box(2.0, -3.0, 4.0, -1.0));
    for dir in [0, 2, 4, 6] {
        let dir = CardinalDirection::from_u8_rounding(dir);
        let p = box_.min.rotate(dir);
        let q = box_.max.rotate(dir);
        let spanned = BoundingBox::new(
            MapPosition::new(p.x.min(q.x), p.y.min(q.y)),
            MapPosition::new(p.x.max(q.x), p.y.max(q.y)),
        );
        assert_eq!(box_.rotate(dir), spanned)
    }
}

#[test]
fn covering_center_takes_half_tiles_on_the_edge() {
    assert_eq!(
        map_box(0.5, 0.5, 3.5, 3.5).round_to_tiles_covering_center(),
        tile_box(0, 0, 4, 4)
    );
    assert_eq!(
        map_box(0.5001, 0.5001, 3.4999, 3.4999).round_to_tiles_covering_center(),
        tile_box(1, 1, 3, 3)
    );
}

#[test]
fn directions_fold_in_pairs() {
    let expected = [North, North, East, East, South, South, West, West];
    for dir in 0u8..8 {
        assert_eq!(CardinalDirection::from_u8_rounding(dir), expected[dir as usize]);
        assert_eq!(CardinalDirection::from_u8_rounding(dir + 8), expected[dir as usize]);
    }
}

#[test]
fn negative_coordinates_round_down() {
    assert_eq!(map(-0.5, -1.0).tile_pos(), tile(-1, -1));
    assert_eq!(map(-1.000001, 0.0).tile_pos(), tile(-2, 0));
    assert_eq!(map_box(-1.5, -0.5, -0.5, 0.5).round_out_to_tiles(), tile_box(-2, -1, 0, 1));
}

#[test]
fn square_distance_is_exact() {
    let a = map(0.5, 0.5);
    let b = map(3.5, 4.5);
    assert_eq!(a.square_distance(&b), 25_000_000_000_000);
}
