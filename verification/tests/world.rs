use bee_core::collision::Vec2;
use bee_core::frac::Frac;
use bee_core::world::{
    parse_cell, parse_decimal, tile_center, Cell, Spawner, SpawnerKind, Tile, World, WorldType,
};

fn v(x: i64, y: i64) -> Vec2 {
    Vec2::new(x, y)
}

#[test]
fn load_small_map_with_wall_and_spawn() {
    // One wall in the top row, the player spawn below it.
    let map = b".\t#\t.\n.\t*\t.".to_vec();
    let w = World::load_level(&map, 3).unwrap();
    assert!(matches!(w.world_type, WorldType::Level(3)));
    assert_eq!(w.layout.len(), 2);
    assert_eq!(w.layout[0], vec![None, Some(Tile::Wall), None]);
    assert_eq!(w.layout[1], vec![None, None, None]);
    assert_eq!(w.player_start_coordinates, (1, 1));
    // The wall sits at world (24, 0); the player spawns at (24, -24).
    assert_eq!(w.walls(), vec![v(24, 0)]);
    assert_eq!(w.player_start_world(), v(24, -24));
}

#[test]
fn load_map_with_trailing_newline() {
    let map = b"#\n".to_vec();
    let w = World::load_level(&map, 0).unwrap();
    assert_eq!(w.layout.len(), 1);
    assert_eq!(w.layout[0], vec![Some(Tile::Wall)]);
}

#[test]
fn load_empty_map() {
    let map = Vec::new();
    let w = World::load_level(&map, 0).unwrap();
    assert_eq!(w.layout.len(), 0);
    assert_eq!(w.player_start_coordinates, (0, 0));
    assert_eq!(w.walls(), Vec::<Vec2>::new());
}

#[test]
fn missing_spawn_marker_defaults_to_origin() {
    let map = b".\t#".to_vec();
    let w = World::load_level(&map, 0).unwrap();
    assert_eq!(w.player_start_coordinates, (0, 0));
}

#[test]
fn later_spawn_marker_wins() {
    let map = b"*\t.\n.\t*".to_vec();
    let w = World::load_level(&map, 0).unwrap();
    assert_eq!(w.player_start_coordinates, (1, 1));
}

#[test]
fn unknown_token_is_reported_with_position() {
    let map = b".\t#\n.\tX\t.".to_vec();
    let e = World::load_level(&map, 0).unwrap_err();
    assert_eq!(e.row, 1);
    assert_eq!(e.col, 1);
    assert_eq!(e.token, b"X".to_vec());
}

#[test]
fn empty_token_is_an_error() {
    let map = b".\t\t.".to_vec();
    let e = World::load_level(&map, 0).unwrap_err();
    assert_eq!(e.row, 0);
    assert_eq!(e.col, 1);
    assert_eq!(e.token, Vec::<u8>::new());
}

#[test]
fn malformed_laser_angle_is_an_error() {
    let map = b"L:abc".to_vec();
    let e = World::load_level(&map, 0).unwrap_err();
    assert_eq!(e.row, 0);
    assert_eq!(e.col, 0);
    assert_eq!(e.token, b"L:abc".to_vec());
}

#[test]
fn laser_spawner_carries_exact_angle() {
    let map = b"L:1.5\tM".to_vec();
    let w = World::load_level(&map, 0).unwrap();
    let spawners = w.spawners();
    assert_eq!(spawners.len(), 2);
    assert_eq!(spawners[0].0, v(0, 0));
    assert_eq!(spawners[0].1, SpawnerKind::Laser(Frac { num: 15, den: 10 }));
    assert_eq!(spawners[1].0, v(24, 0));
    assert_eq!(spawners[1].1, SpawnerKind::Missile);
}

#[test]
fn decimal_parser_handles_signs_and_fractions() {
    assert_eq!(parse_decimal(&b"1.5".to_vec()), Some(Frac { num: 15, den: 10 }));
    assert_eq!(parse_decimal(&b"-0.5".to_vec()), Some(Frac { num: -5, den: 10 }));
    assert_eq!(parse_decimal(&b"+2".to_vec()), Some(Frac { num: 2, den: 1 }));
    assert_eq!(parse_decimal(&b"3.".to_vec()), Some(Frac { num: 3, den: 1 }));
    assert_eq!(parse_decimal(&b".5".to_vec()), Some(Frac { num: 5, den: 10 }));
    assert_eq!(parse_decimal(&b".".to_vec()), None);
    assert_eq!(parse_decimal(&b"".to_vec()), None);
    assert_eq!(parse_decimal(&b"1.2.3".to_vec()), None);
    assert_eq!(parse_decimal(&b"12a".to_vec()), None);
}

#[test]
fn cell_grammar_tokens() {
    assert_eq!(parse_cell(&b".".to_vec()), Some(Cell::Empty));
    assert_eq!(parse_cell(&b"#".to_vec()), Some(Cell::Wall));
    assert_eq!(parse_cell(&b"M".to_vec()), Some(Cell::Missile));
    assert_eq!(parse_cell(&b"*".to_vec()), Some(Cell::Start));
    assert_eq!(parse_cell(&b"L:2".to_vec()), Some(Cell::Laser(Frac { num: 2, den: 1 })));
    assert_eq!(parse_cell(&b"L:".to_vec()), None);
    assert_eq!(parse_cell(&b"##".to_vec()), None);
    assert_eq!(parse_cell(&b"".to_vec()), None);
}

#[test]
fn tile_centers_follow_grid() {
    assert_eq!(tile_center(0, 0), v(0, 0));
    assert_eq!(tile_center(0, 1), v(24, 0));
    assert_eq!(tile_center(2, 3), v(72, -48));
}

#[test]
fn spawner_fires_on_tenth_tick() {
    // Cooldown of one second, ticks of a tenth of a second: exactly the
    // tenth tick fires.
    let mut s = Spawner::new(SpawnerKind::Missile, 1_000_000);
    for _ in 0..9 {
        assert!(!s.tick(100_000));
    }
    assert!(s.tick(100_000));
    assert_eq!(s.elapsed, 0);
}

#[test]
fn spawner_phase_drift_stays_under_one_tick() {
    // Resetting by subtraction keeps phase: over a thousand ticks of C/10
    // the spawner fires exactly a hundred times and ends in phase.
    let cooldown = 1_000_000;
    let dt = cooldown / 10;
    let mut s = Spawner::new(SpawnerKind::Missile, cooldown);
    let mut fires = 0u64;
    for _ in 0..1000 {
        if s.tick(dt) {
            fires += 1;
        }
        assert!(s.elapsed < cooldown);
    }
    assert_eq!(fires, 100);
    assert_eq!(s.elapsed, 0);
}

#[test]
fn spawner_uneven_ticks_conserve_time() {
    let mut s = Spawner::new(SpawnerKind::Missile, 1_000_000);
    let mut fires: u64 = 0;
    let mut total: u64 = 0;
    for k in 0..500u64 {
        let dt = 1 + (k * 7919) % 9973;
        total += dt;
        if s.tick(dt) {
            fires += 1;
        }
    }
    // No time is ever lost: phase plus fired cooldowns equals elapsed time.
    assert_eq!(s.elapsed + fires * 1_000_000, total);
}
