use bee_core::collision::{update_collision_transform, CollisionRect, Vec2};
use bee_core::frac::Frac;
use bee_core::player::{
    desired_velocity, detect_enemy_collision, half_extent, move_player, resolve_movement, Dir,
    Upgrades,
};

fn v(x: i64, y: i64) -> Vec2 {
    Vec2::new(x, y)
}

fn facing_right() -> Dir {
    Dir { cos: Frac::new(1, 1), sin: Frac::new(0, 1) }
}

fn facing_up() -> Dir {
    Dir { cos: Frac::new(0, 1), sin: Frac::new(1, 1) }
}

fn no_upgrades() -> Upgrades {
    Upgrades { shrink: false, double_speed: false }
}

const FULL: (i64, i64) = (1, 1);

fn frac(n: i64, d: i64) -> Frac {
    Frac::new(n, d)
}

#[test]
fn desired_velocity_exact_components() {
    // Facing along (3/5, 4/5) at full cursor magnitude for one second:
    // 500 units split 300/400 across the axes.
    let dir = Dir { cos: frac(3, 5), sin: frac(4, 5) };
    let vel = desired_velocity(&dir, &frac(FULL.0, FULL.1), 1_000_000, &no_upgrades());
    assert_eq!(vel, v(300, 400));
}

#[test]
fn double_speed_doubles_displacement() {
    let dir = Dir { cos: frac(3, 5), sin: frac(4, 5) };
    let base = desired_velocity(&dir, &frac(1, 1), 1_000_000, &no_upgrades());
    let boosted = desired_velocity(
        &dir,
        &frac(1, 1),
        1_000_000,
        &Upgrades { shrink: false, double_speed: true },
    );
    assert_eq!(boosted.x, 2 * base.x);
    assert_eq!(boosted.y, 2 * base.y);
    // Identical cursor, no walls: the whole displacement doubles.
    let from = v(0, 0);
    let walls: Vec<Vec2> = Vec::new();
    let p1 = move_player(from, &dir, &frac(1, 1), 1_000_000, &no_upgrades(), &walls);
    let p2 = move_player(
        from,
        &dir,
        &frac(1, 1),
        1_000_000,
        &Upgrades { shrink: false, double_speed: true },
        &walls,
    );
    assert_eq!(p2.x, 2 * p1.x);
    assert_eq!(p2.y, 2 * p1.y);
}

#[test]
fn double_speed_truncates_after_doubling() {
    // 500 * 0.0001 s = 0.05 units: truncation gives 0, and doubling a
    // truncated zero stays zero, keeping the two-times law exact.
    let dir = facing_right();
    let base = desired_velocity(&dir, &frac(1, 1), 100, &no_upgrades());
    let boosted = desired_velocity(
        &dir,
        &frac(1, 1),
        100,
        &Upgrades { shrink: false, double_speed: true },
    );
    assert_eq!(base, v(0, 0));
    assert_eq!(boosted, v(0, 0));
}

#[test]
fn half_extent_shrink_halves() {
    assert_eq!(half_extent(&no_upgrades()), 12);
    assert_eq!(half_extent(&Upgrades { shrink: true, double_speed: false }), 6);
}

#[test]
fn resolver_no_walls_moves_freely() {
    let walls: Vec<Vec2> = Vec::new();
    let new_pos = resolve_movement(v(5, 7), &facing_right(), v(3, -4), 12, &walls);
    assert_eq!(new_pos, v(8, 3));
}

#[test]
fn resolver_zero_velocity_is_noop() {
    let walls = vec![v(50, 0), v(0, 50)];
    let new_pos = resolve_movement(v(1, 2), &facing_right(), v(0, 0), 12, &walls);
    assert_eq!(new_pos, v(1, 2));
}

#[test]
fn resolver_head_on_wall_clamps_to_face() {
    // Wall centered at (50, 0): its left face is at x = 38.  The bee's
    // leading corner ends exactly on the face; y is unchanged.
    let walls = vec![v(50, 0)];
    let new_pos = resolve_movement(v(0, 0), &facing_right(), v(100, 0), 12, &walls);
    assert_eq!(new_pos, v(26, 0));
    assert_eq!(new_pos.x + 12, 50 - 12);
}

#[test]
fn resolver_glancing_slide_keeps_free_axis() {
    // Diagonal into a vertical edge: x clamps, y advances freely.
    let walls = vec![v(50, 0)];
    let new_pos = resolve_movement(v(0, 0), &facing_right(), v(100, 5), 12, &walls);
    assert_eq!(new_pos, v(26, 5));
}

#[test]
fn resolver_horizontal_edge_clamps_only_y() {
    // Steering (slightly off-vertical) into a wall above: y clamps to the
    // wall's lower face through the leading corner, x advances freely.
    let walls = vec![v(0, 50)];
    let new_pos = resolve_movement(v(0, 0), &facing_up(), v(10, 100), 12, &walls);
    assert_eq!(new_pos, v(10, 26));
}

#[test]
fn resolver_picks_earliest_wall() {
    // Two walls ahead: the nearer one resolves the collision.
    let walls = vec![v(98, 0), v(50, 0)];
    let new_pos = resolve_movement(v(0, 0), &facing_right(), v(100, 0), 12, &walls);
    assert_eq!(new_pos, v(26, 0));
}

#[test]
fn move_player_centered_cursor_is_noop() {
    // Cursor at the window center: zero magnitude, no motion at all.
    let walls = vec![v(24, 0)];
    let new_pos = move_player(v(0, 0), &facing_right(), &frac(0, 1), 16_667, &no_upgrades(), &walls);
    assert_eq!(new_pos, v(0, 0));
}

#[test]
fn move_player_sixty_ticks_into_wall_stays_outside() {
    // Steering into a wall at (50, 0) for sixty identical ticks at sixty
    // frames per second: the bee never penetrates the wall's left face.
    let walls = vec![v(50, 0)];
    let mut pos = v(0, 0);
    for _ in 0..60 {
        pos = move_player(pos, &facing_right(), &frac(1, 1), 16_667, &no_upgrades(), &walls);
        assert!(pos.x + 12 <= 50 - 12);
        assert_eq!(pos.y, 0);
    }
    // It does reach the wall and stays pinned to its face.
    assert_eq!(pos, v(26, 0));
}

#[test]
fn shrink_halves_rejection_distance() {
    // With the shrink upgrade the wall rejects motion at half the distance:
    // the gap between the stop position and the wall face halves.
    let walls = vec![v(50, 0)];
    let full = resolve_movement(v(0, 0), &facing_right(), v(100, 0), 12, &walls);
    let shrunk = resolve_movement(v(0, 0), &facing_right(), v(100, 0), 6, &walls);
    assert_eq!(full, v(26, 0));
    assert_eq!(shrunk, v(32, 0));
    assert_eq!(38 - shrunk.x, (38 - full.x) / 2);
    // The same through the full tick with the upgrade set.
    let via_tick = move_player(
        v(0, 0),
        &facing_right(),
        &frac(1, 1),
        200_000,
        &Upgrades { shrink: true, double_speed: false },
        &walls,
    );
    assert_eq!(via_tick, v(32, 0));
}

#[test]
fn overlap_strict_and_boundary() {
    let player = CollisionRect { center: v(0, 0), half: v(12, 12) };
    let near = CollisionRect { center: v(23, 0), half: v(12, 12) };
    let touching = CollisionRect { center: v(24, 0), half: v(12, 12) };
    assert!(player.overlaps(&near));
    assert!(!player.overlaps(&touching));
    // Overlap needs both axes.
    let diagonal = CollisionRect { center: v(23, 30), half: v(12, 12) };
    assert!(!player.overlaps(&diagonal));
}

#[test]
fn detect_enemy_collision_reports_first_hit() {
    let player = CollisionRect { center: v(0, 0), half: v(12, 12) };
    let enemies = vec![
        CollisionRect { center: v(100, 0), half: v(12, 12) },
        CollisionRect { center: v(10, 0), half: v(12, 12) },
        CollisionRect { center: v(-10, 0), half: v(12, 12) },
    ];
    assert_eq!(detect_enemy_collision(&player, &enemies), Some(1));
    let far = vec![CollisionRect { center: v(100, 100), half: v(12, 12) }];
    assert_eq!(detect_enemy_collision(&player, &far), None);
}

#[test]
fn collision_transform_sync_follows_body() {
    let mut shape = CollisionRect { center: v(0, 0), half: v(0, 0) };
    update_collision_transform(&mut shape, v(5, 6), v(24, 24), false);
    assert_eq!(shape.center, v(5, 6));
    assert_eq!(shape.half, v(24, 24));
    update_collision_transform(&mut shape, v(-7, 8), v(24, 24), true);
    assert_eq!(shape.center, v(-7, 8));
    assert_eq!(shape.half, v(12, 12));
}
