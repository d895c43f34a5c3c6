use bee_core::collision::{intersect_lines, rect_to_lines, ParaLine, Vec2};
use bee_core::frac::Frac;

fn v(x: i64, y: i64) -> Vec2 {
    Vec2::new(x, y)
}

// A vertical segment from (0,-1) to (0,1) crosses a horizontal segment from
// (-1,0) to (1,0) at the first segment's halfway point.
#[test]
fn intersect_test() {
    let t = intersect_lines(v(0, -1), v(0, 2), v(-1, 0), v(2, 0)).unwrap();
    assert_eq!(t.num * 2, t.den);
    assert!(t.den > 0);
}

#[test]
fn intersect_parallel_is_none() {
    // Parallel, non-colinear.
    assert!(intersect_lines(v(0, 0), v(1, 1), v(0, 1), v(2, 2)).is_none());
    // Parallel horizontals.
    assert!(intersect_lines(v(0, 0), v(5, 0), v(0, 3), v(5, 0)).is_none());
}

#[test]
fn intersect_outside_unit_range_is_none() {
    // The carrier lines cross, but the second segment stops short.
    assert!(intersect_lines(v(0, -1), v(0, 2), v(5, 0), v(2, 0)).is_none());
    // The crossing lies beyond the first segment's own range.
    assert!(intersect_lines(v(0, 5), v(0, 2), v(-1, 0), v(2, 0)).is_none());
}

#[test]
fn intersect_method_matches_free_function() {
    let a = ParaLine::new(v(0, -1), v(0, 2));
    let b = ParaLine::new(v(-1, 0), v(2, 0));
    let t = a.intersect(&b).unwrap();
    assert_eq!(t.num * 2, t.den);
}

// Qualitative symmetry on segments anchored on the x axis (where the
// parameter formula is exact): the fact of intersection is order-independent.
#[test]
fn intersect_symmetry_qualitative() {
    let pairs = [
        ((0, 0, 2, 3), (1, 0, -1, 2)),
        ((0, 0, 2, 3), (100, 0, -1, 2)),
        ((0, 0, 10, 0), (3, 0, 0, 5)),
        ((-3, 0, 6, 6), (3, 0, -6, 6)),
    ];
    for ((px, py, vx, vy), (qx, qy, wx, wy)) in pairs {
        let ab = intersect_lines(v(px, py), v(vx, vy), v(qx, qy), v(wx, wy));
        let ba = intersect_lines(v(qx, qy), v(wx, wy), v(px, py), v(vx, vy));
        assert_eq!(ab.is_some(), ba.is_some());
    }
}

#[test]
fn intersect_returned_scalar_differs_between_orders() {
    let ab = intersect_lines(v(0, 0), v(2, 3), v(1, 0), v(-1, 2)).unwrap();
    let ba = intersect_lines(v(1, 0), v(-1, 2), v(0, 0), v(2, 3)).unwrap();
    // 2/7 on the first segment, 3/7 on the second.
    assert_eq!(ab.num * 7, ab.den * 2);
    assert_eq!(ba.num * 7, ba.den * 3);
}

#[test]
fn intersect_zero_direction_probe_hits_nothing() {
    assert!(intersect_lines(v(10, 10), v(0, 0), v(0, 0), v(24, 0)).is_none());
}

#[test]
fn rect_to_lines_covers_perimeter() {
    let lines = rect_to_lines(v(0, 0), v(24, 24));
    assert_eq!(lines.len(), 4);
    // Top and bottom run along x; left and right run along y.
    assert_eq!(lines[0].v, v(24, 0));
    assert_eq!(lines[1].v, v(0, 24));
    assert_eq!(lines[2].v, v(0, 24));
    assert_eq!(lines[3].v, v(24, 0));
    let with_zero_vx = lines.iter().filter(|l| l.v.x == 0).count();
    let with_zero_vy = lines.iter().filter(|l| l.v.y == 0).count();
    assert_eq!(with_zero_vx, 2);
    assert_eq!(with_zero_vy, 2);
    // Anchors: top-left twice, then the two far corners.
    assert_eq!(lines[0].p, v(0, 0));
    assert_eq!(lines[1].p, v(0, 0));
    assert_eq!(lines[2].p, v(24, 0));
    assert_eq!(lines[3].p, v(0, 24));
    // Endpoints of the four segments cover all four corners.
    let corners = [v(0, 0), v(24, 0), v(0, 24), v(24, 24)];
    for c in corners {
        let covered = lines.iter().any(|l| {
            (l.p == c) || (l.p.x + l.v.x == c.x && l.p.y + l.v.y == c.y)
        });
        assert!(covered);
    }
}

#[test]
fn point_at_parameter_is_exact() {
    let a = ParaLine::new(v(2, 3), v(10, -4));
    let t = Frac::new(1, 2);
    let (x, y) = a.point(&t);
    // (2,3) + (10,-4)/2 == (7, 1)
    assert_eq!(x.num, 2 * 2 + 10);
    assert_eq!(x.den, 2);
    assert_eq!(y.num, 3 * 2 - 4);
    assert_eq!(y.den, 2);
}
