use breakout::collider::{Collider, Collision};
use breakout::convex::Convex;
use breakout::dilate::Dilate;
use breakout::math::{direction_of, intersect, lerp, reflect, Line, Linear, Ray, Segment, P2, PARAM_ONE, V2};
use breakout::rect::{CollideFrom, Rect};

fn p(x: i64, y: i64) -> P2 {
    V2::new(x, y)
}

#[test]
fn test_line_intersetion() {
    let la = Line::new(p(0, 0), V2::new(6, 6));
    let lb = Line::new(p(9, 0), V2::new(-12, 6));
    let (t, u, q) = intersect(&la, &lb).unwrap();
    let t = t as f64 / PARAM_ONE as f64;
    let _u = u as f64 / PARAM_ONE as f64;
    assert!((t - 0.5).abs() < 0.00001);
    assert!((t - 0.5).abs() < 0.00001);
    let dx = (q.x - 3) as f64;
    let dy = (q.y - 3) as f64;
    assert!((dx * dx + dy * dy).sqrt() < 0.00001);
}

#[test]
fn parallel_lines_do_not_meet() {
    let la = Line::new(p(0, 0), V2::new(2, 1));
    let lb = Line::new(p(0, 5), V2::new(4, 2));
    assert!(intersect(&la, &lb).is_none());
}

#[test]
fn domains_limit_the_crossing() {
    // The lines cross at parameter 2 of the first one.
    let a = Segment::new(p(0, 0), V2::new(10, 0));
    let b = Segment::new(p(20, -5), V2::new(0, 10));
    assert!(intersect(&a, &b).is_none());
    let ray = Ray::new(p(0, 0), V2::new(10, 0));
    let (t, u, q) = intersect(&ray, &b).unwrap();
    assert_eq!(t, 2 * PARAM_ONE);
    assert_eq!(u, PARAM_ONE / 2);
    assert_eq!(q, p(20, 0));
    let behind = Ray::new(p(30, 0), V2::new(10, 0));
    assert!(intersect(&behind, &b).is_none());
}

#[test]
fn crossing_segments_report_swapped_parameters() {
    let a = Segment::new(p(0, 0), V2::new(8, 8));
    let b = Segment::new(p(0, 8), V2::new(8, -8));
    let (ta, ua, qa) = intersect(&a, &b).unwrap();
    let (tb, ub, qb) = intersect(&b, &a).unwrap();
    assert_eq!(ta, ub);
    assert_eq!(ua, tb);
    assert_eq!(qa, qb);
    assert_eq!(qa, p(4, 4));
}

#[test]
fn reflection_keeps_length() {
    let v = V2::new(3, -4);
    let r = reflect(v, V2::new(0, PARAM_ONE));
    assert_eq!(r, V2::new(3, 4));
    assert_eq!(r.x * r.x + r.y * r.y, 25);
    let r = reflect(v, V2::new(-PARAM_ONE, 0));
    assert_eq!(r, V2::new(-3, -4));
}

#[test]
fn directions_are_unit_strides() {
    assert_eq!(direction_of(V2::new(0, -7)), V2::new(0, -PARAM_ONE));
    assert_eq!(direction_of(V2::new(12, 0)), V2::new(PARAM_ONE, 0));
    assert_eq!(direction_of(V2::new(0, 0)), V2::new(0, 0));
    assert_eq!(Segment::new(p(1, 1), V2::new(0, 5)).direction(), V2::new(0, PARAM_ONE));
    assert_eq!(direction_of(V2::new(-6, 4)), V2::new(-83205, 55470));
    let d = direction_of(V2::new(2, 2));
    assert_eq!(d, V2::new(70710, 70710));
    // Of length 1 within rounding.
    let len = ((d.x * d.x + d.y * d.y) as f64).sqrt();
    assert!((len - PARAM_ONE as f64).abs() <= 2.0);
    let d = direction_of(V2::new(3, -4));
    assert_eq!(d, V2::new(PARAM_ONE * 3 / 5, -PARAM_ONE * 4 / 5));
}

#[test]
fn reflection_off_a_diagonal_swaps_coordinates() {
    let n = V2::new(PARAM_ONE * 3 / 5, PARAM_ONE * 4 / 5);
    // n . v = 0: the vector lies along the surface and is kept.
    assert_eq!(reflect(V2::new(400, -300), n), V2::new(400, -300));
    // Along the normal: turned back.
    assert_eq!(reflect(V2::new(300, 400), n), V2::new(-300, -400));
}

#[test]
fn lines_give_points_and_projections() {
    let l = Line::new(p(10, 20), V2::new(4, -8));
    assert_eq!(l.at(PARAM_ONE / 4), p(11, 18));
    assert_eq!(l.at(-PARAM_ONE), p(6, 28));
    assert_eq!(l.project(p(14, 20)), 16);
    let s = Segment::new_from_points(p(1, 2), p(5, 9));
    assert_eq!(s.source(), p(1, 2));
    assert_eq!(s.destination(), p(5, 9));
    let r = s.reverse();
    assert_eq!(r.source(), p(5, 9));
    assert_eq!(r.destination(), p(1, 2));
    assert_eq!(lerp(100, 200, PARAM_ONE / 4), 125);
}

#[test]
fn contract_undoes_expand() {
    let r = Rect::new(p(5, -3), p(-2, 7));
    assert_eq!(r.mins, p(-2, -3));
    assert_eq!(r.maxs, p(5, 7));
    for s in [0i64, 1, 4, 100] {
        let e = r.expand(s);
        assert_eq!(e.mins, p(-2 - s, -3 - s));
        assert_eq!(e.maxs, p(5 + s, 7 + s));
        assert_eq!(e.contract(s), r);
    }
}

#[test]
fn expand_by_a_rect_adds_its_extents() {
    let r = Rect::new(p(0, 0), p(10, 4));
    let by = Rect::new(p(-1, -2), p(3, 5));
    let e = r.expand(by);
    assert_eq!(e.mins, p(-1, -2));
    assert_eq!(e.maxs, p(13, 9));
    assert_eq!(e.contract(by), Rect::new(p(2, 3), p(12, 7)));
}

#[test]
fn rect_measures_and_moves() {
    let r = Rect::new_with_dims(p(1, 2), V2::new(3, 4));
    assert_eq!(r.width(), 3);
    assert_eq!(r.height(), 4);
    assert_eq!(r.dims(), V2::new(3, 4));
    assert_eq!(r.at(p(10, 10)), Rect::new(p(11, 12), p(14, 16)));
    assert!(r.contains(p(1, 2)));
    assert!(!r.contains(p(4, 2)));
    assert!(!r.contains(p(2, 6)));
    let v = r.vertices();
    assert_eq!(v, [p(1, 2), p(4, 2), p(4, 6), p(1, 6)]);
    let sides = r.sides();
    assert_eq!(sides[0].source(), p(1, 2));
    assert_eq!(sides[0].destination(), p(4, 2));
    assert_eq!(sides[2].source(), p(4, 6));
    assert_eq!(sides[3].destination(), p(1, 2));
}

#[test]
fn outside_winding_faces_away_and_inside_winding_faces_in() {
    let r = Rect::new(p(-10, 10), p(10, 20));
    let outside = r.to_collider(CollideFrom::Outside);
    // From below, moving up into the bottom side.
    let c = outside.intersect_with(Segment::new(p(0, 0), V2::new(0, 20))).unwrap();
    assert_eq!(c.normal, V2::new(0, -PARAM_ONE));
    assert_eq!(c.point, p(0, 10));
    assert_eq!(c.param, PARAM_ONE / 2);
    // Leaving from inside is not a hit from outside.
    assert!(outside.intersect_with(Segment::new(p(0, 15), V2::new(0, 20))).is_none());

    let inside = r.to_collider(CollideFrom::Inside);
    let c = inside.intersect_with(Segment::new(p(0, 15), V2::new(0, -10))).unwrap();
    assert_eq!(c.normal, V2::new(0, PARAM_ONE));
    assert_eq!(c.point, p(0, 10));
    let c = inside.intersect_with(Segment::new(p(0, 15), V2::new(20, 0))).unwrap();
    assert_eq!(c.normal, V2::new(-PARAM_ONE, 0));
    assert_eq!(c.point, p(10, 15));
}

#[test]
fn exact_sweep_hits_half_way() {
    let edge = Segment::new_from_points(p(-1, 5), p(1, 5));
    let collider = Collider::new(vec![edge]);
    // Velocity (0, 100) over a tenth of a second travels 10 units.
    let motion = Segment::new(p(0, 0), V2::new(0, 100 / 10));
    let c: Collision = collider.intersect_with(motion).unwrap();
    assert_eq!(c.param, PARAM_ONE / 2);
    assert_eq!(c.point, p(0, 5));
    assert_eq!(c.normal, V2::new(0, -PARAM_ONE));
}

#[test]
fn nearest_edge_wins_and_origin_is_skipped() {
    let near = Segment::new_from_points(p(-5, 3), p(5, 3));
    let far = Segment::new_from_points(p(-5, 8), p(5, 8));
    let collider = Collider::new(vec![far, near]);
    let c = collider.intersect_with(Segment::new(p(0, 0), V2::new(0, 10))).unwrap();
    assert_eq!(c.point, p(0, 3));
    // Starting on the near edge, only the far one counts.
    let c = collider.intersect_with(Segment::new(p(0, 3), V2::new(0, 10))).unwrap();
    assert_eq!(c.point, p(0, 8));
    // Moving away from both edges' normals: no hit.
    assert!(collider.intersect_with(Segment::new(p(0, 10), V2::new(0, -10))).is_none());
}

#[test]
fn rect_reports_first_side_met() {
    let r = Rect::new(p(-10, 10), p(10, 20));
    let (t, q, n) = r.intersect_with(CollideFrom::Outside, Segment::new(p(0, 0), V2::new(0, 20))).unwrap();
    assert_eq!(t, PARAM_ONE / 2);
    assert_eq!(q, p(0, 10));
    assert_eq!(n, V2::new(0, -PARAM_ONE));
    let (t, q, n) = r.intersect_with(CollideFrom::Inside, Segment::new(p(0, 15), V2::new(-20, 0))).unwrap();
    assert_eq!(t, PARAM_ONE / 2);
    assert_eq!(q, p(-10, 15));
    assert_eq!(n, V2::new(PARAM_ONE, 0));
    assert!(r.intersect_with(CollideFrom::Inside, Segment::new(p(0, 15), V2::new(2, 2))).is_none());
}

#[test]
fn furthest_corner_along_a_direction() {
    let r = Rect::new(p(-1, -2), p(3, 4));
    assert_eq!(r.furthest_along(V2::new(1, 1)), p(3, 4));
    assert_eq!(r.furthest_along(V2::new(-1, 0)), p(-1, 4));
    assert_eq!(r.furthest_along(V2::new(0, -5)), p(3, -2));
}

#[test]
fn diagonal_edges_have_unit_normals() {
    let edge = Segment::new_from_points(p(0, 10), p(10, 0));
    let collider = Collider::new(vec![edge]);
    let c = collider.intersect_with(Segment::new(p(0, 0), V2::new(10, 10))).unwrap();
    assert_eq!(c.param, PARAM_ONE / 2);
    assert_eq!(c.point, p(5, 5));
    assert_eq!(c.normal, V2::new(-70710, -70710));
    // The bounce sends the ball straight back, within rounding.
    let r = reflect(V2::new(1000, 1000), c.normal);
    assert!((r.x + 1000).abs() <= 1 && (r.y + 1000).abs() <= 1);
}
