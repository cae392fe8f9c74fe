use circle_pack::circle::{Circle, LIMIT};
use circle_pack::packer::can_place;

fn circle(x: i64, y: i64, radius: i64) -> Circle {
    Circle { centre_x: x, centre_y: y, radius, colour: "black".to_string() }
}

#[test]
fn touching_circles_do_not_overlap() {
    let a = circle(0, 0, 3);
    let b = circle(10, 0, 3);
    assert!(!a.overlaps(&b, 4));
    assert!(!b.overlaps(&a, 4));
}

#[test]
fn circles_closer_than_the_spacing_overlap() {
    let a = circle(0, 0, 3);
    let b = circle(10, 0, 3);
    assert!(a.overlaps(&b, 5));
    assert!(b.overlaps(&a, 5));
}

#[test]
fn overlap_is_decided_on_squared_distances() {
    // 3-4-5 triangle: the centres are exactly 5 apart.
    let a = circle(0, 0, 2);
    let b = circle(3, 4, 3);
    assert!(!a.overlaps(&b, 0));
    assert!(a.overlaps(&b, 1));
}

#[test]
fn a_circle_overlaps_itself() {
    let a = circle(7, 7, 1);
    assert!(a.overlaps(&a, 0));
}

#[test]
fn overlap_at_the_limit_of_the_arithmetic() {
    let a = circle(-LIMIT, -LIMIT, LIMIT);
    let b = circle(LIMIT, LIMIT, LIMIT);
    assert!(a.overlaps(&b, LIMIT));
    assert!(!a.overlaps(&b, -LIMIT));
}

#[test]
fn new_circle_at_is_black() {
    let c = Circle::at(4, 5, 6);
    assert_eq!(c.centre_x, 4);
    assert_eq!(c.centre_y, 5);
    assert_eq!(c.radius, 6);
    assert_eq!(c.colour, "black");
}

#[test]
fn canvas_centre_fits() {
    assert!(Circle::fits_canvas(50, 50, 10, 100));
}

#[test]
fn canvas_edge_of_the_inscribed_disc_fits() {
    assert!(Circle::fits_canvas(90, 50, 10, 100));
    assert!(Circle::fits_canvas(50, 10, 10, 100));
    assert!(!Circle::fits_canvas(91, 50, 10, 100));
    assert!(!Circle::fits_canvas(50, 9, 10, 100));
}

#[test]
fn canvas_corner_of_the_square_does_not_fit() {
    assert!(!Circle::fits_canvas(10, 10, 10, 100));
    assert!(!Circle::fits_canvas(90, 90, 10, 100));
}

#[test]
fn canvas_of_odd_width_is_centred_on_a_half_unit() {
    // Centre (2.5, 2.5), room 3/2: the four lattice points around it fit.
    assert!(Circle::fits_canvas(2, 2, 1, 5));
    assert!(Circle::fits_canvas(3, 3, 1, 5));
    assert!(!Circle::fits_canvas(1, 2, 1, 5));
    assert!(!Circle::fits_canvas(4, 3, 1, 5));
}

#[test]
fn circle_wider_than_the_canvas_never_fits() {
    assert!(!Circle::fits_canvas(50, 50, 51, 100));
    assert!(!Circle::fits_canvas(0, 0, 1, 0));
    assert!(!Circle::fits_canvas(0, 0, 1, -4));
}

#[test]
fn circle_as_wide_as_the_canvas_fits_only_at_the_centre() {
    assert!(Circle::fits_canvas(10, 10, 10, 20));
    assert!(!Circle::fits_canvas(10, 11, 10, 20));
    assert!(!Circle::fits_canvas(9, 10, 10, 20));
}

#[test]
fn placeable_radii() {
    assert!(can_place(10, 100));
    assert!(can_place(50, 100));
    assert!(can_place(1, 4));
    assert!(!can_place(51, 100));
    assert!(!can_place(0, 100));
    assert!(!can_place(-3, 100));
    assert!(!can_place(1, 0));
    assert!(!can_place(1, -7));
}

#[test]
fn a_gap_of_one_unit_holds_no_lattice_point() {
    assert!(!can_place(10, 21));
    assert!(!can_place(2, 5));
    assert!(can_place(1, 5));
}

#[test]
fn new_circle_lies_inside_the_canvas() {
    let mut rng = fastrand::Rng::with_seed(11);
    for _ in 0..200 {
        let c = Circle::new(10, 100, &mut rng);
        assert_eq!(c.radius, 10);
        assert_eq!(c.colour, "black");
        assert!(Circle::fits_canvas(c.centre_x, c.centre_y, 10, 100));
        let dx = (c.centre_x - 50) as f64;
        let dy = (c.centre_y - 50) as f64;
        assert!((dx * dx + dy * dy).sqrt() <= 40.0);
    }
}

#[test]
fn new_circles_differ_from_draw_to_draw() {
    let mut rng = fastrand::Rng::with_seed(5);
    let first = Circle::new(1_000, 1_000_000, &mut rng);
    let mut moved = false;
    for _ in 0..20 {
        let next = Circle::new(1_000, 1_000_000, &mut rng);
        if next.centre_x != first.centre_x || next.centre_y != first.centre_y {
            moved = true;
        }
    }
    assert!(moved);
}

#[test]
fn new_circle_as_wide_as_the_canvas_sits_at_the_centre() {
    let mut rng = fastrand::Rng::with_seed(3);
    let c = Circle::new(10, 20, &mut rng);
    assert_eq!((c.centre_x, c.centre_y, c.radius), (10, 10, 10));
}

#[test]
fn new_circle_on_the_largest_canvas() {
    let mut rng = fastrand::Rng::with_seed(8);
    let c = Circle::new(LIMIT / 4, LIMIT, &mut rng);
    assert!(Circle::fits_canvas(c.centre_x, c.centre_y, LIMIT / 4, LIMIT));
}
