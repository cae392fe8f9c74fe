use circle_pack::circle::Circle;
use circle_pack::packer::{pack, pack_draws, place};
use circle_pack::packing::Pass;

const UNIT: i64 = 1_000_000;

fn centres(circles: &Vec<Circle>) -> Vec<(i64, i64, i64)> {
    circles.iter().map(|c| (c.centre_x, c.centre_y, c.radius)).collect()
}

fn distance(a: &Circle, b: &Circle) -> f64 {
    let dx = (a.centre_x - b.centre_x) as f64;
    let dy = (a.centre_y - b.centre_y) as f64;
    (dx * dx + dy * dy).sqrt()
}

fn squared_distance(a: &Circle, b: &Circle) -> i128 {
    let dx = (a.centre_x - b.centre_x) as i128;
    let dy = (a.centre_y - b.centre_y) as i128;
    dx * dx + dy * dy
}

#[test]
fn one_attempt_places_at_most_one_circle() {
    for seed in 0..50 {
        let mut rng = fastrand::Rng::with_seed(seed);
        let passes = vec![Pass { radius: 10 * UNIT, attempts: 1 }];
        let circles = pack(100 * UNIT, &passes, 0, &mut rng);
        assert!(circles.len() <= 1);
        for c in &circles {
            assert_eq!(c.radius, 10 * UNIT);
            let dx = (c.centre_x - 50 * UNIT) as f64 / UNIT as f64;
            let dy = (c.centre_y - 50 * UNIT) as f64 / UNIT as f64;
            assert!((dx * dx + dy * dy).sqrt() <= 40.0);
        }
    }
}

#[test]
fn one_attempt_on_an_empty_canvas_places_its_circle() {
    let mut rng = fastrand::Rng::with_seed(2);
    let passes = vec![Pass { radius: 10 * UNIT, attempts: 1 }];
    let circles = pack(100 * UNIT, &passes, 0, &mut rng);
    assert_eq!(circles.len(), 1);
    assert_eq!(circles[0].colour, "black");
}

#[test]
fn a_hundred_attempts_keep_the_spacing() {
    for seed in 0..20 {
        let mut rng = fastrand::Rng::with_seed(seed);
        let passes = vec![Pass { radius: 10 * UNIT, attempts: 100 }];
        let circles = pack(100 * UNIT, &passes, 5 * UNIT, &mut rng);
        assert!(circles.len() <= 17);
        for i in 0..circles.len() {
            for j in 0..circles.len() {
                if i != j {
                    assert!(distance(&circles[i], &circles[j]) >= 25.0 * UNIT as f64);
                    let reach = (25 * UNIT) as i128;
                    assert!(squared_distance(&circles[i], &circles[j]) >= reach * reach);
                }
            }
        }
    }
}

#[test]
fn packed_circles_do_not_overlap() {
    let mut rng = fastrand::Rng::with_seed(99);
    let passes = vec![
        Pass { radius: 40, attempts: 30 },
        Pass { radius: 25, attempts: 100 },
        Pass { radius: 9, attempts: 400 },
    ];
    let circles = pack(1_000, &passes, 3, &mut rng);
    assert!(circles.len() > 3);
    for i in 0..circles.len() {
        for j in 0..circles.len() {
            if i != j {
                assert!(!circles[i].overlaps(&circles[j], 3));
                let reach = (circles[i].radius + circles[j].radius + 3) as i128;
                assert!(squared_distance(&circles[i], &circles[j]) >= reach * reach);
            }
        }
    }
}

#[test]
fn packed_circles_lie_inside_the_canvas() {
    let mut rng = fastrand::Rng::with_seed(1234);
    let passes = vec![Pass { radius: 60, attempts: 50 }, Pass { radius: 17, attempts: 300 }];
    let circles = pack(1_001, &passes, 0, &mut rng);
    assert!(!circles.is_empty());
    for c in &circles {
        assert!(Circle::fits_canvas(c.centre_x, c.centre_y, c.radius, 1_001));
        let dx = c.centre_x as f64 - 500.5;
        let dy = c.centre_y as f64 - 500.5;
        assert!((dx * dx + dy * dy).sqrt() <= 500.5 - c.radius as f64 + 1e-9);
    }
}

#[test]
fn packed_circles_come_in_pass_order() {
    let mut rng = fastrand::Rng::with_seed(6);
    let passes = vec![Pass { radius: 30, attempts: 20 }, Pass { radius: 10, attempts: 20 }];
    let circles = pack(500, &passes, 0, &mut rng);
    let radii: Vec<i64> = circles.iter().map(|c| c.radius).collect();
    let mut sorted = radii.clone();
    sorted.sort_by(|a, b| b.cmp(a));
    assert_eq!(radii, sorted);
    assert!(radii.contains(&30));
    assert!(radii.contains(&10));
}

#[test]
fn the_same_seed_gives_the_same_packing() {
    let passes = vec![Pass { radius: 35, attempts: 20 }, Pass { radius: 12, attempts: 200 }];
    let mut first_rng = fastrand::Rng::with_seed(77);
    let mut second_rng = fastrand::Rng::with_seed(77);
    let first = pack(1_000, &passes, 1, &mut first_rng);
    let second = pack(1_000, &passes, 1, &mut second_rng);
    assert_eq!(centres(&first), centres(&second));
    assert!(!first.is_empty());
}

#[test]
fn another_seed_gives_another_packing() {
    let passes = vec![Pass { radius: 35, attempts: 20 }];
    let mut first_rng = fastrand::Rng::with_seed(1);
    let mut second_rng = fastrand::Rng::with_seed(2);
    let first = pack(1_000_000, &passes, 1, &mut first_rng);
    let second = pack(1_000_000, &passes, 1, &mut second_rng);
    assert_ne!(centres(&first), centres(&second));
}

#[test]
fn more_passes_keep_what_was_placed() {
    let shorter = vec![Pass { radius: 35, attempts: 20 }];
    let longer = vec![Pass { radius: 35, attempts: 20 }, Pass { radius: 12, attempts: 200 }];
    let mut first_rng = fastrand::Rng::with_seed(4);
    let mut second_rng = fastrand::Rng::with_seed(4);
    let first = centres(&pack(1_000, &shorter, 0, &mut first_rng));
    let second = centres(&pack(1_000, &longer, 0, &mut second_rng));
    assert!(first.len() <= second.len());
    assert_eq!(first[..], second[..first.len()]);
}

#[test]
fn passes_that_fit_nowhere_are_skipped() {
    let mut rng = fastrand::Rng::with_seed(4);
    let passes = vec![
        Pass { radius: 51, attempts: 1_000_000 },
        Pass { radius: 0, attempts: 1_000_000 },
        Pass { radius: -5, attempts: 1_000_000 },
        Pass { radius: 10, attempts: 1 },
    ];
    let circles = pack(100, &passes, 0, &mut rng);
    assert_eq!(circles.len(), 1);
    assert_eq!(circles[0].radius, 10);
}

#[test]
fn nothing_is_packed_on_a_canvas_without_width() {
    let mut rng = fastrand::Rng::with_seed(4);
    let passes = vec![Pass { radius: 10, attempts: 100 }];
    assert!(pack(0, &passes, 0, &mut rng).is_empty());
    assert!(pack(-100, &passes, 0, &mut rng).is_empty());
}

#[test]
fn nothing_is_packed_without_passes_or_attempts() {
    let mut rng = fastrand::Rng::with_seed(4);
    assert!(pack(100, &Vec::new(), 0, &mut rng).is_empty());
    assert!(pack(100, &vec![Pass { radius: 10, attempts: 0 }], 0, &mut rng).is_empty());
}

#[test]
fn a_spacing_too_wide_leaves_one_circle() {
    let mut rng = fastrand::Rng::with_seed(4);
    let passes = vec![Pass { radius: 10, attempts: 50 }];
    let circles = pack(100, &passes, 100, &mut rng);
    assert_eq!(circles.len(), 1);
}

#[test]
fn draws_are_tested_in_order() {
    let passes = vec![Pass { radius: 10, attempts: 3 }];
    let draws = vec![(50, 50), (55, 50), (0, 0), (75, 50), (25, 50)];
    let circles = pack_draws(100, &passes, 0, &draws);
    assert_eq!(centres(&circles), vec![(50, 50, 10), (75, 50, 10)]);
    assert!(circles.iter().all(|c| c.colour == "black"));
}

#[test]
fn draws_left_by_one_pass_go_to_the_next() {
    let passes = vec![Pass { radius: 10, attempts: 3 }, Pass { radius: 5, attempts: 2 }];
    let draws = vec![(50, 50), (55, 50), (0, 0), (75, 50), (25, 50)];
    let circles = pack_draws(100, &passes, 0, &draws);
    assert_eq!(centres(&circles), vec![(50, 50, 10), (75, 50, 10), (25, 50, 5)]);
}

#[test]
fn draws_packing_is_a_function_of_its_arguments() {
    let passes = vec![Pass { radius: 10, attempts: 3 }, Pass { radius: 5, attempts: 2 }];
    let draws = vec![(50, 50), (55, 50), (0, 0), (75, 50), (25, 50), (50, 80)];
    let first = pack_draws(100, &passes, 2, &draws);
    let second = pack_draws(100, &passes.clone(), 2, &draws.clone());
    assert_eq!(centres(&first), centres(&second));
}

#[test]
fn draws_outside_the_canvas_cost_no_attempt() {
    let passes = vec![Pass { radius: 10, attempts: 1 }];
    let draws = vec![(10, 10), (90, 90), (-4, 50), (50, 50), (50, 80)];
    let circles = pack_draws(100, &passes, 0, &draws);
    assert_eq!(centres(&circles), vec![(50, 50, 10)]);
}

#[test]
fn draws_running_out_end_the_packing() {
    let passes = vec![Pass { radius: 10, attempts: 10 }, Pass { radius: 5, attempts: 10 }];
    let draws = vec![(50, 50)];
    let circles = pack_draws(100, &passes, 0, &draws);
    assert_eq!(centres(&circles), vec![(50, 50, 10)]);
    assert!(pack_draws(100, &passes, 0, &Vec::new()).is_empty());
}

#[test]
fn draws_skip_a_pass_that_fits_nowhere() {
    let passes = vec![Pass { radius: 10, attempts: 5 }, Pass { radius: 4, attempts: 1 }];
    let draws = vec![(10, 10), (11, 10), (10, 11)];
    // On a canvas of width 21 the first pass leaves a gap of one unit.
    let circles = pack_draws(21, &passes, 0, &draws);
    assert_eq!(centres(&circles), vec![(10, 10, 4)]);
}

#[test]
fn draws_respect_the_spacing() {
    let passes = vec![Pass { radius: 10, attempts: 2 }];
    let draws = vec![(40, 50), (60, 50)];
    assert_eq!(pack_draws(100, &passes, 0, &draws).len(), 2);
    assert_eq!(pack_draws(100, &passes, 1, &draws).len(), 1);
}

#[test]
fn place_appends_a_clear_candidate() {
    let mut circles = vec![Circle::at(50, 50, 10)];
    assert!(place(&mut circles, Circle::at(75, 50, 10), 5));
    assert_eq!(centres(&circles), vec![(50, 50, 10), (75, 50, 10)]);
}

#[test]
fn place_drops_a_candidate_that_is_too_close() {
    let mut circles = vec![Circle::at(50, 50, 10), Circle::at(75, 50, 10)];
    assert!(!place(&mut circles, Circle::at(62, 55, 10), 0));
    assert_eq!(centres(&circles), vec![(50, 50, 10), (75, 50, 10)]);
}

#[test]
fn place_on_an_empty_canvas_keeps_the_candidate() {
    let mut circles = Vec::new();
    assert!(place(&mut circles, Circle::at(1, 2, 3), 1_000));
    assert_eq!(centres(&circles), vec![(1, 2, 3)]);
}
