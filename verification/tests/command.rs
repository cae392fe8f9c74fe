use circle_pack::circle::LIMIT;
use circle_pack::command::{Command, RunError};
use circle_pack::decimal::SCALE;
use image::{DynamicImage, GenericImage, Rgba};

fn settings(width: Option<i64>, passes: Option<&str>, spacing: Option<i64>) -> Command {
    Command { width, passes: passes.map(|p| p.to_string()), spacing, img: None }
}

#[test]
fn run_gives_a_document() {
    let mut rng = fastrand::Rng::with_seed(21);
    let text = settings(Some(100 * SCALE), Some("10,5,2.5,40"), Some(0)).run(&mut rng, None).unwrap();
    let lines: Vec<&str> = text.split('\n').collect();
    assert_eq!(lines[0], "<svg xmlns=\"http://www.w3.org/2000/svg\" viewBox=\"0 0 100 100\">");
    assert_eq!(lines[lines.len() - 1], "</svg>");
    assert!(lines.len() > 3);
    assert!(lines[1].starts_with("  <circle r=\"10\" cx=\""));
    assert!(lines[lines.len() - 2].starts_with("  <circle r=\"2.5\" cx=\""));
    assert!(lines[1..lines.len() - 1].iter().all(|l| l.ends_with("\" fill=\"black\" />")));
}

#[test]
fn run_with_the_same_seed_gives_the_same_document() {
    let command = settings(Some(200 * SCALE), Some("20,10,5,100"), None);
    let mut first = fastrand::Rng::with_seed(9);
    let mut second = fastrand::Rng::with_seed(9);
    assert_eq!(command.run(&mut first, None), command.run(&mut second, None));
}

#[test]
fn run_colours_from_the_image() {
    let mut image = DynamicImage::new_rgba8(1, 1);
    image.put_pixel(0, 0, Rgba([10, 20, 30, 255]));
    let mut rng = fastrand::Rng::with_seed(21);
    let text = settings(Some(100 * SCALE), Some("10,5"), Some(0)).run(&mut rng, Some(&image)).unwrap();
    let lines: Vec<&str> = text.split('\n').collect();
    assert!(lines.len() > 2);
    assert!(lines[1..lines.len() - 1].iter().all(|l| l.ends_with("\" fill=\"rgba(10,20,30,255)\" />")));
}

#[test]
fn run_with_default_spacing_and_width() {
    let mut rng = fastrand::Rng::with_seed(3);
    let text = settings(None, Some("100,3"), None).run(&mut rng, None).unwrap();
    assert!(text.starts_with("<svg xmlns=\"http://www.w3.org/2000/svg\" viewBox=\"0 0 1000 1000\">\n  <circle r=\"100\" "));
}

#[test]
fn run_refuses_a_schedule_that_is_no_schedule() {
    let mut rng = fastrand::Rng::with_seed(3);
    assert_eq!(settings(None, Some("10"), None).run(&mut rng, None), Err(RunError::BadPasses));
    assert_eq!(settings(None, Some("10,x"), None).run(&mut rng, None), Err(RunError::BadPasses));
    assert_eq!(settings(None, Some(""), None).run(&mut rng, None), Err(RunError::BadPasses));
    assert_eq!(
        settings(Some(LIMIT + 1), Some("1,2,3"), None).run(&mut rng, None),
        Err(RunError::BadPasses)
    );
}

#[test]
fn run_refuses_what_is_beyond_the_limit() {
    let mut rng = fastrand::Rng::with_seed(3);
    assert_eq!(settings(Some(LIMIT + 1), Some("1,1"), Some(0)).run(&mut rng, None), Err(RunError::OutOfRange));
    assert_eq!(settings(Some(100), Some("1,1"), Some(LIMIT + 1)).run(&mut rng, None), Err(RunError::OutOfRange));
    assert_eq!(settings(Some(100), Some("1,1"), Some(-LIMIT - 1)).run(&mut rng, None), Err(RunError::OutOfRange));
    assert!(settings(Some(LIMIT), Some("1,1"), Some(-LIMIT)).run(&mut rng, None).is_ok());
}

#[test]
fn run_on_a_canvas_without_width_draws_nothing() {
    let mut rng = fastrand::Rng::with_seed(3);
    assert_eq!(
        settings(Some(0), None, None).run(&mut rng, None),
        Ok("<svg xmlns=\"http://www.w3.org/2000/svg\" viewBox=\"0 0 0 0\">\n</svg>".to_string())
    );
    assert_eq!(
        settings(Some(-2_500_000), None, None).run(&mut rng, None),
        Ok("<svg xmlns=\"http://www.w3.org/2000/svg\" viewBox=\"0 0 -2.5 -2.5\">\n</svg>".to_string())
    );
}
