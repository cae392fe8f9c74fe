use circle_pack::circle::Circle;
use circle_pack::colour::{colourize, get_colour, rgba_string};
use image::{DynamicImage, GenericImage, Rgba};

fn two_by_two() -> DynamicImage {
    let mut image = DynamicImage::new_rgba8(2, 2);
    image.put_pixel(0, 0, Rgba([10, 20, 30, 255]));
    image.put_pixel(1, 0, Rgba([40, 50, 60, 128]));
    image.put_pixel(0, 1, Rgba([70, 80, 90, 0]));
    image.put_pixel(1, 1, Rgba([1, 2, 3, 4]));
    image
}

#[test]
fn colour_of_the_first_pixel() {
    let image = two_by_two();
    let mut circles = vec![Circle::at(10, 10, 5)];
    colourize(&mut circles, 100, Some(&image));
    assert_eq!(circles[0].colour, "rgba(10,20,30,255)");
    assert_eq!((circles[0].centre_x, circles[0].centre_y, circles[0].radius), (10, 10, 5));
}

#[test]
fn colour_of_each_quarter() {
    let image = two_by_two();
    let mut circles = vec![
        Circle::at(49, 49, 1),
        Circle::at(50, 49, 1),
        Circle::at(49, 50, 1),
        Circle::at(99, 99, 1),
        Circle::at(0, 0, 1),
    ];
    colourize(&mut circles, 100, Some(&image));
    let colours: Vec<&str> = circles.iter().map(|c| c.colour.as_str()).collect();
    assert_eq!(
        colours,
        vec![
            "rgba(10,20,30,255)",
            "rgba(40,50,60,128)",
            "rgba(70,80,90,0)",
            "rgba(1,2,3,4)",
            "rgba(10,20,30,255)",
        ]
    );
}

#[test]
fn colour_coordinates_are_rounded_down() {
    let mut image = DynamicImage::new_rgba8(3, 1);
    image.put_pixel(0, 0, Rgba([1, 1, 1, 1]));
    image.put_pixel(1, 0, Rgba([2, 2, 2, 2]));
    image.put_pixel(2, 0, Rgba([3, 3, 3, 3]));
    // 3 / 10 * 3 = 0.9, 3 / 10 * 4 = 1.2, 3 / 10 * 6 = 1.8, 3 / 10 * 7 = 2.1
    assert_eq!(get_colour(&Circle::at(3, 0, 1), 10, &image), "rgba(1,1,1,1)");
    assert_eq!(get_colour(&Circle::at(4, 9, 1), 10, &image), "rgba(2,2,2,2)");
    assert_eq!(get_colour(&Circle::at(6, 5, 1), 10, &image), "rgba(2,2,2,2)");
    assert_eq!(get_colour(&Circle::at(7, 0, 1), 10, &image), "rgba(3,3,3,3)");
}

#[test]
fn colour_of_an_image_without_alpha() {
    let mut image = DynamicImage::new_rgb8(1, 1);
    image.put_pixel(0, 0, Rgba([9, 8, 7, 255]));
    assert_eq!(get_colour(&Circle::at(5, 5, 1), 10, &image), "rgba(9,8,7,255)");
}

#[test]
fn colour_on_a_large_canvas() {
    let image = two_by_two();
    let width = i64::MAX;
    assert_eq!(get_colour(&Circle::at(width - 1, 0, 1), width, &image), "rgba(40,50,60,128)");
    assert_eq!(get_colour(&Circle::at(width / 2, width - 1, 1), width, &image), "rgba(70,80,90,0)");
}

#[test]
fn no_image_leaves_the_colours() {
    let mut circles = vec![Circle::at(10, 10, 5), Circle::at(-30, 3_000, -5)];
    circles[1].colour = "red".to_string();
    colourize(&mut circles, 100, None);
    assert_eq!(circles[0].colour, "black");
    assert_eq!(circles[1].colour, "red");
    colourize(&mut circles, 100, None);
    assert_eq!(circles[0].colour, "black");
    assert_eq!(circles.len(), 2);
}

#[test]
fn no_image_leaves_a_packing_black() {
    let mut rng = fastrand::Rng::with_seed(12);
    let passes = vec![circle_pack::packing::Pass { radius: 20, attempts: 50 }];
    let mut circles = circle_pack::packer::pack(500, &passes, 2, &mut rng);
    colourize(&mut circles, 500, None);
    assert!(!circles.is_empty());
    assert!(circles.iter().all(|c| c.colour == "black"));
}

#[test]
fn an_image_without_pixels_leaves_the_colours() {
    let image = DynamicImage::new_rgba8(0, 0);
    let mut circles = vec![Circle::at(10, 10, 5)];
    colourize(&mut circles, 100, Some(&image));
    assert_eq!(circles[0].colour, "black");
    let image = DynamicImage::new_rgba8(4, 0);
    colourize(&mut circles, 100, Some(&image));
    assert_eq!(circles[0].colour, "black");
}

#[test]
fn no_circles_to_colour() {
    let image = two_by_two();
    let mut circles: Vec<Circle> = Vec::new();
    colourize(&mut circles, 100, Some(&image));
    assert!(circles.is_empty());
    colourize(&mut circles, 0, Some(&image));
    assert!(circles.is_empty());
}

#[test]
fn colour_text_of_a_pixel() {
    assert_eq!(rgba_string((10, 20, 30, 255)), "rgba(10,20,30,255)");
    assert_eq!(rgba_string((0, 0, 0, 0)), "rgba(0,0,0,0)");
    assert_eq!(rgba_string((255, 100, 9, 1)), "rgba(255,100,9,1)");
}
