use raytracer::args::Args;
use raytracer::config::Config;

#[test]
fn height_follows_width_and_aspect_ratio() {
    let c = Config::new((16, 9), 400, 128, 50);
    assert_eq!(c.image_width, 400);
    assert_eq!(c.image_height, 225);
    assert_eq!(c.samples_per_pixel, 128);
    assert_eq!(c.max_depth, 50);
    assert_eq!(c.aspect_ratio, (16, 9));
}

#[test]
fn square_aspect_ratio_gives_square_image() {
    let c = Config::new((1, 1), 600, 16, 10);
    assert_eq!(c.image_height, 600);
}

#[test]
fn height_rounds_down_when_the_division_is_not_exact() {
    // 100 * 9 / 16 = 56.25, truncated.
    assert_eq!(Config::new((16, 9), 100, 1, 1).image_height, 56);
}

#[test]
fn widescreen_heights_match_known_resolutions() {
    assert_eq!(Config::new((16, 9), 1920, 1, 1).image_height, 1080);
    assert_eq!(Config::new((16, 9), 1280, 1, 1).image_height, 720);
}

#[test]
fn args_carry_the_render_options() {
    let args = Args {
        width: 600,
        samples: 128,
        max_depth: 100,
        output_path: String::from("output.png"),
        threads: 4,
        chucks: 8,
    };
    assert_eq!(args.width, 600);
    assert_eq!(args.samples, 128);
    assert_eq!(args.max_depth, 100);
    assert_eq!(args.output_path, "output.png");
    assert_eq!(args.threads, 4);
    assert_eq!(args.chucks, 8);
}
