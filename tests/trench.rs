use aoc2021::trench::{parse_image_enhancement_algorithm, Bounds, Coord, Image, Span};

const EXAMPLE: &str = "..#.#..#####.#.#.#.###.##.....###.##.#..###.####..#####..#....#..#..##..###..######.###...####..#..#####..##..#.#####...##.#.#..#.##..#.#......#.###.######.###.####...#.##.##..#..#..#####.....#.#....###..#.##......#.....#..#..#..##..#...##.######.####.####.#.#...#.......#..#.#.#...####.##.#......#..#...##.#.##..#...##.#.##..###.#......#.#.......#.#.#.####.###.##...#.....####.#..#..#.##.#....##..#.####....##...##..#...#......#.#.......#.......##..####..#...#.#.#...##..#.#..###..#####........#..####......#..#

#..#.
#....
##..#
..#..
..###
";

fn parse_input_file() -> (Vec<bool>, Image) {
    let (alg_input, image_input) = EXAMPLE.split_once("\n\n").expect("Could not split input");
    let enh_alg = parse_image_enhancement_algorithm(alg_input);
    let image = Image::parse(image_input).expect("rectangular image");
    (enh_alg, image)
}

fn span(start: isize, end: isize) -> Span {
    Span { start, end }
}

#[test]
fn test_example_input_centre_pixel_neighbourhood_num() {
    let (_, image) = parse_input_file();
    let centre = Coord::new(2, 2);
    let num = image.num_from_pixel_neighbourhood(&centre);
    assert_eq!(num, 34);
}

#[test]
fn test_example_input_centre_pixel_is_lit_next_step() {
    let (enh_alg, _) = parse_input_file();
    assert_eq!(enh_alg[34], true);
}

#[test]
fn test_example_pixels_that_should_light_after_step() {
    let (enh_alg, image) = parse_input_file();

    let coord = Coord::new(-1, 0);
    let num = image.num_from_pixel_neighbourhood(&coord);
    let will_be_lit = enh_alg[num];
    assert_eq!(will_be_lit, true);

    let coord = Coord::new(0, -1);
    let num = image.num_from_pixel_neighbourhood(&coord);
    let will_be_lit = enh_alg[num];
    assert_eq!(will_be_lit, true);
}

#[test]
fn test_example_pixels_are_lit_after_step() {
    let (enh_alg, image) = parse_input_file();
    let image = image.step(&enh_alg);

    let coord = Coord::new(-1, 0);
    let is_lit = image.is_pixel_lit(&coord);
    assert_eq!(is_lit, true);

    let coord = Coord::new(0, -1);
    let is_lit = image.is_pixel_lit(&coord);
    assert_eq!(is_lit, true);
}

#[test]
fn test_debug_string() {
    let (_, image) = parse_input_file();
    let expected = "#..#.
#....
##..#
..#..
..###";
    assert_eq!(image.as_debug_string(span(0, 4), span(0, 4)), expected);
}

#[test]
fn test_example_after_one_step() {
    let (enh_alg, image) = parse_input_file();
    let image = image.step(&enh_alg);
    let expected = "...............
...............
...............
...............
.....##.##.....
....#..#.#.....
....##.#..#....
....####..#....
.....#..##.....
......##..#....
.......#.#.....
...............
...............
...............
...............";
    assert_eq!(image.as_debug_string(span(-5, 9), span(-5, 9)), expected);
}

#[test]
fn test_example_lit_pixels_after_two_steps() {
    let (enh_alg, image) = parse_input_file();
    let new_image = image.step(&enh_alg).step(&enh_alg);
    assert_eq!(new_image.lit_pixel_count(), 35);
}

#[test]
fn parse_reads_bounds_and_pixels() {
    let image = Image::parse("#.\n.#\n##").unwrap();
    assert_eq!(image.bounds, Bounds { x_range: span(0, 1), y_range: span(0, 2) });
    assert!(!image.bg_is_lit);
    assert_eq!(image.pixels, vec![true, false, false, true, true, true]);
    assert_eq!(image.lit_pixel_count(), 4);
    assert!(!image.is_pixel_lit(&Coord::new(5, 5)));
    assert_eq!(image.num_from_pixel(&Coord::new(1, 1)), 1);
}

#[test]
fn background_flips_when_empty_code_is_lit() {
    // Entry 0 lit and entry 511 dark: an all-dark background turns lit.
    let mut alg = vec![false; 512];
    alg[0] = true;
    let image = Image::parse(".\n").unwrap();
    let next = image.step(&alg);
    assert!(next.bg_is_lit);
    assert!(next.is_pixel_lit(&Coord::new(100, -100)));
    assert_eq!(next.bounds, Bounds { x_range: span(-2, 2), y_range: span(-2, 2) });
    assert_eq!(next.lit_pixel_count(), 25);
    let after = next.step(&alg);
    assert!(!after.bg_is_lit);
    assert_eq!(after.lit_pixel_count(), 0);
}

#[test]
fn grow_and_contains() {
    let b = Bounds { x_range: span(0, 4), y_range: span(-1, 1) };
    let g = b.grow();
    assert_eq!(g, Bounds { x_range: span(-2, 6), y_range: span(-3, 3) });
    assert!(g.contains(&Coord::new(-2, 3)));
    assert!(!b.contains(&Coord::new(-2, 3)));
}

#[test]
fn parse_rejects_ragged_text() {
    assert!(Image::parse("#.\n.\n##").is_none());
    assert!(Image::parse("#.#").is_none());
    assert!(Image::parse("\n#").is_none());
}
