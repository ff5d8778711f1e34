use aoc2021::reactor::{AxisRange, Cuboid, Instruction, ReactorCore};

fn cuboid(x: (i32, i32), y: (i32, i32), z: (i32, i32)) -> Cuboid {
    Cuboid {
        x_range: AxisRange::new(x.0, x.1),
        y_range: AxisRange::new(y.0, y.1),
        z_range: AxisRange::new(z.0, z.1),
    }
}

fn total(cuboids: &[Cuboid]) -> u128 {
    cuboids.iter().map(|c| c.volume()).sum()
}

fn run(lines: &[&str], init_only: bool) -> Option<u128> {
    let instructions: Vec<Instruction> =
        lines.iter().map(|l| Instruction::from(l).expect("well-formed line")).collect();
    let mut core = ReactorCore::new();
    if init_only {
        core.initialise(&instructions);
    } else {
        core.reboot(&instructions);
    }
    core.count_on_cubes()
}

fn assert_disjoint(cuboids: &[Cuboid]) {
    for (i, a) in cuboids.iter().enumerate() {
        for b in &cuboids[i + 1..] {
            assert!(!a.overlaps_with(b), "{:?} meets {:?}", a, b);
        }
    }
}

#[test]
fn test_cuboid_volume() {
    let cuboid = cuboid((-1, 1), (-1, 1), (-1, 1));
    assert_eq!(cuboid.volume(), 27);
}

#[test]
fn test_subtracting_wholly_overlapped_cube() {
    let bigger = cuboid((-1, 1), (-1, 1), (-1, 1));
    let smaller = cuboid((0, 0), (0, 0), (0, 0));
    let mut results = vec![];
    bigger.subtract(&smaller, &mut results);
    let volume: u128 = total(&results);
    assert_eq!(volume, 26);
}

#[test]
fn test_subtracting_wholly_overlapping_cube() {
    let bigger = cuboid((-1, 1), (-1, 1), (-1, 1));
    let smaller = cuboid((0, 0), (0, 0), (0, 0));
    let mut results = vec![];
    smaller.subtract(&bigger, &mut results);
    let volume: u128 = total(&results);
    assert_eq!(volume, 0);
}

#[test]
fn test_subtracting_partially_overlapping_cube() {
    let first = cuboid((-1, 1), (-1, 1), (-1, 1));
    let second = cuboid((0, 2), (0, 2), (0, 2));
    let mut results = vec![];
    first.subtract(&second, &mut results);
    let volume: u128 = total(&results);
    assert_eq!(volume, 19);
}

#[test]
fn test_non_overlapping_cube() {
    let first = cuboid((-1, 1), (-1, 1), (-1, 1));
    let second = cuboid((2, 3), (2, 3), (2, 3));
    let mut results = vec![];
    first.subtract(&second, &mut results);
    let volume: u128 = total(&results);
    assert_eq!(volume, 27);
}

#[test]
fn test_subtracting_first_two_instructions() {
    let first = cuboid((-44, 9), (-9, 44), (-34, 13));
    assert_eq!(first.volume(), 139968);
    let second = cuboid((-42, 11), (-16, 33), (-2, 48));
    let mut results = vec![];
    first.subtract(&second, &mut results);
    assert_eq!(results.len(), 7);
    let volume: u128 = total(&results);
    assert_eq!(volume, 104192);
}

#[test]
fn test_example_1_part_1() {
    let input = "on x=10..12,y=10..12,z=10..12\n\
                 on x=11..13,y=11..13,z=11..13\n\
                 off x=9..11,y=9..11,z=9..11\n\
                 on x=10..10,y=10..10,z=10..10";
    let lines: Vec<&str> = input.lines().collect();
    assert_eq!(run(&lines, true), Some(39));
}

#[test]
fn subtract_keeps_a_box_it_does_not_meet() {
    let first = cuboid((-1, 1), (-1, 1), (-1, 1));
    let second = cuboid((2, 3), (-1, 1), (-1, 1));
    let mut results = vec![cuboid((7, 7), (7, 7), (7, 7))];
    first.subtract(&second, &mut results);
    assert_eq!(results, vec![cuboid((7, 7), (7, 7), (7, 7)), first]);
}

#[test]
fn subtract_volume_is_conserved() {
    let a = cuboid((-3, 4), (0, 5), (-2, 2));
    let b = cuboid((1, 9), (-4, 2), (0, 0));
    let mut results = vec![];
    a.subtract(&b, &mut results);
    // a has 8 * 6 * 5 = 240 points; it shares 4 * 3 * 1 = 12 with b.
    assert_eq!(total(&results), 240 - 12);
    assert_disjoint(&results);
    for f in &results {
        assert!(f.is_contained_by(&a));
        assert!(!f.overlaps_with(&b));
    }
}

#[test]
fn subtract_from_itself_leaves_nothing() {
    let a = cuboid((-3, 4), (0, 5), (-2, 2));
    let mut results = vec![];
    a.subtract(&a, &mut results);
    assert!(results.is_empty());
}

#[test]
fn reactor_boxes_stay_disjoint() {
    let lines = [
        "on x=-20..26,y=-36..17,z=-47..7",
        "on x=-20..33,y=-21..23,z=-26..28",
        "off x=-48..-32,y=26..41,z=-47..-37",
        "on x=-22..28,y=-29..23,z=-38..16",
        "off x=-40..-22,y=-38..-28,z=23..41",
        "on x=-46..7,y=-6..46,z=-50..-1",
    ];
    let instructions: Vec<Instruction> = lines.iter().map(|l| Instruction::from(l).unwrap()).collect();
    let mut core = ReactorCore::new();
    core.reboot(&instructions);
    assert_disjoint(&core.on_cuboids);
}

#[test]
fn repeated_on_instruction_changes_nothing() {
    let once = run(&["on x=0..4,y=0..4,z=0..4", "on x=2..6,y=2..6,z=2..6"], false);
    let twice = run(
        &["on x=0..4,y=0..4,z=0..4", "on x=2..6,y=2..6,z=2..6", "on x=2..6,y=2..6,z=2..6"],
        false,
    );
    assert_eq!(once, Some(125 + 125 - 27));
    assert_eq!(once, twice);
}

#[test]
fn on_then_off_restores_volume() {
    let before = run(&["on x=0..4,y=0..4,z=0..4"], false);
    let after = run(&["on x=0..4,y=0..4,z=0..4", "on x=10..12,y=0..1,z=0..0", "off x=10..12,y=0..1,z=0..0"], false);
    assert_eq!(before, Some(125));
    assert_eq!(after, before);
}

#[test]
fn initialise_skips_boxes_outside_the_area() {
    let lines = ["on x=-50..50,y=0..0,z=0..0", "on x=-51..50,y=1..1,z=0..0", "on x=100..200,y=0..0,z=0..0"];
    assert_eq!(run(&lines, true), Some(101));
    assert_eq!(run(&lines, false), Some(101 + 102 + 101));
}

#[test]
fn parses_instruction_lines() {
    let i = Instruction::from("off x=-5..47,y=-31..22,z=-19..33").unwrap();
    assert!(!i.is_on);
    assert_eq!(i.cuboid, cuboid((-5, 47), (-31, 22), (-19, 33)));
    let i = Instruction::from("on x=-2147483648..2147483647,y=0..0,z=7..7").unwrap();
    assert!(i.is_on);
    assert_eq!(i.cuboid.volume(), 1 << 32);
    assert_eq!(Cuboid::from("x=1..2,y=3..4,z=5..6"), Some(cuboid((1, 2), (3, 4), (5, 6))));
}

#[test]
fn rejects_malformed_lines() {
    assert_eq!(Instruction::from("toggle x=1..2,y=1..2,z=1..2"), None);
    assert_eq!(Instruction::from("on x=1..2,y=1..2"), None);
    assert_eq!(Instruction::from("on x=3..2,y=1..2,z=1..2"), None);
    assert_eq!(Instruction::from("on x=1..2,y=1..2,z=1..2147483648"), None);
    assert_eq!(Instruction::from("on x=1..2,y=1..a,z=1..2"), None);
    assert_eq!(Instruction::from("on x=1..2,y=1..2,z=1..2 "), None);
    assert_eq!(Cuboid::from("y=1..2,x=1..2,z=1..2"), None);
}

#[test]
fn count_on_cubes_of_widest_boxes() {
    let whole = "on x=-2147483648..2147483647,y=-2147483648..2147483647,z=-2147483648..2147483647";
    assert_eq!(run(&[whole], false), Some(1u128 << 96));
}
