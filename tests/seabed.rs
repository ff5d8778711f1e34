use aoc2021::seabed::{Cuke, Seabed};

const EXAMPLE: &str = "v...>>.vv>
.vv>>.vv..
>>.>v>...v
>>v>>.>.v.
v>v.vv.v..
>.>>..v...
.vv..>.>v.
v.v..>>v.v
....v..v.>
";

fn example() -> Seabed {
    Seabed::parse(EXAMPLE).expect("well-formed sea floor")
}

#[test]
fn test_example_step_1() {
    let mut seabed = example();
    seabed.step();
    let str = seabed.debug_string();
    assert_eq!(&str, "....>.>v.>
v.v>.>v.v.
>v>>..>v..
>>v>v>.>.v
.>v.v...v.
v>>.>vvv..
..v...>>..
vv...>>vv.
>.v.v..v.v
")
}

#[test]
fn test_example_steps_to_stopped() {
    let mut seabed = example();
    let steps = seabed.steps_to_stopped(1000);
    assert_eq!(steps, Some(58));
}

#[test]
fn steps_to_stopped_gives_up_after_the_limit() {
    let mut seabed = example();
    assert_eq!(seabed.steps_to_stopped(57), None);
}

#[test]
fn east_herd_moves_before_south_herd() {
    // The east cucumber leaves its cell in the first half-step, so the south
    // cucumber above the emptied cell can follow in the second.
    let mut seabed = Seabed::parse("..v.\n..>.\n....\n").unwrap();
    assert_eq!(seabed.step(), 2);
    assert_eq!(seabed.debug_string(), "....\n..v>\n....\n");
}

#[test]
fn herds_wrap_round_the_edges() {
    let mut seabed = Seabed::parse(".>\nv.\n").unwrap();
    assert_eq!(seabed.step_herd(Cuke::East), 1);
    assert_eq!(seabed.debug_string(), ">.\nv.\n");
    assert_eq!(seabed.step_herd(Cuke::South), 0);
    assert_eq!(seabed.coord_east(1, 0), (0, 0));
    assert_eq!(seabed.coord_south(0, 1), (0, 0));
}

#[test]
fn swap_exchanges_two_cells() {
    let mut seabed = Seabed::parse(">.\n.v\n").unwrap();
    seabed.swap_cukes((0, 0), (1, 1));
    assert_eq!(seabed.cukes, vec![vec![Cuke::South, Cuke::Empty], vec![Cuke::Empty, Cuke::East]]);
}

#[test]
fn parse_rejects_unknown_cells() {
    assert!(Seabed::parse(">x\n..\n").is_none());
    assert!(Seabed::parse(">.\n.\n").is_none());
}
