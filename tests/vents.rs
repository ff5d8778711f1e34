use aoc2021::vents::{count_multiple_vents, counts_fit, parse_vent_line, record_vents, Segment, FIELD};

const EXAMPLE: &str = "0,9 -> 5,9
8,0 -> 0,8
9,4 -> 3,4
2,2 -> 2,1
7,0 -> 7,4
6,4 -> 2,0
0,9 -> 2,9
3,4 -> 1,4
0,0 -> 8,8
5,5 -> 8,2";

fn segments() -> Vec<Segment> {
    EXAMPLE.lines().map(|l| parse_vent_line(l).expect("well-formed line")).collect()
}

#[test]
fn example_counts_overlaps_without_and_with_diagonals() {
    let (straight, diagonal): (Vec<Segment>, Vec<Segment>) =
        segments().into_iter().partition(|(a, b)| a.0 == b.0 || a.1 == b.1);
    let mut counts = vec![0u8; FIELD * FIELD];
    record_vents(&straight, &mut counts);
    assert_eq!(count_multiple_vents(&counts), 5);
    record_vents(&diagonal, &mut counts);
    assert_eq!(count_multiple_vents(&counts), 12);
}

#[test]
fn record_vents_covers_both_ends() {
    let mut counts = vec![0u8; FIELD * FIELD];
    record_vents(&vec![((3, 1), (1, 3)), ((2, 2), (2, 2))], &mut counts);
    assert_eq!(counts[1 * FIELD + 3], 1);
    assert_eq!(counts[2 * FIELD + 2], 2);
    assert_eq!(counts[3 * FIELD + 1], 1);
    assert_eq!(counts.iter().map(|&c| c as usize).sum::<usize>(), 4);
    assert_eq!(count_multiple_vents(&counts), 1);
}

#[test]
fn parses_vent_lines() {
    assert_eq!(parse_vent_line("0,9 -> 5,9"), Some(((0, 9), (5, 9))));
    assert_eq!(parse_vent_line("123,4 -> 0,999"), Some(((123, 4), (0, 999))));
    assert_eq!(parse_vent_line("0,9 ->5,9"), None);
    assert_eq!(parse_vent_line("-1,9 -> 5,9"), None);
    assert_eq!(parse_vent_line("0,9 -> 5,9 "), None);
}

#[test]
fn counts_fit_detects_overflow() {
    let mut counts = vec![0u8; FIELD * FIELD];
    counts[5] = 254;
    let one = vec![((5, 0), (5, 0))];
    let two = vec![((5, 0), (5, 0)), ((0, 0), (9, 0))];
    assert!(counts_fit(&one, &counts));
    assert!(!counts_fit(&two, &counts));
    record_vents(&one, &mut counts);
    assert_eq!(counts[5], 255);
}
