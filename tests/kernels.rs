use aoc2021::bingo::{Board, BoardNum};
use aoc2021::diagnostic::is_mostly_one_at_index;
use aoc2021::heightmap::get_height;
use aoc2021::monad::join_to_int;
use aoc2021::segments::{contains_all_chars, extra_char, subtract};
use aoc2021::sonar::count_increases;
use aoc2021::syntax::{corrupted_score, incomplete_score, parse_chunk, ChunkParseResult};

#[test]
fn counts_depth_increases() {
    let depths = vec![199, 200, 208, 210, 200, 207, 240, 269, 260, 263];
    assert_eq!(count_increases(&depths), 7);
    assert_eq!(count_increases(&vec![5]), 0);
    assert_eq!(count_increases(&vec![3, 3, 2]), 0);
}

#[test]
fn majority_of_ones() {
    let lines: Vec<String> = ["00100", "11110", "10110", "10111"].iter().map(|s| s.to_string()).collect();
    let refs: Vec<&String> = lines.iter().collect();
    assert!(is_mostly_one_at_index(&refs, 0));
    assert!(is_mostly_one_at_index(&refs, 3));
    assert!(!is_mostly_one_at_index(&refs, 4));
    // One of two is a tie, which counts as mostly one.
    assert!(is_mostly_one_at_index(&refs[..2].to_vec(), 1));
    assert!(!is_mostly_one_at_index(&refs[..1].to_vec(), 0));
}

fn board() -> Board {
    let nums: Vec<u32> = (1..=25).collect();
    Board::new(&nums)
}

#[test]
fn bingo_needs_a_full_row_or_column() {
    let mut b = board();
    assert!(!b.is_bingo());
    for n in [3, 8, 13, 18] {
        b.mark_if_present(n);
    }
    assert!(!b.is_bingo());
    b.mark_if_present(23);
    assert!(b.is_bingo());
    assert!(b.are_marked([2, 7, 12, 17, 22]));
    assert!(b.is_marked(22));
    assert!(!b.is_marked(0));
    assert_eq!(b.sum_of_unmarked(), 325 - (3 + 8 + 13 + 18 + 23));
}

#[test]
fn bingo_row() {
    let mut b = board();
    for n in [11, 12, 13, 14, 15, 99] {
        b.mark_if_present(n);
    }
    assert!(b.is_bingo());
    assert_eq!(b.nums[10], BoardNum { num: 11, is_marked: true });
    assert_eq!(b.nums[9], BoardNum { num: 10, is_marked: false });
}

#[test]
fn segment_character_sets() {
    assert_eq!(extra_char("dab", "ab"), 'd');
    assert_eq!(extra_char("ab", "abg"), 'g');
    assert!(contains_all_chars("fbcad", "dab"));
    assert!(!contains_all_chars("fbcad", "eab"));
    let mut diff = subtract("fbcad", "ab");
    diff.sort();
    assert_eq!(diff, vec!['c', 'd', 'f']);
    assert_eq!(subtract("aab", "b"), vec!['a']);
}

#[test]
fn bracket_lines() {
    match parse_chunk("{([(<{}[<>[]}>{[]{[(<()>") {
        ChunkParseResult::Corrupted(c) => assert_eq!(c, '}'),
        ChunkParseResult::Incomplete(_) => panic!("expected a corrupted line"),
    }
    match parse_chunk("[({(<(())[]>[[{[]{<()<>>") {
        ChunkParseResult::Incomplete(mut open) => {
            assert_eq!(open.iter().collect::<String>(), "[({([[{{");
            assert_eq!(incomplete_score(&mut open), 288957);
            assert_eq!(open.iter().collect::<String>(), "{{[[({([");
        }
        ChunkParseResult::Corrupted(_) => panic!("expected an incomplete line"),
    }
    match parse_chunk("()]") {
        ChunkParseResult::Incomplete(open) => assert!(open.is_empty()),
        ChunkParseResult::Corrupted(_) => panic!("a stray closer ends the line"),
    }
    assert_eq!(corrupted_score(&')'), 3);
    assert_eq!(corrupted_score(&']'), 57);
    assert_eq!(corrupted_score(&'}'), 1197);
    assert_eq!(corrupted_score(&'>'), 25137);
}

#[test]
fn heights_inside_and_outside_the_map() {
    let map = vec![vec![2, 1, 9], vec![3, 9, 8]];
    assert_eq!(get_height(&map, &1, &0), Some(&1));
    assert_eq!(get_height(&map, &2, &1), Some(&8));
    assert_eq!(get_height(&map, &3, &0), None);
    assert_eq!(get_height(&map, &0, &2), None);
}

#[test]
fn digits_join_into_a_number() {
    assert_eq!(join_to_int([9, 2, 9, 1, 5, 9, 7, 9, 9, 9, 9, 4, 9, 8]), 92915979999498);
    assert_eq!(join_to_int([0, 0, 0, 0, 0, 0, 0, 0, 0, 0, 0, 0, 0, 7]), 7);
}
