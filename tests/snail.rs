use aoc2021::snail::{consume, SnailNode};

fn sn(input: &str) -> SnailNode {
    SnailNode::parse(input).expect("well-formed snailfish number")
}

#[test]
fn test_magnitude() {
    assert_eq!(sn("[9,1]").magnitude(), 29);
    assert_eq!(sn("[1,9]").magnitude(), 21);
    assert_eq!(sn("[[9,1],[1,9]]").magnitude(), 129);
    assert_eq!(sn("[[[[8,7],[7,7]],[[8,6],[7,7]]],[[[0,7],[6,6]],[8,7]]]").magnitude(), 3488);
}

#[test]
fn parses_nested_pairs() {
    let n = sn("[[1,2],3]");
    assert_eq!(
        n,
        SnailNode::Pair(
            Box::new(SnailNode::Pair(Box::new(SnailNode::Literal(1)), Box::new(SnailNode::Literal(2)))),
            Box::new(SnailNode::Literal(3)),
        )
    );
    // What follows the first pair is not read.
    assert_eq!(sn("[4,5]xyz"), sn("[4,5]"));
}

#[test]
fn rejects_malformed_numbers() {
    assert_eq!(SnailNode::parse("7"), None);
    assert_eq!(SnailNode::parse("[1,2"), None);
    assert_eq!(SnailNode::parse("[1;2]"), None);
    assert_eq!(SnailNode::parse("[12,3]"), None);
    assert_eq!(SnailNode::parse(""), None);
}

#[test]
fn consume_checks_one_character() {
    let chars: Vec<char> = "[1,2]".chars().collect();
    assert!(consume('[', &chars, 0));
    assert!(!consume(',', &chars, 0));
    assert!(consume(']', &chars, 4));
    assert!(!consume(']', &chars, 5));
}
