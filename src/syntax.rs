use vstd::prelude::*;
use vstd::string::StrSliceExecFns;

verus! {

pub open spec fn is_opener(c: char) -> bool {
    c == '(' || c == '[' || c == '{' || c == '<'
}

pub open spec fn is_closer(c: char) -> bool {
    c == ')' || c == ']' || c == '}' || c == '>'
}

/// The opening bracket that `c` closes.
pub open spec fn partner(c: char) -> char {
    if c == ')' {
        '('
    } else if c == ']' {
        '['
    } else if c == '}' {
        '{'
    } else {
        '<'
    }
}

/// What reading the line from position `i`, with `stack` still open, finds:
/// `(true, open, _)` when it stops with the brackets `open` unclosed, or
/// `(false, _, c)` at the first closing bracket `c` that does not match.
pub open spec fn scan_chunk(s: Seq<char>, i: int, stack: Seq<char>) -> (bool, Seq<char>, char)
    decreases s.len() - i,
{
    if i >= s.len() || i < 0 {
        (true, stack, ' ')
    } else if is_opener(s[i]) {
        scan_chunk(s, i + 1, stack.push(s[i]))
    } else if stack.len() == 0 {
        (true, stack, ' ')
    } else if stack.last() != partner(s[i]) {
        (false, Seq::empty(), s[i])
    } else {
        scan_chunk(s, i + 1, stack.drop_last())
    }
}

pub enum ChunkParseResult {
    Incomplete(Vec<char>),
    Corrupted(char),
}

/// Reads a line of brackets: reports the first closing bracket that does not
/// match, or else the brackets left open. A closing bracket with nothing open
/// ends the reading with nothing open.
pub fn parse_chunk(chunk: &str) -> (r: ChunkParseResult)
    requires
        forall|i: int| 0 <= i < chunk@.len() ==> is_opener(#[trigger] chunk@[i]) || is_closer(chunk@[i]),
    ensures
        match r {
            ChunkParseResult::Incomplete(open) => scan_chunk(chunk@, 0, Seq::empty()) == (true, open@, ' '),
            ChunkParseResult::Corrupted(c) => scan_chunk(chunk@, 0, Seq::empty()) == (false, Seq::<char>::empty(), c),
        },
{
    let n = chunk.unicode_len();
    let mut open_brackets: Vec<char> = Vec::new();
    let mut i: usize = 0;
    while i < n
        invariant
            n == chunk@.len(),
            i <= n,
            forall|j: int| 0 <= j < chunk@.len() ==> is_opener(#[trigger] chunk@[j]) || is_closer(chunk@[j]),
            scan_chunk(chunk@, i as int, open_brackets@) == scan_chunk(chunk@, 0, Seq::empty()),
        decreases n - i,
    {
        let bracket = chunk.get_char(i);
        if bracket == '(' || bracket == '[' || bracket == '{' || bracket == '<' {
            open_brackets.push(bracket);
        } else {
            if open_brackets.len() == 0 {
                return ChunkParseResult::Incomplete(open_brackets);
            }
            let expected = if bracket == ')' {
                '('
            } else if bracket == ']' {
                '['
            } else if bracket == '}' {
                '{'
            } else {
                '<'
            };
            let most_recent_open = open_brackets.pop().unwrap();
            if most_recent_open != expected {
                return ChunkParseResult::Corrupted(bracket);
            }
        }
        i = i + 1;
    }
    ChunkParseResult::Incomplete(open_brackets)
}

pub open spec fn corruption_points(c: char) -> u32 {
    if c == ')' {
        3
    } else if c == ']' {
        57
    } else if c == '}' {
        1197
    } else {
        25137
    }
}

pub fn corrupted_score(bracket: &char) -> (r: u32)
    requires
        is_closer(*bracket),
    ensures
        r == corruption_points(*bracket),
{
    match *bracket {
        ')' => 3u32,
        ']' => 57,
        '}' => 1197,
        _ => 25137,
    }
}

pub open spec fn completion_points(c: char) -> int {
    if c == '(' {
        1
    } else if c == '[' {
        2
    } else if c == '{' {
        3
    } else {
        4
    }
}

/// The brackets' points read as digits in base 5, first bracket first.
pub open spec fn completion_score(s: Seq<char>) -> int
    decreases s.len(),
{
    if s.len() == 0 {
        0
    } else {
        5 * completion_score(s.drop_last()) + completion_points(s.last())
    }
}

proof fn lemma_completion_score_grows(s: Seq<char>, n: int)
    requires
        0 <= n <= s.len(),
    ensures
        0 <= completion_score(s.subrange(0, n)) <= completion_score(s),
    decreases s.len() - n,
{
    if n < s.len() {
        lemma_completion_score_grows(s, n + 1);
        assert(s.subrange(0, n + 1).drop_last() =~= s.subrange(0, n));
    } else {
        assert(s.subrange(0, n) =~= s);
    }
    lemma_completion_score_nonneg(s.subrange(0, n));
}

proof fn lemma_completion_score_nonneg(s: Seq<char>)
    ensures
        completion_score(s) >= 0,
    decreases s.len(),
{
    if s.len() > 0 {
        lemma_completion_score_nonneg(s.drop_last());
    }
}

/// Reverses the still-open brackets into the order they must be closed in,
/// and scores that closing sequence.
pub fn incomplete_score(open_brackets: &mut Vec<char>) -> (r: u128)
    requires
        old(open_brackets)@.len() > 0,
        forall|i: int| 0 <= i < old(open_brackets)@.len() ==> is_opener(#[trigger] old(open_brackets)@[i]),
        completion_score(old(open_brackets)@.reverse()) <= u128::MAX,
    ensures
        final(open_brackets)@ == old(open_brackets)@.reverse(),
        r == completion_score(old(open_brackets)@.reverse()),
{
    let n = open_brackets.len();
    let ghost orig = open_brackets@;
    let mut reversed: Vec<char> = Vec::new();
    let mut k: usize = 0;
    while k < n
        invariant
            n == orig.len(),
            open_brackets@ == orig,
            k <= n,
            reversed@ == orig.reverse().subrange(0, k as int),
        decreases n - k,
    {
        reversed.push(open_brackets[n - 1 - k]);
        k = k + 1;
        assert(reversed@ =~= orig.reverse().subrange(0, k as int));
    }
    assert(reversed@ =~= orig.reverse());
    *open_brackets = reversed;
    let mut acc: u128 = 0;
    let mut i: usize = 0;
    while i < n
        invariant
            n == open_brackets@.len(),
            open_brackets@ == orig.reverse(),
            completion_score(orig.reverse()) <= u128::MAX,
            i <= n,
            acc == completion_score(open_brackets@.subrange(0, i as int)),
        decreases n - i,
    {
        let open = open_brackets[i];
        let score: u128 = if open == '(' {
            1
        } else if open == '[' {
            2
        } else if open == '{' {
            3
        } else {
            4
        };
        proof {
            lemma_completion_score_grows(open_brackets@, i + 1);
            assert(open_brackets@.subrange(0, i + 1).drop_last() =~= open_brackets@.subrange(0, i as int));
        }
        acc = acc * 5 + score;
        i = i + 1;
    }
    assert(open_brackets@.subrange(0, n as int) =~= open_brackets@);
    acc
}

} // verus!
