use vstd::prelude::*;
use vstd::string::StrSliceExecFns;

verus! {

/// A snailfish number: a regular number, or a pair of snailfish numbers.
#[derive(Debug, PartialEq, Eq)]
pub enum SnailNode {
    Literal(u32),
    Pair(Box<SnailNode>, Box<SnailNode>),
}

/// Three times the left magnitude plus twice the right, down to the regular numbers.
pub open spec fn magnitude_of(n: SnailNode) -> int
    decreases n,
{
    match n {
        SnailNode::Literal(v) => v as int,
        SnailNode::Pair(l, r) => 3 * magnitude_of(*l) + 2 * magnitude_of(*r),
    }
}

pub open spec fn is_digit(c: char) -> bool {
    '0' <= c <= '9'
}

/// The number written at `i` of `s`, as a regular number (one digit) or a pair
/// `[left,right]`, and the position just past it; `None` where `s` holds no such
/// text there. `depth` bounds how deep pairs may nest.
pub open spec fn scan_node(s: Seq<char>, i: int, depth: nat) -> Option<(SnailNode, int)>
    decreases depth, 1nat,
{
    if i < 0 || i >= s.len() {
        None
    } else if is_digit(s[i]) {
        Some((SnailNode::Literal((s[i] as u32 - '0' as u32) as u32), i + 1))
    } else {
        scan_pair(s, i, depth)
    }
}

/// A pair `[left,right]` at `i` of `s`, its parts read with `scan_node`.
pub open spec fn scan_pair(s: Seq<char>, i: int, depth: nat) -> Option<(SnailNode, int)>
    decreases depth, 0nat,
{
    if !(0 <= i < s.len() && s[i] == '[' && depth > 0) {
        None
    } else {
        match scan_node(s, i + 1, (depth - 1) as nat) {
            Some((l, j)) => if 0 <= j < s.len() && s[j] == ',' {
                match scan_node(s, j + 1, (depth - 1) as nat) {
                    Some((r, k)) => if 0 <= k < s.len() && s[k] == ']' {
                        Some((SnailNode::Pair(Box::new(l), Box::new(r)), k + 1))
                    } else {
                        None
                    },
                    None => None,
                }
            } else {
                None
            },
            None => None,
        }
    }
}

impl SnailNode {
    /// Reads the pair that `input` starts with; what follows it is ignored.
    pub fn parse(input: &str) -> (r: Option<SnailNode>)
        ensures
            r == match scan_pair(input@, 0, input@.len()) {
                Some((n, _)) => Some(n),
                None => None,
            },
    {
        let chars = chars_of(input);
        match parse_pair(&chars, 0, chars.len()) {
            Some((n, _)) => Some(n),
            None => None,
        }
    }

    pub fn magnitude(&self) -> (r: u32)
        requires
            magnitude_of(*self) <= u32::MAX,
        ensures
            r == magnitude_of(*self),
        decreases self,
    {
        match self {
            SnailNode::Literal(v) => *v,
            SnailNode::Pair(l, r) => {
                proof {
                    lemma_magnitude_nonneg(**l);
                    lemma_magnitude_nonneg(**r);
                }
                3 * l.magnitude() + 2 * r.magnitude()
            },
        }
    }
}

proof fn lemma_magnitude_nonneg(n: SnailNode)
    ensures
        magnitude_of(n) >= 0,
    decreases n,
{
    match n {
        SnailNode::Literal(_) => {},
        SnailNode::Pair(l, r) => {
            lemma_magnitude_nonneg(*l);
            lemma_magnitude_nonneg(*r);
        },
    }
}

/// The characters of `s`, in order.
fn chars_of(s: &str) -> (r: Vec<char>)
    ensures
        r@ == s@,
{
    let n = s.unicode_len();
    let mut out: Vec<char> = Vec::new();
    let mut i: usize = 0;
    while i < n
        invariant
            n == s@.len(),
            i <= n,
            out@ == s@.subrange(0, i as int),
        decreases n - i,
    {
        out.push(s.get_char(i));
        i = i + 1;
        assert(out@ =~= s@.subrange(0, i as int));
    }
    assert(out@ =~= s@);
    out
}

/// Checks that `chars` holds `expected` at `i`.
pub fn consume(expected: char, chars: &Vec<char>, i: usize) -> (r: bool)
    ensures
        r == (i < chars@.len() && chars@[i as int] == expected),
{
    i < chars.len() && chars[i] == expected
}

fn parse_node(chars: &Vec<char>, i: usize, depth: usize) -> (r: Option<(SnailNode, usize)>)
    ensures
        r matches Some((n, j)) ==> scan_node(chars@, i as int, depth as nat) == Some((n, j as int)),
        r is None ==> scan_node(chars@, i as int, depth as nat) is None,
    decreases depth, 1nat,
{
    if i >= chars.len() {
        return None;
    }
    let c = chars[i];
    if '0' <= c && c <= '9' {
        Some((SnailNode::Literal(c as u32 - '0' as u32), i + 1))
    } else {
        parse_pair(chars, i, depth)
    }
}

fn parse_pair(chars: &Vec<char>, i: usize, depth: usize) -> (r: Option<(SnailNode, usize)>)
    ensures
        r matches Some((n, j)) ==> scan_pair(chars@, i as int, depth as nat) == Some((n, j as int)),
        r is None ==> scan_pair(chars@, i as int, depth as nat) is None,
    decreases depth, 0nat,
{
    let n = chars.len();
    if !consume('[', chars, i) || depth == 0 {
        return None;
    }
    let (left, j) = match parse_node(chars, i + 1, depth - 1) {
        Some(p) => p,
        None => return None,
    };
    if !consume(',', chars, j) {
        return None;
    }
    let (right, k) = match parse_node(chars, j + 1, depth - 1) {
        Some(p) => p,
        None => return None,
    };
    if !consume(']', chars, k) {
        return None;
    }
    Some((SnailNode::Pair(Box::new(left), Box::new(right)), k + 1))
}

} // verus!
