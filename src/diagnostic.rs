use vstd::prelude::*;
use vstd::string::StrSliceExecFns;

verus! {

/// How many of the first `n` lines hold a `'1'` at `index`.
pub open spec fn ones_at(lines: Seq<Seq<char>>, index: int, n: int) -> nat
    decreases n,
{
    if n <= 0 {
        0
    } else {
        ones_at(lines, index, n - 1) + if lines[n - 1][index] == '1' { 1nat } else { 0nat }
    }
}

/// At least half of the lines hold a `'1'` at `index`.
pub fn is_mostly_one_at_index(lines: &Vec<&String>, index: usize) -> (r: bool)
    requires
        forall|k: int| 0 <= k < lines@.len() ==> index < (#[trigger] lines@[k])@.len(),
    ensures
        r == (2 * ones_at(lines@.map_values(|l: &String| l@), index as int, lines@.len() as int) >= lines@.len()),
{
    let ghost text = lines@.map_values(|l: &String| l@);
    let mut ones: usize = 0;
    let mut k: usize = 0;
    while k < lines.len()
        invariant
            k <= lines@.len(),
            text == lines@.map_values(|l: &String| l@),
            forall|j: int| 0 <= j < lines@.len() ==> index < (#[trigger] lines@[j])@.len(),
            ones == ones_at(text, index as int, k as int),
            ones <= k,
        decreases lines@.len() - k,
    {
        let line: &String = lines[k];
        if line.as_str().get_char(index) == '1' {
            ones = ones + 1;
        }
        k = k + 1;
    }
    ones as u128 * 2 >= lines.len() as u128
}

} // verus!
