use crate::reactor::{AxisRange, Cuboid, Instruction};
use vstd::prelude::*;

verus! {

pub open spec fn is_digit(c: u8) -> bool {
    48 <= c <= 57
}

/// End of the run of decimal digits that starts at `i`.
pub open spec fn digit_run_end(s: Seq<u8>, i: nat) -> nat
    decreases s.len() - i,
{
    if i < s.len() && is_digit(s[i as int]) {
        digit_run_end(s, i + 1)
    } else {
        i
    }
}

/// Value of the decimal digits `s[i..j]`.
pub open spec fn digits_value(s: Seq<u8>, i: nat, j: nat) -> int
    decreases j,
{
    if j <= i {
        0
    } else {
        10 * digits_value(s, i, (j - 1) as nat) + (s[j - 1] - 48)
    }
}

/// The integer written at `i` (an optional `-`, then one or more digits) and the
/// position just past it.
pub open spec fn scan_int(s: Seq<u8>, i: nat) -> Option<(int, nat)> {
    let neg = i < s.len() && s[i as int] == 45;
    let start: nat = if neg { i + 1 } else { i };
    let end = digit_run_end(s, start);
    if end == start {
        None
    } else {
        let v = digits_value(s, start, end);
        Some((if neg { -v } else { v }, end))
    }
}

/// `scan_int`, where the value fits in an `i32`.
pub open spec fn scan_i32(s: Seq<u8>, i: nat) -> Option<(i32, nat)> {
    match scan_int(s, i) {
        Some((v, e)) => if i32::MIN <= v <= i32::MAX {
            Some((v as i32, e))
        } else {
            None
        },
        None => None,
    }
}

proof fn lemma_digit_run_end(s: Seq<u8>, i: nat)
    requires
        i <= s.len(),
    ensures
        i <= digit_run_end(s, i) <= s.len(),
        forall|k: int| i <= k < digit_run_end(s, i) ==> is_digit(#[trigger] s[k]),
        digit_run_end(s, i) < s.len() ==> !is_digit(s[digit_run_end(s, i) as int]),
    decreases s.len() - i,
{
    if i < s.len() && is_digit(s[i as int]) {
        lemma_digit_run_end(s, i + 1);
    }
}

proof fn lemma_digits_value_nonneg(s: Seq<u8>, i: nat, j: nat)
    requires
        forall|k: int| i <= k < j ==> is_digit(#[trigger] s[k]),
    ensures
        digits_value(s, i, j) >= 0,
    decreases j,
{
    if j > i {
        lemma_digits_value_nonneg(s, i, (j - 1) as nat);
    }
}

/// Reads the integer written at `i` of `s`, as `scan_i32` says.
pub fn parse_int(s: &[u8], i: usize) -> (r: Option<(i32, usize)>)
    ensures
        r matches Some((v, e)) ==> scan_i32(s@, i as nat) == Some((v, e as nat)),
        r is None ==> scan_i32(s@, i as nat) is None,
{
    let n = s.len();
    if i > n {
        return None;
    }
    let neg = i < n && s[i] == 45;
    let start = if neg { i + 1 } else { i };
    proof {
        lemma_digit_run_end(s@, start as nat);
    }
    let ghost end = digit_run_end(s@, start as nat);
    let mut j: usize = start;
    let mut value: i64 = 0;
    while j < n && 48 <= s[j] && s[j] <= 57
        invariant
            start <= j <= n,
            n == s@.len(),
            i <= n,
            neg == (i < n && s@[i as int] == 45),
            start == if neg { i + 1 } else { i as int },
            j <= end,
            end == digit_run_end(s@, start as nat),
            start <= end <= n,
            forall|k: int| start <= k < end ==> is_digit(#[trigger] s@[k]),
            end < n ==> !is_digit(s@[end as int]),
            value == digits_value(s@, start as nat, j as nat),
            0 <= value <= 0x8000_0000,
        decreases n - j,
    {
        value = value * 10 + (s[j] - 48) as i64;
        j = j + 1;
        if value > 0x8000_0000 {
            proof {
                lemma_digits_grow(s@, start as nat, j as nat, end);
            }
            return None;
        }
    }
    if j == start {
        return None;
    }
    let v: i64 = if neg { -value } else { value };
    if v > 0x7fff_ffff {
        return None;
    }
    Some((v as i32, j))
}

proof fn lemma_digits_grow(s: Seq<u8>, i: nat, j: nat, e: nat)
    requires
        i <= j <= e,
        forall|k: int| i <= k < e ==> is_digit(#[trigger] s[k]),
    ensures
        digits_value(s, i, e) >= digits_value(s, i, j),
    decreases e - j,
{
    if j < e {
        lemma_digits_grow(s, i, j + 1, e);
        lemma_digits_value_nonneg(s, i, j);
    }
}

/// `<label>=<a>..<b>` at `i`, with `a <= b`, and the position just past it.
pub open spec fn scan_range(s: Seq<u8>, i: nat, label: u8) -> Option<(AxisRange, nat)> {
    if i + 2 <= s.len() && s[i as int] == label && s[i + 1int] == 61 {
        match scan_i32(s, i + 2) {
            Some((a, j)) => if j + 2 <= s.len() && s[j as int] == 46 && s[j + 1int] == 46 {
                match scan_i32(s, j + 2) {
                    Some((b, k)) => if a <= b {
                        Some((AxisRange { start: a, end: b }, k))
                    } else {
                        None
                    },
                    None => None,
                }
            } else {
                None
            },
            None => None,
        }
    } else {
        None
    }
}

/// The box written from `i` to the end of `s` as `x=<a>..<b>,y=<c>..<d>,z=<e>..<f>`.
pub open spec fn scan_cuboid(s: Seq<u8>, i: nat) -> Option<Cuboid> {
    match scan_range(s, i, 120) {
        Some((x, j)) => if j < s.len() && s[j as int] == 44 {
            match scan_range(s, j + 1, 121) {
                Some((y, k)) => if k < s.len() && s[k as int] == 44 {
                    match scan_range(s, k + 1, 122) {
                        Some((z, e)) => if e == s.len() {
                            Some(Cuboid { x_range: x, y_range: y, z_range: z })
                        } else {
                            None
                        },
                        None => None,
                    }
                } else {
                    None
                },
                None => None,
            }
        } else {
            None
        },
        None => None,
    }
}

/// A line `on <box>` or `off <box>`.
pub open spec fn scan_instruction(s: Seq<u8>) -> Option<Instruction> {
    if s.len() >= 3 && s[0] == 111 && s[1] == 110 && s[2] == 32 {
        match scan_cuboid(s, 3) {
            Some(c) => Some(Instruction { is_on: true, cuboid: c }),
            None => None,
        }
    } else if s.len() >= 4 && s[0] == 111 && s[1] == 102 && s[2] == 102 && s[3] == 32 {
        match scan_cuboid(s, 4) {
            Some(c) => Some(Instruction { is_on: false, cuboid: c }),
            None => None,
        }
    } else {
        None
    }
}

pub fn parse_range(s: &[u8], i: usize, label: u8) -> (r: Option<(AxisRange, usize)>)
    ensures
        r matches Some((v, e)) ==> scan_range(s@, i as nat, label) == Some((v, e as nat)),
        r is None ==> scan_range(s@, i as nat, label) is None,
{
    if !(i <= s.len() && s.len() - i >= 2 && s[i] == label && s[i + 1] == 61) {
        return None;
    }
    let (a, j) = match parse_int(s, i + 2) {
        Some(p) => p,
        None => return None,
    };
    if !(j <= s.len() && s.len() - j >= 2 && s[j] == 46 && s[j + 1] == 46) {
        return None;
    }
    let (b, k) = match parse_int(s, j + 2) {
        Some(p) => p,
        None => return None,
    };
    if a <= b {
        Some((AxisRange { start: a, end: b }, k))
    } else {
        None
    }
}

pub fn parse_cuboid(s: &[u8], i: usize) -> (r: Option<Cuboid>)
    ensures
        r == scan_cuboid(s@, i as nat),
{
    let (x, j) = match parse_range(s, i, 120) {
        Some(p) => p,
        None => return None,
    };
    if !(j < s.len() && s[j] == 44) {
        return None;
    }
    let (y, k) = match parse_range(s, j + 1, 121) {
        Some(p) => p,
        None => return None,
    };
    if !(k < s.len() && s[k] == 44) {
        return None;
    }
    let (z, e) = match parse_range(s, k + 1, 122) {
        Some(p) => p,
        None => return None,
    };
    if e == s.len() {
        Some(Cuboid { x_range: x, y_range: y, z_range: z })
    } else {
        None
    }
}

pub fn parse_instruction(s: &[u8]) -> (r: Option<Instruction>)
    ensures
        r == scan_instruction(s@),
{
    if s.len() >= 3 && s[0] == 111 && s[1] == 110 && s[2] == 32 {
        match parse_cuboid(s, 3) {
            Some(c) => Some(Instruction { is_on: true, cuboid: c }),
            None => None,
        }
    } else if s.len() >= 4 && s[0] == 111 && s[1] == 102 && s[2] == 102 && s[3] == 32 {
        match parse_cuboid(s, 4) {
            Some(c) => Some(Instruction { is_on: false, cuboid: c }),
            None => None,
        }
    } else {
        None
    }
}

} // verus!
