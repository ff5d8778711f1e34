use vstd::prelude::*;

verus! {

/// The number whose decimal digits, most significant first, are the first `n` of `digits`.
pub open spec fn digits_value(digits: Seq<i32>, n: int) -> int
    decreases n,
{
    if n <= 0 {
        0
    } else {
        10 * digits_value(digits, n - 1) + digits[n - 1]
    }
}

proof fn lemma_digits_value_bound(digits: Seq<i32>, n: int)
    requires
        0 <= n <= digits.len(),
        forall|i: int| 0 <= i < digits.len() ==> 0 <= #[trigger] digits[i] <= 9,
    ensures
        0 <= digits_value(digits, n) < pow10(n as nat),
    decreases n,
{
    if n > 0 {
        lemma_digits_value_bound(digits, n - 1);
    }
}

pub open spec fn pow10(n: nat) -> int
    decreases n,
{
    if n == 0 {
        1
    } else {
        10 * pow10((n - 1) as nat)
    }
}

/// The fourteen digits read as one decimal number, first digit most significant.
pub fn join_to_int(digits: [i32; 14]) -> (r: u64)
    requires
        forall|i: int| 0 <= i < 14 ==> 0 <= #[trigger] digits@[i] <= 9,
    ensures
        r == digits_value(digits@, 14),
{
    let mut acc: u64 = 0;
    let mut i: usize = 0;
    proof {
        reveal_with_fuel(pow10, 15);
        assert(pow10(14) == 100_000_000_000_000);
    }
    while i < 14
        invariant
            i <= 14,
            forall|j: int| 0 <= j < 14 ==> 0 <= #[trigger] digits@[j] <= 9,
            acc == digits_value(digits@, i as int),
            pow10(14) == 100_000_000_000_000,
        decreases 14 - i,
    {
        proof {
            lemma_digits_value_bound(digits@, i as int + 1);
            lemma_pow10_monotone(i as nat + 1, 14);
        }
        acc = acc * 10 + digits[i] as u64;
        i = i + 1;
    }
    acc
}

proof fn lemma_pow10_monotone(a: nat, b: nat)
    requires
        a <= b,
    ensures
        1 <= pow10(a) <= pow10(b),
    decreases b,
{
    if a < b {
        lemma_pow10_monotone(a, (b - 1) as nat);
    } else if a > 0 {
        lemma_pow10_monotone((a - 1) as nat, (a - 1) as nat);
    }
}

} // verus!
