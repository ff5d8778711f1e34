use vstd::prelude::*;

verus! {

/// How many of the first `n` readings are larger than the reading before them.
pub open spec fn increases_upto(s: Seq<i32>, n: int) -> nat
    decreases n,
{
    if n <= 1 {
        0
    } else {
        increases_upto(s, n - 1) + if s[n - 1] > s[n - 2] { 1nat } else { 0nat }
    }
}

/// How many readings are larger than the reading before them.
pub fn count_increases(nums: &Vec<i32>) -> (r: u32)
    requires
        nums@.len() > 0,
        nums@.len() <= u32::MAX,
    ensures
        r == increases_upto(nums@, nums@.len() as int),
{
    let mut increases: u32 = 0;
    let mut last = nums[0];
    let mut i: usize = 0;
    while i < nums.len()
        invariant
            0 <= i <= nums@.len(),
            nums@.len() <= u32::MAX,
            last == nums@[if i == 0 { 0 } else { i - 1 }],
            increases == increases_upto(nums@, i as int),
            increases <= i,
        decreases nums@.len() - i,
    {
        let num = nums[i];
        if num > last {
            increases = increases + 1;
        }
        last = num;
        i = i + 1;
    }
    increases
}

/// Sums of each run of three consecutive readings fit in an `i32`.
pub open spec fn window_sums_fit(s: Seq<i32>) -> bool {
    forall|i: int| 0 <= i && i + 2 < s.len() ==> i32::MIN <= #[trigger] s[i] + s[i + 1] + s[i + 2] <= i32::MAX
}

/// The sum of each run of three consecutive readings, in order.
pub fn window_sums(nums: &Vec<i32>) -> (r: Vec<i32>)
    requires
        window_sums_fit(nums@),
    ensures
        r@.len() == if nums@.len() >= 3 { nums@.len() - 2 } else { 0 },
        forall|i: int| 0 <= i < r@.len() ==> #[trigger] r@[i] == nums@[i] + nums@[i + 1] + nums@[i + 2],
{
    let mut sums: Vec<i32> = Vec::new();
    let mut i: usize = 0;
    while nums.len() >= 3 && i < nums.len() - 2
        invariant
            window_sums_fit(nums@),
            i <= nums@.len(),
            nums@.len() >= 3 ==> i <= nums@.len() - 2,
            nums@.len() < 3 ==> i == 0,
            sums@.len() == i,
            forall|j: int| 0 <= j < i ==> #[trigger] sums@[j] == nums@[j] + nums@[j + 1] + nums@[j + 2],
        decreases nums@.len() - i,
    {
        proof {
            assert(i32::MIN <= nums@[i as int] + nums@[i + 1] + nums@[i + 2] <= i32::MAX);
        }
        sums.push((nums[i] as i64 + nums[i + 1] as i64 + nums[i + 2] as i64) as i32);
        i = i + 1;
    }
    sums
}

} // verus!
