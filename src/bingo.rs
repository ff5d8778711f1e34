use vstd::prelude::*;

verus! {

#[derive(Clone, Copy, Debug, PartialEq, Eq, Structural)]
pub struct BoardNum {
    pub num: u32,
    pub is_marked: bool,
}

/// A five-by-five bingo card, row by row.
pub struct Board {
    pub nums: [BoardNum; 25],
}

/// The cells of row `r` (when `r < 5`) or of column `r - 5` (when `5 <= r < 10`).
pub open spec fn line_cell(r: int, k: int) -> int {
    if r < 5 {
        5 * r + k
    } else {
        (r - 5) + 5 * k
    }
}

/// Sum of the unmarked numbers among the first `n` cells.
pub open spec fn unmarked_sum(s: Seq<BoardNum>, n: int) -> int
    decreases n,
{
    if n <= 0 {
        0
    } else {
        unmarked_sum(s, n - 1) + if s[n - 1].is_marked { 0 } else { s[n - 1].num as int }
    }
}

impl Board {
    pub open spec fn marked(&self, i: int) -> bool {
        self.nums@[i].is_marked
    }

    /// All five cells of row or column `r` are marked.
    pub open spec fn line_done(&self, r: int) -> bool {
        forall|k: int| 0 <= k < 5 ==> #[trigger] self.marked(line_cell(r, k))
    }

    /// A card holding `nums` row by row, nothing marked.
    pub fn new(nums: &Vec<u32>) -> (r: Board)
        requires
            nums@.len() == 25,
        ensures
            forall|i: int| 0 <= i < 25 ==> #[trigger] r.nums@[i] == (BoardNum { num: nums@[i], is_marked: false }),
    {
        let mut nums_arr: [BoardNum; 25] = [BoardNum { num: 0, is_marked: false }; 25];
        let mut index: usize = 0;
        while index < 25
            invariant
                index <= 25,
                nums@.len() == 25,
                forall|i: int| 0 <= i < index ==> #[trigger] nums_arr@[i] == (BoardNum { num: nums@[i], is_marked: false }),
            decreases 25 - index,
        {
            nums_arr[index] = BoardNum { num: nums[index], is_marked: false };
            index = index + 1;
        }
        Board { nums: nums_arr }
    }

    /// Marks every cell that holds `number`.
    pub fn mark_if_present(&mut self, number: u32)
        ensures
            forall|i: int| 0 <= i < 25 ==> #[trigger] final(self).nums@[i] == (BoardNum {
                num: old(self).nums@[i].num,
                is_marked: old(self).nums@[i].is_marked || old(self).nums@[i].num == number,
            }),
    {
        let mut index: usize = 0;
        while index < 25
            invariant
                index <= 25,
                forall|i: int| 0 <= i < 25 ==> #[trigger] self.nums@[i] == (BoardNum {
                    num: old(self).nums@[i].num,
                    is_marked: old(self).nums@[i].is_marked || (i < index && old(self).nums@[i].num == number),
                }),
            decreases 25 - index,
        {
            if self.nums[index].num == number {
                self.nums[index].is_marked = true;
            }
            index = index + 1;
        }
    }

    /// Some row or column is wholly marked.
    pub fn is_bingo(&self) -> (r: bool)
        ensures
            r == exists|l: int| 0 <= l < 10 && #[trigger] self.line_done(l),
    {
        let mut l: usize = 0;
        while l < 10
            invariant
                l <= 10,
                forall|m: int| 0 <= m < l ==> !#[trigger] self.line_done(m),
            decreases 10 - l,
        {
            let indexes: [usize; 5] = if l < 5 {
                [5 * l, 5 * l + 1, 5 * l + 2, 5 * l + 3, 5 * l + 4]
            } else {
                [l - 5, l, l + 5, l + 10, l + 15]
            };
            assert forall|k: int| 0 <= k < 5 implies #[trigger] indexes@[k] == line_cell(l as int, k) by {}
            if self.are_marked(indexes) {
                assert(self.line_done(l as int));
                return true;
            }
            assert(!self.line_done(l as int)) by {
                let k = choose|k: int| 0 <= k < 5 && !self.marked(#[trigger] indexes@[k] as int);
                assert(!self.marked(line_cell(l as int, k)));
            }
            l = l + 1;
        }
        false
    }

    pub fn is_marked(&self, index: usize) -> (r: bool)
        requires
            index < 25,
        ensures
            r == self.marked(index as int),
    {
        self.nums[index].is_marked
    }

    /// All five given cells are marked.
    pub fn are_marked(&self, indexes: [usize; 5]) -> (r: bool)
        requires
            forall|k: int| 0 <= k < 5 ==> #[trigger] indexes@[k] < 25,
        ensures
            r == forall|k: int| 0 <= k < 5 ==> self.marked(#[trigger] indexes@[k] as int),
    {
        let r = self.is_marked(indexes[0]) && self.is_marked(indexes[1]) && self.is_marked(indexes[2])
            && self.is_marked(indexes[3]) && self.is_marked(indexes[4]);
        assert(r == forall|k: int| 0 <= k < 5 ==> self.marked(#[trigger] indexes@[k] as int)) by {
            if !r {
                assert(!self.marked(indexes@[0] as int) || !self.marked(indexes@[1] as int) || !self.marked(
                    indexes@[2] as int,
                ) || !self.marked(indexes@[3] as int) || !self.marked(indexes@[4] as int));
            }
        }
        r
    }

    /// Sum of the numbers not yet marked.
    pub fn sum_of_unmarked(&self) -> (r: u32)
        requires
            unmarked_sum(self.nums@, 25) <= u32::MAX,
        ensures
            r == unmarked_sum(self.nums@, 25),
    {
        let mut total: u64 = 0;
        let mut i: usize = 0;
        while i < 25
            invariant
                i <= 25,
                total == unmarked_sum(self.nums@, i as int),
                total <= i * 0xffff_ffff,
            decreases 25 - i,
        {
            if !self.nums[i].is_marked {
                total = total + self.nums[i].num as u64;
            }
            i = i + 1;
        }
        total as u32
    }
}

} // verus!
