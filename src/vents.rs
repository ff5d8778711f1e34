use crate::parse::{parse_int, scan_i32};
use vstd::prelude::*;
use vstd::string::StringSliceAdditionalSpecFns;

verus! {

/// Side of the square field, in cells.
pub const FIELD: usize = 1000;

/// A line of vents between two cells `(x, y)`, both ends included.
pub type Segment = ((usize, usize), (usize, usize));

pub open spec fn gap(a: usize, b: usize) -> int {
    if a <= b {
        b - a
    } else {
        a - b
    }
}

/// -1, 0 or 1: the direction from `a` to `b`.
pub open spec fn sign(a: usize, b: usize) -> int {
    if a < b {
        1
    } else if a > b {
        -1
    } else {
        0
    }
}

/// The segment lies in the field and runs horizontally, vertically or at 45 degrees.
pub open spec fn drawable(s: Segment) -> bool {
    &&& s.0.0 < FIELD && s.0.1 < FIELD && s.1.0 < FIELD && s.1.1 < FIELD
    &&& (s.0.0 == s.1.0 || s.0.1 == s.1.1 || gap(s.0.0, s.1.0) == gap(s.0.1, s.1.1))
}

/// Number of cells the segment covers, less one.
pub open spec fn seg_len(s: Segment) -> int {
    if gap(s.0.0, s.1.0) >= gap(s.0.1, s.1.1) {
        gap(s.0.0, s.1.0)
    } else {
        gap(s.0.1, s.1.1)
    }
}

/// The `t`th cell of the segment from its first end, as an index into the field.
pub open spec fn seg_cell(s: Segment, t: int) -> int {
    (s.0.1 + t * sign(s.0.1, s.1.1)) * FIELD + (s.0.0 + t * sign(s.0.0, s.1.0))
}

/// How many of the first `t` cells of the segment are cell `c`.
pub open spec fn seg_hits(s: Segment, c: int, t: int) -> int
    decreases t,
{
    if t <= 0 {
        0
    } else {
        seg_hits(s, c, t - 1) + if seg_cell(s, t - 1) == c { 1int } else { 0 }
    }
}

/// How many of the first `n` segments cover cell `c`.
pub open spec fn cover(pairs: Seq<Segment>, n: int, c: int) -> int
    decreases n,
{
    if n <= 0 {
        0
    } else {
        cover(pairs, n - 1, c) + seg_hits(pairs[n - 1], c, seg_len(pairs[n - 1]) + 1)
    }
}

proof fn lemma_seg_hits_grow(s: Segment, c: int, t: int, u: int)
    requires
        0 <= t <= u,
    ensures
        0 <= seg_hits(s, c, t) <= seg_hits(s, c, u),
    decreases u - t,
{
    if t < u {
        lemma_seg_hits_grow(s, c, t, u - 1);
    } else {
        lemma_seg_hits_nonneg(s, c, t);
    }
}

proof fn lemma_seg_hits_nonneg(s: Segment, c: int, t: int)
    ensures
        seg_hits(s, c, t) >= 0,
    decreases t,
{
    if t > 0 {
        lemma_seg_hits_nonneg(s, c, t - 1);
    }
}

proof fn lemma_cover_grow(pairs: Seq<Segment>, n: int, m: int, c: int)
    requires
        0 <= n <= m,
    ensures
        0 <= cover(pairs, n, c) <= cover(pairs, m, c),
    decreases m - n,
{
    if n < m {
        lemma_cover_grow(pairs, n, m - 1, c);
        lemma_seg_hits_nonneg(pairs[m - 1], c, seg_len(pairs[m - 1]) + 1);
    } else {
        lemma_cover_nonneg(pairs, n, c);
    }
}

proof fn lemma_cover_nonneg(pairs: Seq<Segment>, n: int, c: int)
    ensures
        cover(pairs, n, c) >= 0,
    decreases n,
{
    if n > 0 {
        lemma_cover_nonneg(pairs, n - 1, c);
        lemma_seg_hits_nonneg(pairs[n - 1], c, seg_len(pairs[n - 1]) + 1);
    }
}

/// Adds one to the count of every cell that each segment covers.
pub fn record_vents(pairs: &Vec<Segment>, vent_counts: &mut Vec<u8>)
    requires
        forall|k: int| 0 <= k < pairs@.len() ==> drawable(#[trigger] pairs@[k]),
        old(vent_counts)@.len() == FIELD * FIELD,
        forall|c: int| 0 <= c < FIELD * FIELD ==> #[trigger] old(vent_counts)@[c] + cover(pairs@, pairs@.len() as int, c) <= u8::MAX,
    ensures
        final(vent_counts)@.len() == FIELD * FIELD,
        forall|c: int| 0 <= c < FIELD * FIELD ==> #[trigger] final(vent_counts)@[c] == old(vent_counts)@[c] + cover(pairs@, pairs@.len() as int, c),
{
    let ghost start = vent_counts@;
    let n = pairs.len();
    let mut k: usize = 0;
    while k < n
        invariant
            n == pairs@.len(),
            k <= n,
            forall|j: int| 0 <= j < pairs@.len() ==> drawable(#[trigger] pairs@[j]),
            vent_counts@.len() == FIELD * FIELD,
            forall|c: int| 0 <= c < FIELD * FIELD ==> #[trigger] start[c] + cover(pairs@, n as int, c) <= u8::MAX,
            forall|c: int| 0 <= c < FIELD * FIELD ==> #[trigger] vent_counts@[c] == start[c] + cover(pairs@, k as int, c),
        decreases n - k,
    {
        let (from, to) = pairs[k];
        let seg = pairs[k];
        let dx: isize = if to.0 > from.0 { 1 } else if to.0 < from.0 { -1 } else { 0 };
        let dy: isize = if to.1 > from.1 { 1 } else if to.1 < from.1 { -1 } else { 0 };
        let len: usize = if to.0 >= from.0 { to.0 - from.0 } else { from.0 - to.0 };
        let len_y: usize = if to.1 >= from.1 { to.1 - from.1 } else { from.1 - to.1 };
        let len: usize = if len >= len_y { len } else { len_y };
        let ghost before = vent_counts@;
        let mut x: usize = from.0;
        let mut y: usize = from.1;
        let mut t: usize = 0;
        assert(seg == (from, to));
        assert(seg_cell(seg, 0) == y * FIELD + x);
        while t <= len
            invariant
                n == pairs@.len(),
                k < n,
                seg == pairs@[k as int],
                drawable(seg),
                len == seg_len(seg),
                dx == sign(seg.0.0, seg.1.0),
                dy == sign(seg.0.1, seg.1.1),
                t <= len + 1,
                t <= len ==> y * FIELD + x == seg_cell(seg, t as int) && x < FIELD && y < FIELD,
                t <= len ==> x == seg.0.0 + t * dx,
                t <= len ==> y == seg.0.1 + t * dy,
                vent_counts@.len() == FIELD * FIELD,
                forall|c: int| 0 <= c < FIELD * FIELD ==> #[trigger] start[c] + cover(pairs@, n as int, c) <= u8::MAX,
                forall|c: int| 0 <= c < FIELD * FIELD ==> #[trigger] before[c] == start[c] + cover(pairs@, k as int, c),
                forall|c: int| 0 <= c < FIELD * FIELD ==> #[trigger] vent_counts@[c] == before[c] + seg_hits(seg, c, t as int),
            decreases len + 1 - t,
        {
            let idx = y * FIELD + x;
            proof {
                lemma_seg_hits_grow(seg, idx as int, t + 1, seg_len(seg) + 1);
                lemma_cover_grow(pairs@, k + 1, n as int, idx as int);
                assert(cover(pairs@, k + 1, idx as int) == cover(pairs@, k as int, idx as int) + seg_hits(seg, idx as int, seg_len(seg) + 1));
            }
            vent_counts.set(idx, vent_counts[idx] + 1);
            if t < len {
                x = (x as isize + dx) as usize;
                y = (y as isize + dy) as usize;
            }
            t = t + 1;
        }
        proof {
            assert forall|c: int| 0 <= c < FIELD * FIELD implies #[trigger] vent_counts@[c] == start[c] + cover(pairs@, k + 1, c) by {
                assert(cover(pairs@, k + 1, c) == cover(pairs@, k as int, c) + seg_hits(seg, c, seg_len(seg) + 1));
            }
        }
        k = k + 1;
    }
}

/// Whether `record_vents(pairs, vent_counts)` keeps every count within `u8`.
pub fn counts_fit(pairs: &Vec<Segment>, vent_counts: &Vec<u8>) -> (r: bool)
    requires
        forall|k: int| 0 <= k < pairs@.len() ==> drawable(#[trigger] pairs@[k]),
        vent_counts@.len() == FIELD * FIELD,
    ensures
        r == forall|c: int| 0 <= c < FIELD * FIELD ==> #[trigger] vent_counts@[c] + cover(pairs@, pairs@.len() as int, c) <= u8::MAX,
{
    let mut totals: Vec<u8> = vent_counts.clone();
    let ghost start = vent_counts@;
    assert(totals@ =~= start);
    let n = pairs.len();
    let mut k: usize = 0;
    while k < n
        invariant
            n == pairs@.len(),
            k <= n,
            start == vent_counts@,
            forall|j: int| 0 <= j < pairs@.len() ==> drawable(#[trigger] pairs@[j]),
            totals@.len() == FIELD * FIELD,
            forall|j: int| 0 <= j < FIELD * FIELD ==> #[trigger] totals@[j] == start[j] + cover(pairs@, k as int, j),
        decreases n - k,
    {
        let (from, to) = pairs[k];
        let seg = pairs[k];
        let dx: isize = if to.0 > from.0 { 1 } else if to.0 < from.0 { -1 } else { 0 };
        let dy: isize = if to.1 > from.1 { 1 } else if to.1 < from.1 { -1 } else { 0 };
        let len: usize = if to.0 >= from.0 { to.0 - from.0 } else { from.0 - to.0 };
        let len_y: usize = if to.1 >= from.1 { to.1 - from.1 } else { from.1 - to.1 };
        let len: usize = if len >= len_y { len } else { len_y };
        let ghost before = totals@;
        let mut x: usize = from.0;
        let mut y: usize = from.1;
        let mut t: usize = 0;
        assert(seg == (from, to));
        assert(seg_cell(seg, 0) == y * FIELD + x);
        while t <= len
            invariant
                n == pairs@.len(),
                k < n,
                start == vent_counts@,
                seg == pairs@[k as int],
                drawable(seg),
                len == seg_len(seg),
                dx == sign(seg.0.0, seg.1.0),
                dy == sign(seg.0.1, seg.1.1),
                t <= len + 1,
                t <= len ==> y * FIELD + x == seg_cell(seg, t as int) && x < FIELD && y < FIELD,
                t <= len ==> x == seg.0.0 + t * dx,
                t <= len ==> y == seg.0.1 + t * dy,
                totals@.len() == FIELD * FIELD,
                forall|j: int| 0 <= j < FIELD * FIELD ==> #[trigger] before[j] == start[j] + cover(pairs@, k as int, j),
                forall|j: int| 0 <= j < FIELD * FIELD ==> #[trigger] totals@[j] == before[j] + seg_hits(seg, j, t as int),
            decreases len + 1 - t,
        {
            let idx = y * FIELD + x;
            if totals[idx] == u8::MAX {
                proof {
                    let c = idx as int;
                    lemma_seg_hits_grow(seg, c, t + 1, seg_len(seg) + 1);
                    lemma_cover_grow(pairs@, k + 1, n as int, c);
                    assert(cover(pairs@, k + 1, c) == cover(pairs@, k as int, c) + seg_hits(seg, c, seg_len(seg) + 1));
                    assert(vent_counts@[c] + cover(pairs@, n as int, c) > u8::MAX);
                }
                return false;
            }
            totals.set(idx, totals[idx] + 1);
            if t < len {
                x = (x as isize + dx) as usize;
                y = (y as isize + dy) as usize;
            }
            t = t + 1;
        }
        proof {
            assert forall|j: int| 0 <= j < FIELD * FIELD implies #[trigger] totals@[j] == start[j] + cover(pairs@, k + 1, j) by {
                assert(cover(pairs@, k + 1, j) == cover(pairs@, k as int, j) + seg_hits(seg, j, seg_len(seg) + 1));
            }
        }
        k = k + 1;
    }
    proof {
        assert forall|c: int| 0 <= c < FIELD * FIELD implies #[trigger] vent_counts@[c] + cover(pairs@, pairs@.len() as int, c)
            <= u8::MAX by {
            assert(totals@[c] == start[c] + cover(pairs@, n as int, c));
        }
    }
    true
}

/// How many of the first `n` cells count two or more vents.
pub open spec fn crowded_upto(counts: Seq<u8>, n: int) -> int
    decreases n,
{
    if n <= 0 {
        0
    } else {
        crowded_upto(counts, n - 1) + if counts[n - 1] >= 2 { 1int } else { 0 }
    }
}

/// How many cells count two or more vents.
pub fn count_multiple_vents(vent_counts: &Vec<u8>) -> (r: usize)
    ensures
        r == crowded_upto(vent_counts@, vent_counts@.len() as int),
{
    let mut count: usize = 0;
    let mut i: usize = 0;
    while i < vent_counts.len()
        invariant
            i <= vent_counts@.len(),
            count == crowded_upto(vent_counts@, i as int),
            count <= i,
        decreases vent_counts@.len() - i,
    {
        if vent_counts[i] >= 2 {
            count = count + 1;
        }
        i = i + 1;
    }
    count
}

/// A count written at `i` of `s`: digits only, fitting in an `i32`.
pub open spec fn scan_count(s: Seq<u8>, i: nat) -> Option<(usize, nat)> {
    match scan_i32(s, i) {
        Some((v, e)) => if v >= 0 && !(i < s.len() && s[i as int] == 45) {
            Some((v as usize, e))
        } else {
            None
        },
        None => None,
    }
}

/// A whole line `x1,y1 -> x2,y2`.
pub open spec fn scan_vent_line(s: Seq<u8>) -> Option<Segment> {
    match scan_count(s, 0) {
        Some((x1, i)) => if i < s.len() && s[i as int] == 44 {
            match scan_count(s, i + 1) {
                Some((y1, j)) => if j + 4 <= s.len() && s.subrange(j as int, j + 4int) == seq![32u8, 45, 62, 32] {
                    match scan_count(s, j + 4) {
                        Some((x2, k)) => if k < s.len() && s[k as int] == 44 {
                            match scan_count(s, k + 1) {
                                Some((y2, e)) => if e == s.len() {
                                    Some(((x1, y1), (x2, y2)))
                                } else {
                                    None
                                },
                                None => None,
                            }
                        } else {
                            None
                        },
                        None => None,
                    }
                } else {
                    None
                },
                None => None,
            }
        } else {
            None
        },
        None => None,
    }
}

fn parse_count(s: &[u8], i: usize) -> (r: Option<(usize, usize)>)
    ensures
        r matches Some((v, e)) ==> scan_count(s@, i as nat) == Some((v, e as nat)),
        r is None ==> scan_count(s@, i as nat) is None,
{
    if i < s.len() && s[i] == 45 {
        return None;
    }
    match parse_int(s, i) {
        Some((v, e)) => if v >= 0 {
            Some((v as usize, e))
        } else {
            None
        },
        None => None,
    }
}

/// Reads a line `x1,y1 -> x2,y2`; `None` where the line is not of that form.
pub fn parse_vent_line(line: &str) -> (r: Option<Segment>)
    ensures
        r == scan_vent_line(line.spec_bytes()),
{
    let s = line.as_bytes();
    let (x1, i) = match parse_count(s, 0) {
        Some(p) => p,
        None => return None,
    };
    if !(i < s.len() && s[i] == 44) {
        return None;
    }
    let (y1, j) = match parse_count(s, i + 1) {
        Some(p) => p,
        None => return None,
    };
    if !(j <= s.len() && s.len() - j >= 4 && s[j] == 32 && s[j + 1] == 45 && s[j + 2] == 62 && s[j + 3] == 32) {
        proof {
            if j + 4 <= s@.len() && s@.subrange(j as int, j + 4int) == seq![32u8, 45, 62, 32] {
                assert(s@.subrange(j as int, j + 4int)[0] == s@[j as int]);
                assert(s@.subrange(j as int, j + 4int)[1] == s@[j + 1]);
                assert(s@.subrange(j as int, j + 4int)[2] == s@[j + 2]);
                assert(s@.subrange(j as int, j + 4int)[3] == s@[j + 3]);
            }
        }
        return None;
    }
    assert(s@.subrange(j as int, j + 4int) =~= seq![32u8, 45, 62, 32]);
    let (x2, k) = match parse_count(s, j + 4) {
        Some(p) => p,
        None => return None,
    };
    if !(k < s.len() && s[k] == 44) {
        return None;
    }
    let (y2, e) = match parse_count(s, k + 1) {
        Some(p) => p,
        None => return None,
    };
    if e != s.len() {
        return None;
    }
    Some(((x1, y1), (x2, y2)))
}

} // verus!
