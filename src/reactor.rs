use crate::parse::{parse_cuboid, parse_instruction, scan_cuboid, scan_instruction};
use vstd::prelude::*;
use vstd::string::StringSliceAdditionalSpecFns;

verus! {

/// An inclusive integer interval `[start, end]` along one axis.
#[derive(Clone, Copy, Debug, PartialEq, Eq, Structural)]
pub struct AxisRange {
    pub start: i32,
    pub end: i32,
}

impl AxisRange {
    /// A range is well formed when it holds at least one value.
    pub open spec fn wf(self) -> bool {
        self.start <= self.end
    }

    pub open spec fn has(self, v: int) -> bool {
        self.start <= v <= self.end
    }

    /// Number of integers in the range.
    pub open spec fn len(self) -> int {
        self.end - self.start + 1
    }

    pub fn new(start: i32, end: i32) -> (r: AxisRange)
        ensures
            r.start == start,
            r.end == end,
    {
        AxisRange { start, end }
    }
}

/// Two ranges share a value.
pub open spec fn spans_meet(r: AxisRange, o: AxisRange) -> bool {
    r.start <= o.end && r.end >= o.start
}

pub fn ranges_overlap(range: &AxisRange, other: &AxisRange) -> (r: bool)
    ensures
        r == spans_meet(*range, *other),
{
    range.start <= other.end && range.end >= other.start
}

/// Where a value lies along an axis relative to `o`: 0 below it, 1 inside it, 2 above it.
pub open spec fn side(o: AxisRange, v: int) -> nat {
    if v < o.start {
        0
    } else if v <= o.end {
        1
    } else {
        2
    }
}

/// The part of `r` on side `l` of `o` (see `side`), if that part holds any value.
pub open spec fn part(r: AxisRange, o: AxisRange, l: nat) -> Option<AxisRange> {
    if l == 0 {
        if r.start < o.start {
            Some(AxisRange { start: r.start, end: if r.end < o.start - 1 { r.end } else { (o.start - 1) as i32 } })
        } else {
            None
        }
    } else if l == 1 {
        if spans_meet(r, o) {
            Some(AxisRange {
                start: if r.start < o.start { o.start } else { r.start },
                end: if r.end < o.end { r.end } else { o.end },
            })
        } else {
            None
        }
    } else {
        if r.end > o.end {
            Some(AxisRange { start: if o.end + 1 > r.start { (o.end + 1) as i32 } else { r.start }, end: r.end })
        } else {
            None
        }
    }
}

/// Number of values in `part(r, o, l)`; zero where that part is absent.
pub open spec fn part_len(r: AxisRange, o: AxisRange, l: nat) -> int {
    match part(r, o, l) {
        Some(s) => s.len(),
        None => 0,
    }
}

/// `inner` lies within `outer`.
pub open spec fn span_within(inner: AxisRange, outer: AxisRange) -> bool {
    outer.start <= inner.start && inner.end <= outer.end
}

/// Each part of a well-formed range is a well-formed subrange holding exactly
/// the values of `r` on its side of `o`, and the parts' lengths add up to `r`'s.
pub proof fn lemma_part(r: AxisRange, o: AxisRange, l: nat)
    requires
        r.wf(),
        o.wf(),
        l < 3,
    ensures
        part(r, o, l) matches Some(s) ==> s.wf() && span_within(s, r),
        part(r, o, l) matches Some(s) ==> forall|v: int| #[trigger] s.has(v) <==> (r.has(v) && side(o, v) == l),
        forall|v: int| r.has(v) && side(o, v) == l ==> #[trigger] part(r, o, l).is_some(),
        part_len(r, o, 0) + part_len(r, o, 1) + part_len(r, o, 2) == r.len(),
{
}

/// Parts on different sides of `o` never meet; parts off the middle never meet `o`.
pub proof fn lemma_parts_apart(r: AxisRange, o: AxisRange, l1: nat, l2: nat)
    requires
        r.wf(),
        o.wf(),
        l1 < 3,
        l2 < 3,
        part(r, o, l1).is_some(),
    ensures
        l1 != l2 && part(r, o, l2).is_some() ==> !spans_meet(part(r, o, l1).unwrap(), part(r, o, l2).unwrap()),
        l1 != 1 ==> !spans_meet(part(r, o, l1).unwrap(), o),
{
}

pub fn range_before(range: &AxisRange, other: &AxisRange) -> (r: Option<AxisRange>)
    ensures
        r == part(*range, *other, 0),
{
    if range.start < other.start {
        let new_end = if range.end < other.start - 1 { range.end } else { other.start - 1 };
        Some(AxisRange { start: range.start, end: new_end })
    } else {
        None
    }
}

pub fn range_overlap(range: &AxisRange, other: &AxisRange) -> (r: Option<AxisRange>)
    ensures
        r == part(*range, *other, 1),
{
    if ranges_overlap(range, other) {
        let overlap_start = if range.start < other.start { other.start } else { range.start };
        let overlap_end = if range.end < other.end { range.end } else { other.end };
        Some(AxisRange { start: overlap_start, end: overlap_end })
    } else {
        None
    }
}

pub fn range_after(range: &AxisRange, other: &AxisRange) -> (r: Option<AxisRange>)
    ensures
        r == part(*range, *other, 2),
{
    if range.end > other.end {
        let new_start = if other.end + 1 > range.start { other.end + 1 } else { range.start };
        Some(AxisRange { start: new_start, end: range.end })
    } else {
        None
    }
}

/// A point of the integer lattice.
pub type Point3 = (int, int, int);

/// An axis-aligned box: the lattice points whose coordinates lie in all three ranges.
#[derive(Clone, Copy, Debug, PartialEq, Eq, Structural)]
pub struct Cuboid {
    pub x_range: AxisRange,
    pub y_range: AxisRange,
    pub z_range: AxisRange,
}

impl Cuboid {
    pub open spec fn wf(self) -> bool {
        self.x_range.wf() && self.y_range.wf() && self.z_range.wf()
    }

    pub open spec fn contains(self, p: Point3) -> bool {
        self.x_range.has(p.0) && self.y_range.has(p.1) && self.z_range.has(p.2)
    }

    /// Number of lattice points in the box.
    pub open spec fn vol(self) -> int {
        self.x_range.len() * self.y_range.len() * self.z_range.len()
    }

    /// The two boxes meet on every axis.
    pub open spec fn meets(self, other: Cuboid) -> bool {
        spans_meet(self.x_range, other.x_range) && spans_meet(self.y_range, other.y_range)
            && spans_meet(self.z_range, other.z_range)
    }

    pub open spec fn within(self, other: Cuboid) -> bool {
        span_within(self.x_range, other.x_range) && span_within(self.y_range, other.y_range)
            && span_within(self.z_range, other.z_range)
    }
}

/// Number of lattice points that two boxes share.
pub open spec fn shared_vol(a: Cuboid, b: Cuboid) -> int {
    part_len(a.x_range, b.x_range, 1) * part_len(a.y_range, b.y_range, 1) * part_len(
        a.z_range,
        b.z_range,
        1,
    )
}

/// The sides of cell `m` of the 3 x 3 x 3 grid that `b` cuts `a` into.
pub open spec fn cell_sides(m: nat) -> (nat, nat, nat) {
    (m / 9, (m / 3) % 3, m % 3)
}

/// The grid cell holding every side; it is the part of `a` inside `b`.
pub open spec fn middle_cell() -> nat {
    13
}

pub open spec fn cell_present(a: Cuboid, b: Cuboid, m: nat) -> bool {
    part(a.x_range, b.x_range, cell_sides(m).0).is_some() && part(
        a.y_range,
        b.y_range,
        cell_sides(m).1,
    ).is_some() && part(a.z_range, b.z_range, cell_sides(m).2).is_some()
}

pub open spec fn cell(a: Cuboid, b: Cuboid, m: nat) -> Cuboid {
    Cuboid {
        x_range: part(a.x_range, b.x_range, cell_sides(m).0).unwrap(),
        y_range: part(a.y_range, b.y_range, cell_sides(m).1).unwrap(),
        z_range: part(a.z_range, b.z_range, cell_sides(m).2).unwrap(),
    }
}

/// Lattice size of cell `m`, zero where the cell is empty.
pub open spec fn cell_len(a: Cuboid, b: Cuboid, m: nat) -> int {
    part_len(a.x_range, b.x_range, cell_sides(m).0) * part_len(a.y_range, b.y_range, cell_sides(m).1)
        * part_len(a.z_range, b.z_range, cell_sides(m).2)
}

/// Indices, in increasing order, of the non-empty cells below `n` other than the middle one.
pub open spec fn fragment_ids(a: Cuboid, b: Cuboid, n: nat) -> Seq<nat>
    decreases n,
{
    if n == 0 {
        Seq::empty()
    } else {
        let prev = fragment_ids(a, b, (n - 1) as nat);
        if cell_present(a, b, (n - 1) as nat) && n - 1 != middle_cell() {
            prev.push((n - 1) as nat)
        } else {
            prev
        }
    }
}

pub open spec fn cells_of(a: Cuboid, b: Cuboid, ids: Seq<nat>) -> Seq<Cuboid> {
    ids.map_values(|m: nat| cell(a, b, m))
}

/// The fragments that `a.subtract(b)` emits, in order.
pub open spec fn subtract_spec(a: Cuboid, b: Cuboid) -> Seq<Cuboid> {
    if !a.meets(b) {
        seq![a]
    } else {
        cells_of(a, b, fragment_ids(a, b, 27))
    }
}

/// Sum of the volumes of a sequence of boxes.
pub open spec fn total_vol(s: Seq<Cuboid>) -> int
    decreases s.len(),
{
    if s.len() == 0 {
        0
    } else {
        total_vol(s.drop_last()) + s.last().vol()
    }
}

pub open spec fn all_wf(s: Seq<Cuboid>) -> bool {
    forall|k: int| 0 <= k < s.len() ==> #[trigger] s[k].wf()
}

/// No two boxes of `s` share a lattice point.
pub open spec fn pairwise_apart(s: Seq<Cuboid>) -> bool {
    forall|i: int, j: int| 0 <= i < s.len() && 0 <= j < s.len() && i != j ==> !#[trigger] s[i].meets(#[trigger] s[j])
}

/// Some box of `s` holds `p`.
pub open spec fn covers(s: Seq<Cuboid>, p: Point3) -> bool {
    exists|k: int| 0 <= k < s.len() && #[trigger] s[k].contains(p)
}

/// Sum of the cell sizes below `n`, leaving out the middle cell.
pub open spec fn outer_cells_len(a: Cuboid, b: Cuboid, n: nat) -> int
    decreases n,
{
    if n == 0 {
        0
    } else if n - 1 == middle_cell() {
        outer_cells_len(a, b, (n - 1) as nat)
    } else {
        outer_cells_len(a, b, (n - 1) as nat) + cell_len(a, b, (n - 1) as nat)
    }
}

proof fn lemma_fragment_ids(a: Cuboid, b: Cuboid, n: nat)
    requires
        n <= 27,
    ensures
        ({
            let ids = fragment_ids(a, b, n);
            &&& forall|k: int| 0 <= k < ids.len() ==> #[trigger] ids[k] < n && ids[k] != middle_cell() && cell_present(a, b, ids[k])
            &&& forall|k1: int, k2: int| 0 <= k1 < k2 < ids.len() ==> #[trigger] ids[k1] < #[trigger] ids[k2]
            &&& forall|m: nat| m < n && cell_present(a, b, m) && m != middle_cell() ==> #[trigger] ids.contains(m)
        }),
    decreases n,
{
    if n > 0 {
        lemma_fragment_ids(a, b, (n - 1) as nat);
        let prev = fragment_ids(a, b, (n - 1) as nat);
        let ids = fragment_ids(a, b, n);
        assert forall|m: nat| m < n && cell_present(a, b, m) && m != middle_cell() implies #[trigger] ids.contains(m) by {
            if m < n - 1 {
                assert(prev.contains(m));
                let k = choose|k: int| 0 <= k < prev.len() && prev[k] == m;
                assert(ids[k] == m);
            } else {
                assert(ids[ids.len() - 1] == m);
            }
        }
    }
}

proof fn lemma_cell(a: Cuboid, b: Cuboid, m: nat)
    requires
        a.wf(),
        b.wf(),
        m < 27,
    ensures
        cell_present(a, b, m) ==> cell(a, b, m).wf() && cell(a, b, m).within(a),
        cell_present(a, b, m) ==> cell(a, b, m).vol() == cell_len(a, b, m),
        !cell_present(a, b, m) ==> cell_len(a, b, m) == 0,
        cell_present(a, b, m) && m != middle_cell() ==> !cell(a, b, m).meets(b),
        cell_present(a, b, m) ==> forall|p: Point3| #[trigger] cell(a, b, m).contains(p) <==> (a.contains(p)
            && cell_sides(m) == (side(b.x_range, p.0), side(b.y_range, p.1), side(b.z_range, p.2))),
{
    let (i, j, k) = cell_sides(m);
    lemma_part(a.x_range, b.x_range, i);
    lemma_part(a.y_range, b.y_range, j);
    lemma_part(a.z_range, b.z_range, k);
    if cell_present(a, b, m) {
        lemma_parts_apart(a.x_range, b.x_range, i, i);
        lemma_parts_apart(a.y_range, b.y_range, j, j);
        lemma_parts_apart(a.z_range, b.z_range, k, k);
        assert(m == 9 * i + 3 * j + k);
    } else {
        let px = part_len(a.x_range, b.x_range, i);
        let py = part_len(a.y_range, b.y_range, j);
        let pz = part_len(a.z_range, b.z_range, k);
        assert(px == 0 || py == 0 || pz == 0);
        assert(px * py * pz == 0) by (nonlinear_arith)
            requires
                px == 0 || py == 0 || pz == 0,
        ;
    }
}

proof fn lemma_cells_apart(a: Cuboid, b: Cuboid, m1: nat, m2: nat)
    requires
        a.wf(),
        b.wf(),
        m1 < 27,
        m2 < 27,
        m1 != m2,
        cell_present(a, b, m1),
        cell_present(a, b, m2),
    ensures
        !cell(a, b, m1).meets(cell(a, b, m2)),
{
    let s1 = cell_sides(m1);
    let s2 = cell_sides(m2);
    assert(m1 == 9 * s1.0 + 3 * s1.1 + s1.2);
    assert(m2 == 9 * s2.0 + 3 * s2.1 + s2.2);
    lemma_parts_apart(a.x_range, b.x_range, s1.0, s2.0);
    lemma_parts_apart(a.y_range, b.y_range, s1.1, s2.1);
    lemma_parts_apart(a.z_range, b.z_range, s1.2, s2.2);
}

proof fn lemma_distribute3(a: int, b: int, c: int, w: int) by (nonlinear_arith)
    ensures
        (a + b + c) * w == a * w + b * w + c * w,
        w * (a + b + c) == w * a + w * b + w * c,
{
}

proof fn lemma_expand_product(x0: int, x1: int, x2: int, y0: int, y1: int, y2: int, z0: int, z1: int, z2: int)
    ensures
        (x0 + x1 + x2) * (y0 + y1 + y2) * (z0 + z1 + z2) == x0 * y0 * z0
            + x0 * y0 * z1
            + x0 * y0 * z2
            + x0 * y1 * z0
            + x0 * y1 * z1
            + x0 * y1 * z2
            + x0 * y2 * z0
            + x0 * y2 * z1
            + x0 * y2 * z2
            + x1 * y0 * z0
            + x1 * y0 * z1
            + x1 * y0 * z2
            + x1 * y1 * z0
            + x1 * y1 * z1
            + x1 * y1 * z2
            + x1 * y2 * z0
            + x1 * y2 * z1
            + x1 * y2 * z2
            + x2 * y0 * z0
            + x2 * y0 * z1
            + x2 * y0 * z2
            + x2 * y1 * z0
            + x2 * y1 * z1
            + x2 * y1 * z2
            + x2 * y2 * z0
            + x2 * y2 * z1
            + x2 * y2 * z2,
{
    lemma_distribute3(x0, x1, x2, y0 + y1 + y2);
    lemma_distribute3(y0, y1, y2, x0);
    lemma_distribute3(y0, y1, y2, x1);
    lemma_distribute3(y0, y1, y2, x2);
    lemma_distribute3(x0 * (y0 + y1 + y2), x1 * (y0 + y1 + y2), x2 * (y0 + y1 + y2), z0 + z1 + z2);
    lemma_distribute3(x0 * y0, x0 * y1, x0 * y2, z0 + z1 + z2);
    lemma_distribute3(x1 * y0, x1 * y1, x1 * y2, z0 + z1 + z2);
    lemma_distribute3(x2 * y0, x2 * y1, x2 * y2, z0 + z1 + z2);
    lemma_distribute3(z0, z1, z2, x0 * y0);
    lemma_distribute3(z0, z1, z2, x0 * y1);
    lemma_distribute3(z0, z1, z2, x0 * y2);
    lemma_distribute3(z0, z1, z2, x1 * y0);
    lemma_distribute3(z0, z1, z2, x1 * y1);
    lemma_distribute3(z0, z1, z2, x1 * y2);
    lemma_distribute3(z0, z1, z2, x2 * y0);
    lemma_distribute3(z0, z1, z2, x2 * y1);
    lemma_distribute3(z0, z1, z2, x2 * y2);
}

proof fn lemma_outer_cells_len(a: Cuboid, b: Cuboid)
    requires
        a.wf(),
        b.wf(),
    ensures
        outer_cells_len(a, b, 27) == a.vol() - shared_vol(a, b),
{
    reveal_with_fuel(outer_cells_len, 28);
    lemma_part(a.x_range, b.x_range, 0);
    lemma_part(a.y_range, b.y_range, 0);
    lemma_part(a.z_range, b.z_range, 0);
    lemma_expand_product(
        part_len(a.x_range, b.x_range, 0),
        part_len(a.x_range, b.x_range, 1),
        part_len(a.x_range, b.x_range, 2),
        part_len(a.y_range, b.y_range, 0),
        part_len(a.y_range, b.y_range, 1),
        part_len(a.y_range, b.y_range, 2),
        part_len(a.z_range, b.z_range, 0),
        part_len(a.z_range, b.z_range, 1),
        part_len(a.z_range, b.z_range, 2),
    );
}

proof fn lemma_total_vol_push(s: Seq<Cuboid>, c: Cuboid)
    ensures
        total_vol(s.push(c)) == total_vol(s) + c.vol(),
{
    assert(s.push(c).drop_last() =~= s);
}

pub proof fn lemma_total_vol_concat(s1: Seq<Cuboid>, s2: Seq<Cuboid>)
    ensures
        total_vol(s1 + s2) == total_vol(s1) + total_vol(s2),
    decreases s2.len(),
{
    if s2.len() == 0 {
        assert(s1 + s2 =~= s1);
    } else {
        lemma_total_vol_concat(s1, s2.drop_last());
        assert((s1 + s2).drop_last() =~= s1 + s2.drop_last());
    }
}

proof fn lemma_fragments_vol(a: Cuboid, b: Cuboid, n: nat)
    requires
        a.wf(),
        b.wf(),
        n <= 27,
    ensures
        total_vol(cells_of(a, b, fragment_ids(a, b, n))) == outer_cells_len(a, b, n),
    decreases n,
{
    if n > 0 {
        let m = (n - 1) as nat;
        lemma_fragments_vol(a, b, m);
        lemma_cell(a, b, m);
        let prev = fragment_ids(a, b, m);
        if cell_present(a, b, m) && m != middle_cell() {
            assert(cells_of(a, b, prev.push(m)) =~= cells_of(a, b, prev).push(cell(a, b, m)));
            lemma_total_vol_push(cells_of(a, b, prev), cell(a, b, m));
        }
    }
}

pub proof fn lemma_no_meet_shared_vol(a: Cuboid, b: Cuboid)
    requires
        a.wf(),
        b.wf(),
        !a.meets(b),
    ensures
        shared_vol(a, b) == 0,
{
    lemma_part(a.x_range, b.x_range, 1);
    lemma_part(a.y_range, b.y_range, 1);
    lemma_part(a.z_range, b.z_range, 1);
    let px = part_len(a.x_range, b.x_range, 1);
    let py = part_len(a.y_range, b.y_range, 1);
    let pz = part_len(a.z_range, b.z_range, 1);
    assert(px * py * pz == 0) by (nonlinear_arith)
        requires
            px == 0 || py == 0 || pz == 0,
    ;
}

proof fn lemma_subtract_shape(a: Cuboid, b: Cuboid)
    requires
        a.wf(),
        b.wf(),
    ensures
        ({
            let f = subtract_spec(a, b);
            &&& all_wf(f)
            &&& forall|k: int| 0 <= k < f.len() ==> #[trigger] f[k].within(a) && !f[k].meets(b)
            &&& pairwise_apart(f)
        }),
{
    let f = subtract_spec(a, b);
    if a.meets(b) {
        let ids = fragment_ids(a, b, 27);
        lemma_fragment_ids(a, b, 27);
        assert forall|k: int| 0 <= k < f.len() implies #[trigger] f[k].wf() && f[k].within(a) && !f[k].meets(b) by {
            lemma_cell(a, b, ids[k]);
        }
        assert forall|i: int, j: int| 0 <= i < f.len() && 0 <= j < f.len() && i != j implies !#[trigger] f[i].meets(#[trigger] f[j]) by {
            if i < j {
                assert(ids[i] < ids[j]);
            } else {
                assert(ids[j] < ids[i]);
            }
            lemma_cells_apart(a, b, ids[i], ids[j]);
        }
    }
}

proof fn lemma_subtract_vol(a: Cuboid, b: Cuboid)
    requires
        a.wf(),
        b.wf(),
    ensures
        total_vol(subtract_spec(a, b)) == a.vol() - shared_vol(a, b),
{
    if !a.meets(b) {
        lemma_no_meet_shared_vol(a, b);
        lemma_total_vol_push(Seq::empty(), a);
        assert(seq![a] =~= Seq::<Cuboid>::empty().push(a));
    } else {
        lemma_fragments_vol(a, b, 27);
        lemma_outer_cells_len(a, b);
    }
}

proof fn lemma_subtract_covers(a: Cuboid, b: Cuboid, p: Point3)
    requires
        a.wf(),
        b.wf(),
    ensures
        covers(subtract_spec(a, b), p) <==> a.contains(p) && !b.contains(p),
{
    let f = subtract_spec(a, b);
    if !a.meets(b) {
        if a.contains(p) {
            assert(f[0].contains(p));
        }
    } else {
        let ids = fragment_ids(a, b, 27);
        lemma_fragment_ids(a, b, 27);
        if covers(f, p) {
            let k = choose|k: int| 0 <= k < f.len() && #[trigger] f[k].contains(p);
            lemma_cell(a, b, ids[k]);
            let sd = cell_sides(ids[k]);
            assert(ids[k] == 9 * sd.0 + 3 * sd.1 + sd.2);
        }
        if a.contains(p) && !b.contains(p) {
            let sx = side(b.x_range, p.0);
            let sy = side(b.y_range, p.1);
            let sz = side(b.z_range, p.2);
            let m: nat = 9 * sx + 3 * sy + sz;
            assert(cell_sides(m) == (sx, sy, sz));
            lemma_part(a.x_range, b.x_range, sx);
            lemma_part(a.y_range, b.y_range, sy);
            lemma_part(a.z_range, b.z_range, sz);
            lemma_cell(a, b, m);
            assert(ids.contains(m));
            let k = choose|k: int| 0 <= k < ids.len() && ids[k] == m;
            assert(f[k].contains(p));
        }
    }
}

/// The fragments of `a.subtract(b)`: well formed, inside `a`, clear of `b`, pairwise
/// apart, covering exactly the points of `a` outside `b`, and as large as `a` less
/// what it shares with `b`.
pub proof fn lemma_subtract(a: Cuboid, b: Cuboid)
    requires
        a.wf(),
        b.wf(),
    ensures
        ({
            let f = subtract_spec(a, b);
            &&& all_wf(f)
            &&& forall|k: int| 0 <= k < f.len() ==> #[trigger] f[k].within(a) && !f[k].meets(b)
            &&& pairwise_apart(f)
            &&& total_vol(f) == a.vol() - shared_vol(a, b)
            &&& forall|p: Point3| #[trigger] covers(f, p) <==> a.contains(p) && !b.contains(p)
        }),
{
    lemma_subtract_shape(a, b);
    lemma_subtract_vol(a, b);
    assert forall|p: Point3| #[trigger] covers(subtract_spec(a, b), p) <==> a.contains(p) && !b.contains(p) by {
        lemma_subtract_covers(a, b, p);
    }
}

/// The part of `range` on side `side` of `other`: below it, inside it, or above it.
pub fn range_part(range: &AxisRange, other: &AxisRange, side: usize) -> (r: Option<AxisRange>)
    requires
        side < 3,
    ensures
        r == part(*range, *other, side as nat),
{
    if side == 0 {
        range_before(range, other)
    } else if side == 1 {
        range_overlap(range, other)
    } else {
        range_after(range, other)
    }
}

proof fn lemma_vol_bound(a: Cuboid)
    requires
        a.wf(),
    ensures
        0 < a.vol() <= 0x1_0000_0000 * 0x1_0000_0000 * 0x1_0000_0000,
{
    let lx = a.x_range.len();
    let ly = a.y_range.len();
    let lz = a.z_range.len();
    assert(0 < lx * ly * lz <= 0x1_0000_0000 * 0x1_0000_0000 * 0x1_0000_0000) by (nonlinear_arith)
        requires
            0 < lx <= 0x1_0000_0000,
            0 < ly <= 0x1_0000_0000,
            0 < lz <= 0x1_0000_0000,
    ;
}

impl Cuboid {
    /// Reads a box written `x=<a>..<b>,y=<c>..<d>,z=<e>..<f>`; `None` where the
    /// text is not of that form or a range runs backwards.
    pub fn from(input: &str) -> (r: Option<Cuboid>)
        ensures
            r == scan_cuboid(input.spec_bytes(), 0),
    {
        parse_cuboid(input.as_bytes(), 0)
    }

    pub fn new(x_range: AxisRange, y_range: AxisRange, z_range: AxisRange) -> (r: Cuboid)
        ensures
            r == (Cuboid { x_range, y_range, z_range }),
    {
        Cuboid { x_range, y_range, z_range }
    }

    pub fn clone_from(x_range: &AxisRange, y_range: &AxisRange, z_range: &AxisRange) -> (r: Cuboid)
        ensures
            r == (Cuboid { x_range: *x_range, y_range: *y_range, z_range: *z_range }),
    {
        Cuboid { x_range: *x_range, y_range: *y_range, z_range: *z_range }
    }

    pub fn overlaps_with(&self, other: &Cuboid) -> (r: bool)
        ensures
            r == self.meets(*other),
    {
        ranges_overlap(&self.x_range, &other.x_range) && ranges_overlap(&self.y_range, &other.y_range)
            && ranges_overlap(&self.z_range, &other.z_range)
    }

    /// Both corners of `self` lie in `other`.
    pub fn is_contained_by(&self, other: &Cuboid) -> (r: bool)
        ensures
            r == (other.contains((self.x_range.start as int, self.y_range.start as int, self.z_range.start as int))
                && other.contains((self.x_range.end as int, self.y_range.end as int, self.z_range.end as int))),
            self.wf() ==> r == self.within(*other),
    {
        other.x_range.start <= self.x_range.start && self.x_range.start <= other.x_range.end
            && other.x_range.start <= self.x_range.end && self.x_range.end <= other.x_range.end
            && other.y_range.start <= self.y_range.start && self.y_range.start <= other.y_range.end
            && other.y_range.start <= self.y_range.end && self.y_range.end <= other.y_range.end
            && other.z_range.start <= self.z_range.start && self.z_range.start <= other.z_range.end
            && other.z_range.start <= self.z_range.end && self.z_range.end <= other.z_range.end
    }

    /// Number of lattice points in the box.
    pub fn volume(&self) -> (r: u128)
        requires
            self.wf(),
        ensures
            r == self.vol(),
    {
        proof {
            lemma_vol_bound(*self);
            let lx = self.x_range.len();
            let ly = self.y_range.len();
            assert(0 < lx * ly <= 0x1_0000_0000 * 0x1_0000_0000) by (nonlinear_arith)
                requires
                    0 < lx <= 0x1_0000_0000,
                    0 < ly <= 0x1_0000_0000,
            ;
        }
        let lx = (self.x_range.end as i64 - self.x_range.start as i64 + 1) as u128;
        let ly = (self.y_range.end as i64 - self.y_range.start as i64 + 1) as u128;
        let lz = (self.z_range.end as i64 - self.z_range.start as i64 + 1) as u128;
        lx * ly * lz
    }

    /// Appends to `output` disjoint boxes that together hold exactly the points of
    /// `self` outside `other`.
    pub fn subtract(self, other: &Cuboid, output: &mut Vec<Cuboid>)
        requires
            self.wf(),
            other.wf(),
        ensures
            final(output)@ == old(output)@ + subtract_spec(self, *other),
            !self.meets(*other) ==> final(output)@ == old(output)@.push(self),
            total_vol(subtract_spec(self, *other)) == self.vol() - shared_vol(self, *other),
    {
        proof {
            lemma_subtract(self, *other);
        }
        if !self.overlaps_with(other) {
            output.push(self);
            assert(old(output)@.push(self) =~= old(output)@ + seq![self]);
            return;
        }
        let mut m: usize = 0;
        while m < 27
            invariant
                m <= 27,
                self.wf(),
                other.wf(),
                self.meets(*other),
                output@ == old(output)@ + cells_of(self, *other, fragment_ids(self, *other, m as nat)),
            decreases 27 - m,
        {
            let new_x = range_part(&self.x_range, &other.x_range, m / 9);
            let new_y = range_part(&self.y_range, &other.y_range, (m / 3) % 3);
            let new_z = range_part(&self.z_range, &other.z_range, m % 3);
            let ghost ids = fragment_ids(self, *other, m as nat);
            if m != 13 {
                match (new_x, new_y, new_z) {
                    (Some(x), Some(y), Some(z)) => {
                        output.push(Cuboid::clone_from(&x, &y, &z));
                        assert(cells_of(self, *other, ids.push(m as nat)) =~= cells_of(self, *other, ids).push(
                            cell(self, *other, m as nat),
                        ));
                    },
                    _ => {},
                }
            }
            m = m + 1;
        }
    }
}

/// One step of the reboot: turn every cell of `cuboid` on or off.
#[derive(Clone, Copy, Debug, PartialEq, Eq, Structural)]
pub struct Instruction {
    pub is_on: bool,
    pub cuboid: Cuboid,
}

impl Instruction {
    /// Reads a line `on <box>` or `off <box>`, the box as `Cuboid::from` reads it.
    pub fn from(input: &str) -> (r: Option<Instruction>)
        ensures
            r == scan_instruction(input.spec_bytes()),
    {
        parse_instruction(input.as_bytes())
    }
}

/// What is left of each box of `cs` once `b` is cut out of it, in order.
pub open spec fn subtract_all(cs: Seq<Cuboid>, b: Cuboid) -> Seq<Cuboid>
    decreases cs.len(),
{
    if cs.len() == 0 {
        Seq::empty()
    } else {
        subtract_all(cs.drop_last(), b) + subtract_spec(cs.last(), b)
    }
}

/// The boxes after one instruction: `b` cut out of every box, then `b` itself added if it turns cells on.
pub open spec fn process_spec(cs: Seq<Cuboid>, ins: Instruction) -> Seq<Cuboid> {
    if ins.is_on {
        subtract_all(cs, ins.cuboid).push(ins.cuboid)
    } else {
        subtract_all(cs, ins.cuboid)
    }
}

/// The boxes after applying each instruction in turn.
pub open spec fn process_all(cs: Seq<Cuboid>, instrs: Seq<Instruction>) -> Seq<Cuboid>
    decreases instrs.len(),
{
    if instrs.len() == 0 {
        cs
    } else {
        process_spec(process_all(cs, instrs.drop_last()), instrs.last())
    }
}

/// The region the reboot procedure starts with: `[-50, 50]` on each axis.
pub open spec fn initialisation_area() -> Cuboid {
    Cuboid {
        x_range: AxisRange { start: -50i32, end: 50i32 },
        y_range: AxisRange { start: -50i32, end: 50i32 },
        z_range: AxisRange { start: -50i32, end: 50i32 },
    }
}

/// The instructions whose box lies wholly within the initialisation area, in order.
pub open spec fn initialisation_steps(instrs: Seq<Instruction>) -> Seq<Instruction> {
    instrs.filter(|i: Instruction| i.cuboid.within(initialisation_area()))
}

pub open spec fn instructions_wf(instrs: Seq<Instruction>) -> bool {
    forall|k: int| 0 <= k < instrs.len() ==> #[trigger] instrs[k].cuboid.wf()
}

/// Whether `p` is on after `instrs`, starting from the state `on`: the last
/// instruction whose box holds `p` decides.
pub open spec fn lit_after(on: bool, instrs: Seq<Instruction>, p: Point3) -> bool
    decreases instrs.len(),
{
    if instrs.len() == 0 {
        on
    } else if instrs.last().cuboid.contains(p) {
        instrs.last().is_on
    } else {
        lit_after(on, instrs.drop_last(), p)
    }
}

/// A decomposition of the lit cells: well-formed boxes, no two of which share a point.
pub open spec fn decomposition(cs: Seq<Cuboid>) -> bool {
    all_wf(cs) && pairwise_apart(cs)
}

/// Two well-formed boxes meet exactly when they share a lattice point.
pub proof fn lemma_meets_iff_common_point(a: Cuboid, b: Cuboid)
    requires
        a.wf(),
        b.wf(),
    ensures
        a.meets(b) <==> exists|p: Point3| a.contains(p) && b.contains(p),
{
    if a.meets(b) {
        let p = (
            if a.x_range.start < b.x_range.start { b.x_range.start as int } else { a.x_range.start as int },
            if a.y_range.start < b.y_range.start { b.y_range.start as int } else { a.y_range.start as int },
            if a.z_range.start < b.z_range.start { b.z_range.start as int } else { a.z_range.start as int },
        );
        assert(a.contains(p) && b.contains(p));
    }
}

/// In a decomposition no two boxes share a lattice point: their shared volume is zero.
pub proof fn lemma_decomposition_disjoint(cs: Seq<Cuboid>, i: int, j: int)
    requires
        decomposition(cs),
        0 <= i < cs.len(),
        0 <= j < cs.len(),
        i != j,
    ensures
        shared_vol(cs[i], cs[j]) == 0,
        forall|p: Point3| !(cs[i].contains(p) && #[trigger] cs[j].contains(p)),
{
    assert(!cs[i].meets(cs[j]));
    lemma_no_meet_shared_vol(cs[i], cs[j]);
    lemma_meets_iff_common_point(cs[i], cs[j]);
}

proof fn lemma_meets_symmetric(a: Cuboid, b: Cuboid)
    ensures
        a.meets(b) == b.meets(a),
{
}

proof fn lemma_within_apart(e: Cuboid, c: Cuboid, d: Cuboid)
    requires
        e.within(c),
        !c.meets(d),
        e.wf(),
    ensures
        !e.meets(d),
        !d.meets(e),
{
}

proof fn lemma_subtract_all_within(cs: Seq<Cuboid>, b: Cuboid, d: Cuboid)
    requires
        all_wf(cs),
        b.wf(),
        forall|i: int| 0 <= i < cs.len() ==> !#[trigger] cs[i].meets(d),
    ensures
        forall|k: int| 0 <= k < subtract_all(cs, b).len() ==> !#[trigger] subtract_all(cs, b)[k].meets(d),
    decreases cs.len(),
{
    if cs.len() > 0 {
        let init = cs.drop_last();
        lemma_subtract_all_within(init, b, d);
        lemma_subtract(cs.last(), b);
        let f = subtract_spec(cs.last(), b);
        let all = subtract_all(cs, b);
        assert forall|k: int| 0 <= k < all.len() implies !#[trigger] all[k].meets(d) by {
            if k >= subtract_all(init, b).len() {
                let j = k - subtract_all(init, b).len();
                assert(all[k] == f[j]);
                lemma_within_apart(f[j], cs.last(), d);
            }
        }
    }
}

/// Cutting `b` out of a decomposition leaves a decomposition clear of `b`.
pub proof fn lemma_subtract_all(cs: Seq<Cuboid>, b: Cuboid)
    requires
        decomposition(cs),
        b.wf(),
    ensures
        decomposition(subtract_all(cs, b)),
        forall|k: int| 0 <= k < subtract_all(cs, b).len() ==> !#[trigger] subtract_all(cs, b)[k].meets(b),
        forall|p: Point3| #[trigger] covers(subtract_all(cs, b), p) <==> covers(cs, p) && !b.contains(p),
    decreases cs.len(),
{
    if cs.len() > 0 {
        let init = cs.drop_last();
        let c = cs.last();
        assert(decomposition(init)) by {
            assert forall|i: int, j: int| 0 <= i < init.len() && 0 <= j < init.len() && i != j implies !#[trigger] init[i].meets(#[trigger] init[j]) by {
                assert(init[i] == cs[i] && init[j] == cs[j]);
            }
        }
        lemma_subtract_all(init, b);
        lemma_subtract(c, b);
        let prev = subtract_all(init, b);
        let f = subtract_spec(c, b);
        let all = subtract_all(cs, b);
        assert(all == prev + f);
        assert forall|k: int, i2: int| 0 <= k < f.len() && 0 <= i2 < prev.len() implies !#[trigger] prev[i2].meets(#[trigger] f[k]) by {
            assert forall|i: int| 0 <= i < init.len() implies !#[trigger] init[i].meets(f[k]) by {
                assert(!cs[i].meets(cs[cs.len() - 1]));
                lemma_meets_symmetric(cs[i], c);
                lemma_within_apart(f[k], c, init[i]);
            }
            lemma_subtract_all_within(init, b, f[k]);
            lemma_meets_symmetric(prev[i2], f[k]);
        }
        assert forall|k: int| 0 <= k < all.len() implies !#[trigger] all[k].meets(b) by {
            if k >= prev.len() {
                assert(all[k] == f[k - prev.len()]);
                assert(f[k - prev.len()].within(c));
            } else {
                assert(all[k] == prev[k]);
            }
        }
        assert forall|i: int, j: int| 0 <= i < all.len() && 0 <= j < all.len() && i != j implies !#[trigger] all[i].meets(#[trigger] all[j]) by {
            let n = prev.len() as int;
            if i < n && j >= n {
                assert(!prev[i].meets(f[j - n]));
            } else if i >= n && j < n {
                assert(!prev[j].meets(f[i - n]));
                lemma_meets_symmetric(prev[j], f[i - n]);
            } else if i >= n && j >= n {
                assert(!f[i - n].meets(f[j - n]));
            } else {
                assert(!prev[i].meets(prev[j]));
            }
        }
        assert forall|p: Point3| #[trigger] covers(all, p) <==> covers(cs, p) && !b.contains(p) by {
            assert(covers(prev, p) <==> covers(init, p) && !b.contains(p));
            assert(covers(f, p) <==> c.contains(p) && !b.contains(p));
            if covers(all, p) {
                let k = choose|k: int| 0 <= k < all.len() && #[trigger] all[k].contains(p);
                if k < prev.len() {
                    assert(prev[k].contains(p));
                } else {
                    assert(f[k - prev.len()].contains(p));
                }
            }
            if covers(prev, p) {
                let k = choose|k: int| 0 <= k < prev.len() && #[trigger] prev[k].contains(p);
                assert(all[k].contains(p));
            }
            if covers(f, p) {
                let k = choose|k: int| 0 <= k < f.len() && #[trigger] f[k].contains(p);
                assert(all[prev.len() + k].contains(p));
            }
            if covers(cs, p) {
                let k = choose|k: int| 0 <= k < cs.len() && #[trigger] cs[k].contains(p);
                if k < init.len() {
                    assert(init[k].contains(p));
                }
            }
            if covers(init, p) {
                let k = choose|k: int| 0 <= k < init.len() && #[trigger] init[k].contains(p);
                assert(cs[k].contains(p));
            }
        }
    }
}

/// Applying an instruction to a decomposition gives a decomposition whose cells
/// are those the instruction leaves as they were, plus its own box if it turns
/// cells on.
pub proof fn lemma_process(cs: Seq<Cuboid>, ins: Instruction)
    requires
        decomposition(cs),
        ins.cuboid.wf(),
    ensures
        decomposition(process_spec(cs, ins)),
        forall|p: Point3| #[trigger] covers(process_spec(cs, ins), p) == if ins.cuboid.contains(p) {
            ins.is_on
        } else {
            covers(cs, p)
        },
{
    let b = ins.cuboid;
    lemma_subtract_all(cs, b);
    let rest = subtract_all(cs, b);
    if ins.is_on {
        let all = rest.push(b);
        assert forall|i: int, j: int| 0 <= i < all.len() && 0 <= j < all.len() && i != j implies !#[trigger] all[i].meets(#[trigger] all[j]) by {
            if i == rest.len() {
                assert(!rest[j].meets(b));
                lemma_meets_symmetric(rest[j], b);
            } else if j == rest.len() {
                assert(!rest[i].meets(b));
            } else {
                assert(!rest[i].meets(rest[j]));
            }
        }
        assert forall|p: Point3| #[trigger] covers(all, p) == if b.contains(p) { true } else { covers(cs, p) } by {
            if b.contains(p) {
                assert(all[rest.len() as int].contains(p));
            } else {
                if covers(all, p) {
                    let k = choose|k: int| 0 <= k < all.len() && #[trigger] all[k].contains(p);
                    assert(rest[k].contains(p));
                }
                if covers(rest, p) {
                    let k = choose|k: int| 0 <= k < rest.len() && #[trigger] rest[k].contains(p);
                    assert(all[k].contains(p));
                }
            }
        }
    }
}

/// After any sequence of well-formed instructions, starting from a decomposition,
/// the boxes still form a decomposition: no two of them share a lattice point.
pub proof fn lemma_process_all(cs: Seq<Cuboid>, instrs: Seq<Instruction>)
    requires
        decomposition(cs),
        instructions_wf(instrs),
    ensures
        decomposition(process_all(cs, instrs)),
        forall|p: Point3| #[trigger] covers(process_all(cs, instrs), p) == lit_after(covers(cs, p), instrs, p),
    decreases instrs.len(),
{
    if instrs.len() > 0 {
        let init = instrs.drop_last();
        assert(instructions_wf(init)) by {
            assert forall|k: int| 0 <= k < init.len() implies #[trigger] init[k].cuboid.wf() by {
                assert(init[k] == instrs[k]);
            }
        }
        lemma_process_all(cs, init);
        lemma_process(process_all(cs, init), instrs.last());
    }
}

proof fn lemma_subtract_all_clear(cs: Seq<Cuboid>, b: Cuboid)
    requires
        all_wf(cs),
        b.wf(),
        forall|i: int| 0 <= i < cs.len() ==> !#[trigger] cs[i].meets(b),
    ensures
        subtract_all(cs, b) == cs,
    decreases cs.len(),
{
    if cs.len() > 0 {
        let init = cs.drop_last();
        assert forall|i: int| 0 <= i < init.len() implies !#[trigger] init[i].meets(b) by {
            assert(init[i] == cs[i]);
        }
        lemma_subtract_all_clear(init, b);
        assert(!cs[cs.len() - 1].meets(b));
        assert(init.push(cs.last()) =~= cs);
        assert(init + seq![cs.last()] =~= cs);
    }
}

proof fn lemma_subtract_self(b: Cuboid)
    requires
        b.wf(),
    ensures
        subtract_spec(b, b) == Seq::<Cuboid>::empty(),
{
    lemma_fragment_ids(b, b, 27);
    let ids = fragment_ids(b, b, 27);
    if ids.len() > 0 {
        let m = ids[0];
        let sd = cell_sides(m);
        assert(m == 9 * sd.0 + 3 * sd.1 + sd.2);
        assert(cell_present(b, b, m));
    }
    assert(cells_of(b, b, ids) =~= Seq::<Cuboid>::empty());
}

/// Applying the same "on" instruction a second time in a row changes nothing:
/// the boxes, and so the total volume, stay as after the first.
pub proof fn lemma_repeated_on(cs: Seq<Cuboid>, ins: Instruction)
    requires
        all_wf(cs),
        ins.cuboid.wf(),
        ins.is_on,
    ensures
        process_spec(process_spec(cs, ins), ins) == process_spec(cs, ins),
        total_vol(process_spec(process_spec(cs, ins), ins)) == total_vol(process_spec(cs, ins)),
{
    let b = ins.cuboid;
    let rest = subtract_all(cs, b);
    lemma_subtract_all_shape(cs, b);
    lemma_subtract_all_clear(rest, b);
    lemma_subtract_self(b);
    let once = rest.push(b);
    assert(once.drop_last() =~= rest);
    assert(subtract_all(once, b) =~= rest);
}

/// Turning a box on and then off again, where no lit box met it before, restores
/// the boxes, and so the total volume, from before the two instructions.
pub proof fn lemma_on_then_off(cs: Seq<Cuboid>, b: Cuboid)
    requires
        all_wf(cs),
        b.wf(),
        forall|i: int| 0 <= i < cs.len() ==> !#[trigger] cs[i].meets(b),
    ensures
        process_spec(process_spec(cs, Instruction { is_on: true, cuboid: b }), Instruction { is_on: false, cuboid: b })
            == cs,
        total_vol(
            process_spec(process_spec(cs, Instruction { is_on: true, cuboid: b }), Instruction { is_on: false, cuboid: b }),
        ) == total_vol(cs),
{
    lemma_subtract_all_clear(cs, b);
    lemma_subtract_self(b);
    let once = cs.push(b);
    assert(once.drop_last() =~= cs);
    assert(subtract_all(once, b) =~= cs);
}

/// Every box left by `subtract_all` is well formed and clear of `b`.
proof fn lemma_subtract_all_shape(cs: Seq<Cuboid>, b: Cuboid)
    requires
        all_wf(cs),
        b.wf(),
    ensures
        all_wf(subtract_all(cs, b)),
        forall|k: int| 0 <= k < subtract_all(cs, b).len() ==> !#[trigger] subtract_all(cs, b)[k].meets(b),
    decreases cs.len(),
{
    if cs.len() > 0 {
        let init = cs.drop_last();
        assert(all_wf(init)) by {
            assert forall|k: int| 0 <= k < init.len() implies #[trigger] init[k].wf() by {
                assert(init[k] == cs[k]);
            }
        }
        lemma_subtract_all_shape(init, b);
        lemma_subtract(cs.last(), b);
        let prev = subtract_all(init, b);
        let f = subtract_spec(cs.last(), b);
        let all = subtract_all(cs, b);
        assert forall|k: int| 0 <= k < all.len() implies #[trigger] all[k].wf() && !all[k].meets(b) by {
            if k >= prev.len() {
                assert(all[k] == f[k - prev.len()]);
                assert(f[k - prev.len()].within(cs.last()));
            } else {
                assert(all[k] == prev[k]);
            }
        }
        assert forall|k: int| 0 <= k < all.len() implies !#[trigger] all[k].meets(b) by {
            assert(all[k].wf());
        }
    }
}

proof fn lemma_total_vol_nonneg(s: Seq<Cuboid>)
    requires
        all_wf(s),
    ensures
        total_vol(s) >= 0,
    decreases s.len(),
{
    if s.len() > 0 {
        let init = s.drop_last();
        assert forall|k: int| 0 <= k < init.len() implies #[trigger] init[k].wf() by {
            assert(init[k] == s[k]);
        }
        lemma_total_vol_nonneg(init);
        lemma_vol_bound(s.last());
    }
}

/// The lit cells of the reactor, held as a decomposition into disjoint boxes.
pub struct ReactorCore {
    pub on_cuboids: Vec<Cuboid>,
}

impl ReactorCore {
    pub open spec fn wf(&self) -> bool {
        decomposition(self.on_cuboids@)
    }

    /// The reactor with every cell off.
    pub fn new() -> (r: ReactorCore)
        ensures
            r.on_cuboids@ == Seq::<Cuboid>::empty(),
            r.wf(),
    {
        ReactorCore { on_cuboids: Vec::new() }
    }

    /// Applies one instruction: its box is cut out of every lit box, then added
    /// whole if it turns cells on.
    pub fn process(&mut self, instruction: &Instruction)
        requires
            old(self).wf(),
            instruction.cuboid.wf(),
        ensures
            final(self).on_cuboids@ == process_spec(old(self).on_cuboids@, *instruction),
            final(self).wf(),
            forall|p: Point3| #[trigger] covers(final(self).on_cuboids@, p) == if instruction.cuboid.contains(p) {
                instruction.is_on
            } else {
                covers(old(self).on_cuboids@, p)
            },
    {
        proof {
            lemma_process(self.on_cuboids@, *instruction);
        }
        let mut old_cuboids: Vec<Cuboid> = Vec::new();
        std::mem::swap(&mut old_cuboids, &mut self.on_cuboids);
        let n = old_cuboids.len();
        let mut i: usize = 0;
        while i < n
            invariant
                n == old_cuboids.len(),
                i <= n,
                all_wf(old_cuboids@),
                instruction.cuboid.wf(),
                self.on_cuboids@ == subtract_all(old_cuboids@.take(i as int), instruction.cuboid),
            decreases n - i,
        {
            let cuboid = old_cuboids[i];
            assert(old_cuboids@.take(i as int + 1).drop_last() =~= old_cuboids@.take(i as int));
            cuboid.subtract(&instruction.cuboid, &mut self.on_cuboids);
            i = i + 1;
        }
        assert(old_cuboids@.take(n as int) =~= old_cuboids@);
        if instruction.is_on {
            self.on_cuboids.push(instruction.cuboid);
        }
    }

    /// Applies every instruction, in order.
    pub fn reboot(&mut self, instructions: &Vec<Instruction>)
        requires
            old(self).wf(),
            instructions_wf(instructions@),
        ensures
            final(self).on_cuboids@ == process_all(old(self).on_cuboids@, instructions@),
            final(self).wf(),
            forall|p: Point3| #[trigger] covers(final(self).on_cuboids@, p) == lit_after(
                covers(old(self).on_cuboids@, p),
                instructions@,
                p,
            ),
    {
        let ghost start = self.on_cuboids@;
        let n = instructions.len();
        let mut i: usize = 0;
        while i < n
            invariant
                n == instructions.len(),
                i <= n,
                instructions_wf(instructions@),
                self.wf(),
                self.on_cuboids@ == process_all(start, instructions@.take(i as int)),
                forall|p: Point3| #[trigger] covers(self.on_cuboids@, p) == lit_after(
                    covers(start, p),
                    instructions@.take(i as int),
                    p,
                ),
            decreases n - i,
        {
            let ghost before = self.on_cuboids@;
            assert(instructions@.take(i as int + 1).drop_last() =~= instructions@.take(i as int));
            self.process(&instructions[i]);
            i = i + 1;
            assert forall|p: Point3| #[trigger] covers(self.on_cuboids@, p) == lit_after(
                covers(start, p),
                instructions@.take(i as int),
                p,
            ) by {
                assert(covers(before, p) == lit_after(covers(start, p), instructions@.take(i - 1), p));
            }
        }
        assert(instructions@.take(n as int) =~= instructions@);
    }

    /// Applies, in order, the instructions whose box lies wholly within the
    /// initialisation area, and skips the others.
    pub fn initialise(&mut self, instructions: &Vec<Instruction>)
        requires
            old(self).wf(),
            instructions_wf(instructions@),
        ensures
            final(self).on_cuboids@ == process_all(old(self).on_cuboids@, initialisation_steps(instructions@)),
            final(self).wf(),
            forall|p: Point3| #[trigger] covers(final(self).on_cuboids@, p) == lit_after(
                covers(old(self).on_cuboids@, p),
                initialisation_steps(instructions@),
                p,
            ),
    {
        let area = Cuboid {
            x_range: AxisRange { start: -50, end: 50 },
            y_range: AxisRange { start: -50, end: 50 },
            z_range: AxisRange { start: -50, end: 50 },
        };
        let ghost start = self.on_cuboids@;
        let n = instructions.len();
        let mut i: usize = 0;
        while i < n
            invariant
                n == instructions.len(),
                i <= n,
                instructions_wf(instructions@),
                area == initialisation_area(),
                self.wf(),
                self.on_cuboids@ == process_all(start, initialisation_steps(instructions@.take(i as int))),
                forall|p: Point3| #[trigger] covers(self.on_cuboids@, p) == lit_after(
                    covers(start, p),
                    initialisation_steps(instructions@.take(i as int)),
                    p,
                ),
            decreases n - i,
        {
            let ghost before = self.on_cuboids@;
            let ghost prefix = instructions@.take(i as int);
            let ghost next = instructions@.take(i as int + 1);
            assert(next.drop_last() =~= prefix);
            let ghost steps = initialisation_steps(next);
            reveal_with_fuel(Seq::filter, 1);
            if instructions[i].cuboid.is_contained_by(&area) {
                assert(steps.drop_last() == initialisation_steps(prefix));
                self.process(&instructions[i]);
                assert forall|p: Point3| #[trigger] covers(self.on_cuboids@, p) == lit_after(
                    covers(start, p),
                    steps,
                    p,
                ) by {
                    assert(covers(before, p) == lit_after(covers(start, p), initialisation_steps(prefix), p));
                }
            } else {
                assert(steps == initialisation_steps(prefix));
            }
            i = i + 1;
        }
        assert(instructions@.take(n as int) =~= instructions@);
    }

    /// Number of lit cells, or `None` where that number exceeds `u128::MAX`.
    pub fn count_on_cubes(&self) -> (r: Option<u128>)
        requires
            self.wf(),
        ensures
            r == if total_vol(self.on_cuboids@) <= u128::MAX {
                Some(total_vol(self.on_cuboids@) as u128)
            } else {
                None::<u128>
            },
    {
        let n = self.on_cuboids.len();
        let mut total: u128 = 0;
        let mut i: usize = 0;
        while i < n
            invariant
                n == self.on_cuboids.len(),
                i <= n,
                all_wf(self.on_cuboids@),
                total == total_vol(self.on_cuboids@.take(i as int)),
            decreases n - i,
        {
            let v = self.on_cuboids[i].volume();
            let ghost prefix = self.on_cuboids@.take(i as int);
            assert(self.on_cuboids@.take(i as int + 1) =~= prefix.push(self.on_cuboids@[i as int]));
            proof {
                lemma_total_vol_push(prefix, self.on_cuboids@[i as int]);
            }
            if total > u128::MAX - v {
                proof {
                    let rest = self.on_cuboids@.skip(i as int + 1);
                    assert(self.on_cuboids@ =~= self.on_cuboids@.take(i as int + 1) + rest);
                    lemma_total_vol_concat(self.on_cuboids@.take(i as int + 1), rest);
                    assert forall|k: int| 0 <= k < rest.len() implies #[trigger] rest[k].wf() by {
                        assert(rest[k] == self.on_cuboids@[i + 1 + k]);
                    }
                    lemma_total_vol_nonneg(rest);
                }
                return None;
            }
            total = total + v;
            i = i + 1;
        }
        assert(self.on_cuboids@.take(n as int) =~= self.on_cuboids@);
        Some(total)
    }
}

} // verus!
