use crate::parse::{parse_int, scan_i32};
use vstd::prelude::*;
use vstd::string::StringSliceAdditionalSpecFns;

verus! {

/// A position relative to a scanner.
#[derive(Clone, Copy, Debug, PartialEq, Eq, Structural, Hash)]
pub struct Point {
    pub x: i32,
    pub y: i32,
    pub z: i32,
}

/// An axis to rotate about.
#[derive(Clone, Copy, Debug, PartialEq, Eq, Structural)]
pub enum Axis {
    X,
    Y,
    Z,
}

/// No coordinate is `i32::MIN`, so each can be negated.
pub open spec fn negatable(p: Point) -> bool {
    p.x > i32::MIN && p.y > i32::MIN && p.z > i32::MIN
}

/// A quarter turn about `axis`.
pub open spec fn quarter_turn(p: Point, axis: Axis) -> Point {
    match axis {
        Axis::X => Point { x: p.x, y: (-p.z) as i32, z: p.y },
        Axis::Y => Point { x: p.z, y: p.y, z: (-p.x) as i32 },
        Axis::Z => Point { x: p.y, y: (-p.x) as i32, z: p.z },
    }
}

/// `times` quarter turns about `axis`.
pub open spec fn turned(p: Point, axis: Axis, times: nat) -> Point
    decreases times,
{
    if times == 0 {
        p
    } else {
        quarter_turn(turned(p, axis, (times - 1) as nat), axis)
    }
}

/// The sum of the absolute coordinate differences.
pub open spec fn manhattan(a: Point, b: Point) -> int {
    let dx = a.x - b.x;
    let dy = a.y - b.y;
    let dz = a.z - b.z;
    (if dx < 0 { -dx } else { dx }) + (if dy < 0 { -dy } else { dy }) + (if dz < 0 { -dz } else { dz })
}

pub open spec fn fits_i32(v: int) -> bool {
    i32::MIN <= v <= i32::MAX
}

proof fn lemma_quarter_turn_negatable(p: Point, axis: Axis)
    requires
        negatable(p),
    ensures
        negatable(quarter_turn(p, axis)),
{
}

impl Point {
    pub fn origin() -> (r: Point)
        ensures
            r == (Point { x: 0, y: 0, z: 0 }),
    {
        Point { x: 0, y: 0, z: 0 }
    }

    /// Half a turn about the y axis: the x axis points the other way.
    pub fn face_inverse_x(&self) -> (r: Point)
        requires
            negatable(*self),
        ensures
            r == (Point { x: (-self.x) as i32, y: self.y, z: (-self.z) as i32 }),
    {
        proof {
            reveal_with_fuel(turned, 3);
        }
        self.rotate_around_y_times(2)
    }

    /// Half a turn about the z axis: the y axis points the other way.
    pub fn face_inverse_y(&self) -> (r: Point)
        requires
            negatable(*self),
        ensures
            r == (Point { x: (-self.x) as i32, y: (-self.y) as i32, z: self.z }),
    {
        proof {
            reveal_with_fuel(turned, 3);
        }
        self.rotate_around_z_times(2)
    }

    /// Half a turn about the x axis: the z axis points the other way.
    pub fn face_inverse_z(&self) -> (r: Point)
        requires
            negatable(*self),
        ensures
            r == (Point { x: self.x, y: (-self.y) as i32, z: (-self.z) as i32 }),
    {
        proof {
            reveal_with_fuel(turned, 3);
        }
        self.rotate_around_x_times(2)
    }

    pub fn rotate_around_x(&self) -> (r: Point)
        requires
            negatable(*self),
        ensures
            r == quarter_turn(*self, Axis::X),
            negatable(r),
    {
        Point { x: self.x, y: -self.z, z: self.y }
    }

    pub fn rotate_around_y(&self) -> (r: Point)
        requires
            negatable(*self),
        ensures
            r == quarter_turn(*self, Axis::Y),
            negatable(r),
    {
        Point { y: self.y, z: -self.x, x: self.z }
    }

    pub fn rotate_around_z(&self) -> (r: Point)
        requires
            negatable(*self),
        ensures
            r == quarter_turn(*self, Axis::Z),
            negatable(r),
    {
        Point { z: self.z, y: -self.x, x: self.y }
    }

    pub fn rotate_around_x_times(&self, times: u8) -> (r: Point)
        requires
            negatable(*self),
            0 < times < 4,
        ensures
            r == turned(*self, Axis::X, times as nat),
            negatable(r),
    {
        self.rotate_times(times, Axis::X)
    }

    pub fn rotate_around_y_times(&self, times: u8) -> (r: Point)
        requires
            negatable(*self),
            0 < times < 4,
        ensures
            r == turned(*self, Axis::Y, times as nat),
            negatable(r),
    {
        self.rotate_times(times, Axis::Y)
    }

    pub fn rotate_around_z_times(&self, times: u8) -> (r: Point)
        requires
            negatable(*self),
            0 < times < 4,
        ensures
            r == turned(*self, Axis::Z, times as nat),
            negatable(r),
    {
        self.rotate_times(times, Axis::Z)
    }

    /// `times` quarter turns about `axis`.
    pub fn rotate_times(&self, times: u8, axis: Axis) -> (r: Point)
        requires
            negatable(*self),
            0 < times < 4,
        ensures
            r == turned(*self, axis, times as nat),
            negatable(r),
    {
        let mut count: u8 = 1;
        let mut result = self.quarter_turn(axis);
        proof {
            reveal_with_fuel(turned, 2);
        }
        while count < times
            invariant
                1 <= count <= times,
                result == turned(*self, axis, count as nat),
                negatable(result),
            decreases times - count,
        {
            result = result.quarter_turn(axis);
            count = count + 1;
        }
        result
    }

    fn quarter_turn(&self, axis: Axis) -> (r: Point)
        requires
            negatable(*self),
        ensures
            r == quarter_turn(*self, axis),
            negatable(r),
    {
        match axis {
            Axis::X => self.rotate_around_x(),
            Axis::Y => self.rotate_around_y(),
            Axis::Z => self.rotate_around_z(),
        }
    }

    /// The offset that carries `self` onto `other`.
    pub fn translation_needed_to(&self, other: &Point) -> (r: Point)
        requires
            fits_i32(other.x - self.x),
            fits_i32(other.y - self.y),
            fits_i32(other.z - self.z),
        ensures
            r.x == other.x - self.x,
            r.y == other.y - self.y,
            r.z == other.z - self.z,
    {
        Point { x: other.x - self.x, y: other.y - self.y, z: other.z - self.z }
    }

    /// `self` moved by the offset `other`.
    pub fn translate(&self, other: &Point) -> (r: Point)
        requires
            fits_i32(self.x + other.x),
            fits_i32(self.y + other.y),
            fits_i32(self.z + other.z),
        ensures
            r.x == self.x + other.x,
            r.y == self.y + other.y,
            r.z == self.z + other.z,
    {
        Point { x: self.x + other.x, y: self.y + other.y, z: self.z + other.z }
    }

    /// Manhattan distance.
    pub fn dist_to(&self, other: &Point) -> (r: i32)
        requires
            manhattan(*self, *other) <= i32::MAX,
        ensures
            r == manhattan(*self, *other),
    {
        let dx = self.x as i64 - other.x as i64;
        let dy = self.y as i64 - other.y as i64;
        let dz = self.z as i64 - other.z as i64;
        let ax = if dx < 0 { -dx } else { dx };
        let ay = if dy < 0 { -dy } else { dy };
        let az = if dz < 0 { -dz } else { dz };
        (ax + ay + az) as i32
    }
}

/// The point as seen in orientation `k` (0 to 23) of a scanner: facing along
/// +x, -x, -y, +y, -z or +z (`k / 4`), then turned `k % 4` quarter turns about
/// that facing axis.
pub open spec fn oriented(p: Point, k: nat) -> Point {
    let face = k / 4;
    let base = if face == 0 {
        p
    } else if face == 1 {
        turned(p, Axis::Y, 2)
    } else if face == 2 {
        quarter_turn(p, Axis::Z)
    } else if face == 3 {
        turned(quarter_turn(p, Axis::Z), Axis::Z, 2)
    } else if face == 4 {
        quarter_turn(p, Axis::Y)
    } else {
        turned(quarter_turn(p, Axis::Y), Axis::X, 2)
    };
    let axis = if face < 2 {
        Axis::X
    } else if face < 4 {
        Axis::Y
    } else {
        Axis::Z
    };
    turned(base, axis, k % 4)
}

/// The point in orientation `k`, as `oriented` gives it.
pub fn orient(p: &Point, k: usize) -> (r: Point)
    requires
        negatable(*p),
        k < 24,
    ensures
        r == oriented(*p, k as nat),
        negatable(r),
{
    proof {
        reveal_with_fuel(turned, 3);
        lemma_quarter_turn_negatable(*p, Axis::Y);
        lemma_quarter_turn_negatable(*p, Axis::Z);
    }
    let face = k / 4;
    let base = if face == 0 {
        *p
    } else if face == 1 {
        p.face_inverse_x()
    } else if face == 2 {
        p.rotate_around_z()
    } else if face == 3 {
        p.rotate_around_z().face_inverse_y()
    } else if face == 4 {
        p.rotate_around_y()
    } else {
        p.rotate_around_y().face_inverse_z()
    };
    let axis = if face < 2 {
        Axis::X
    } else if face < 4 {
        Axis::Y
    } else {
        Axis::Z
    };
    let turns = (k % 4) as u8;
    if turns == 0 {
        base
    } else {
        base.rotate_times(turns, axis)
    }
}

/// The beacons one scanner reports, relative to itself.
pub struct Scan {
    pub scanner_id: usize,
    pub points: Vec<Point>,
}

pub open spec fn all_negatable(s: Seq<Point>) -> bool {
    forall|i: int| 0 <= i < s.len() ==> negatable(#[trigger] s[i])
}

impl Scan {
    /// The same scan with `t` applied to every point.
    pub fn transform<F: Fn(&Point) -> Point>(&self, t: F) -> (r: Scan)
        requires
            forall|i: int| 0 <= i < self.points@.len() ==> t.requires((&#[trigger] self.points@[i],)),
        ensures
            r.scanner_id == self.scanner_id,
            r.points@.len() == self.points@.len(),
            forall|i: int| 0 <= i < self.points@.len() ==> t.ensures((&#[trigger] self.points@[i],), r.points@[i]),
    {
        let mut points: Vec<Point> = Vec::new();
        let mut i: usize = 0;
        while i < self.points.len()
            invariant
                i <= self.points@.len(),
                points@.len() == i,
                forall|j: int| 0 <= j < self.points@.len() ==> t.requires((&#[trigger] self.points@[j],)),
                forall|j: int| 0 <= j < i ==> t.ensures((&#[trigger] self.points@[j],), points@[j]),
            decreases self.points@.len() - i,
        {
            let p = t(&self.points[i]);
            points.push(p);
            i = i + 1;
        }
        Scan { scanner_id: self.scanner_id, points }
    }

    /// The offset that twelve pairings of a point of `other` with a point of
    /// `self` first agree on, trying each point of `other` against each point
    /// of `self` in turn; `None` where no offset gets twelve.
    pub fn overlaps(&self, other: &Scan) -> (r: Option<Point>)
        requires
            all_near(self.points@),
            all_near(other.points@),
        ensures
            r matches Some(t) ==> exists|n: int|
                0 <= n < self.points@.len() * other.points@.len() && #[trigger] hits(self.points@, other.points@, n)
                    && pair_offset(self.points@, other.points@, n) == t && forall|m: int|
                    0 <= m < n ==> !#[trigger] hits(self.points@, other.points@, m),
            r is None ==> forall|m: int|
                0 <= m < self.points@.len() * other.points@.len() ==> !#[trigger] hits(self.points@, other.points@, m),
    {
        let ghost mine = self.points@;
        let ghost theirs = other.points@;
        let w = self.points.len();
        let mut counts: Vec<(Point, u32)> = Vec::new();
        let mut a: usize = 0;
        while a < other.points.len()
            invariant
                mine == self.points@,
                theirs == other.points@,
                w == mine.len(),
                all_near(mine),
                all_near(theirs),
                a <= theirs.len(),
                forall|e: int| 0 <= e < counts@.len() ==> (#[trigger] counts@[e]).1 == offset_count(mine, theirs, counts@[e].0, a * w),
                forall|e: int| 0 <= e < counts@.len() ==> (#[trigger] counts@[e]).1 < 12,
                forall|e: int, f: int| 0 <= e < f < counts@.len() ==> (#[trigger] counts@[e]).0 != (#[trigger] counts@[f]).0,
                forall|t: Point| #[trigger] offset_count(mine, theirs, t, a * w) > 0 ==> exists|e: int| 0 <= e < counts@.len() && (#[trigger] counts@[e]).0 == t,
                forall|m: int| 0 <= m < a * w ==> !#[trigger] hits(mine, theirs, m),
            decreases theirs.len() - a,
        {
            let other_point = other.points[a];
            let mut b: usize = 0;
            while b < w
                invariant
                    mine == self.points@,
                    theirs == other.points@,
                    w == mine.len(),
                    all_near(mine),
                    all_near(theirs),
                    a < theirs.len(),
                    other_point == theirs[a as int],
                    b <= w,
                    forall|e: int| 0 <= e < counts@.len() ==> (#[trigger] counts@[e]).1 == offset_count(mine, theirs, counts@[e].0, a * w + b),
                    forall|e: int| 0 <= e < counts@.len() ==> (#[trigger] counts@[e]).1 < 12,
                    forall|e: int, f: int| 0 <= e < f < counts@.len() ==> (#[trigger] counts@[e]).0 != (#[trigger] counts@[f]).0,
                    forall|t: Point| #[trigger] offset_count(mine, theirs, t, a * w + b) > 0 ==> exists|e: int| 0 <= e < counts@.len() && (#[trigger] counts@[e]).0 == t,
                    forall|m: int| 0 <= m < a * w + b ==> !#[trigger] hits(mine, theirs, m),
                decreases w - b,
            {
                let matched_point = self.points[b];
                let ghost n = a * w + b;
                proof {
                    assert(n / (w as int) == a && n % (w as int) == b) by (nonlinear_arith)
                        requires n == a * w + b, b < w;
                    assert(near(matched_point) && near(other_point));
                }
                let translation = matched_point.translation_needed_to(&other_point);
                assert(translation == pair_offset(mine, theirs, n));
                let e = find_offset(&counts, &translation);
                let count: u32 = if e < counts.len() { counts[e].1 + 1 } else { 1 };
                proof {
                    if e == counts.len() {
                        if offset_count(mine, theirs, translation, n) > 0 {
                            let f = choose|f: int| 0 <= f < counts@.len() && (#[trigger] counts@[f]).0 == translation;
                        }
                    }
                    assert(count == offset_count(mine, theirs, translation, n + 1));
                }
                let ghost old_counts = counts@;
                if count >= 12 {
                    assert(hits(mine, theirs, n));
                    assert(n < mine.len() * theirs.len()) by (nonlinear_arith)
                        requires n == a * w + b, b < w, a < theirs.len(), w == mine.len();
                    assert(forall|m: int| 0 <= m < n ==> !#[trigger] hits(mine, theirs, m));
                    assert(0 <= n < mine.len() * theirs.len() && hits(mine, theirs, n) && pair_offset(mine, theirs, n) == translation
                        && forall|m: int| 0 <= m < n ==> !#[trigger] hits(mine, theirs, m));
                    return Some(translation);
                }
                if e < counts.len() {
                    counts.set(e, (translation, count));
                } else {
                    counts.push((translation, count));
                }
                proof {
                    assert forall|f: int| 0 <= f < counts@.len() implies (#[trigger] counts@[f]).1 == offset_count(
                        mine,
                        theirs,
                        counts@[f].0,
                        n + 1,
                    ) by {
                        if f != e {
                            assert(counts@[f] == old_counts[f]);
                        }
                    }
                    assert forall|t: Point| #[trigger] offset_count(mine, theirs, t, n + 1) > 0 implies exists|f: int|
                        0 <= f < counts@.len() && (#[trigger] counts@[f]).0 == t by {
                        if t == translation {
                            assert(counts@[e as int].0 == t);
                        } else {
                            assert(offset_count(mine, theirs, t, n) > 0);
                            let f = choose|f: int| 0 <= f < old_counts.len() && (#[trigger] old_counts[f]).0 == t;
                            assert(counts@[f] == old_counts[f]);
                        }
                    }
                    assert forall|m: int| 0 <= m < n + 1 implies !#[trigger] hits(mine, theirs, m) by {
                        if m == n {
                            assert(offset_count(mine, theirs, translation, n + 1) < 12);
                        }
                    }
                }
                b = b + 1;
            }
            proof {
                assert((a + 1) * w == a * w + w) by (nonlinear_arith);
            }
            a = a + 1;
        }
        proof {
            assert(a * w == mine.len() * theirs.len()) by (nonlinear_arith)
                requires a == theirs.len(), w == mine.len();
        }
        None
    }

    /// The same scan with every point moved by `point`.
    pub fn translate(&self, point: &Point) -> (r: Scan)
        requires
            forall|i: int| 0 <= i < self.points@.len() ==> {
                let p = #[trigger] self.points@[i];
                fits_i32(p.x + point.x) && fits_i32(p.y + point.y) && fits_i32(p.z + point.z)
            },
        ensures
            r.scanner_id == self.scanner_id,
            r.points@.len() == self.points@.len(),
            forall|i: int| 0 <= i < self.points@.len() ==> {
                let (p, q) = (#[trigger] self.points@[i], r.points@[i]);
                q.x == p.x + point.x && q.y == p.y + point.y && q.z == p.z + point.z
            },
    {
        let mut points: Vec<Point> = Vec::new();
        let mut i: usize = 0;
        while i < self.points.len()
            invariant
                i <= self.points@.len(),
                points@.len() == i,
                forall|j: int| 0 <= j < self.points@.len() ==> {
                    let p = #[trigger] self.points@[j];
                    fits_i32(p.x + point.x) && fits_i32(p.y + point.y) && fits_i32(p.z + point.z)
                },
                forall|j: int| 0 <= j < i ==> {
                    let (p, q) = (#[trigger] self.points@[j], points@[j]);
                    q.x == p.x + point.x && q.y == p.y + point.y && q.z == p.z + point.z
                },
            decreases self.points@.len() - i,
        {
            points.push(self.points[i].translate(point));
            i = i + 1;
        }
        Scan { scanner_id: self.scanner_id, points }
    }
}

/// Every coordinate lies within 2^30 of the origin, so any difference of two fits in an `i32`.
pub open spec fn near(p: Point) -> bool {
    -0x4000_0000 < p.x < 0x4000_0000 && -0x4000_0000 < p.y < 0x4000_0000 && -0x4000_0000 < p.z < 0x4000_0000
}

pub open spec fn all_near(s: Seq<Point>) -> bool {
    forall|i: int| 0 <= i < s.len() ==> near(#[trigger] s[i])
}

/// The offset carrying `a` onto `b`.
pub open spec fn offset_between(a: Point, b: Point) -> Point {
    Point { x: (b.x - a.x) as i32, y: (b.y - a.y) as i32, z: (b.z - a.z) as i32 }
}

/// The `n`th pairing that `overlaps` tries: each point of `other` in turn,
/// against each point of `mine` in turn; the offset from the point of `mine`.
pub open spec fn pair_offset(mine: Seq<Point>, other: Seq<Point>, n: int) -> Point {
    offset_between(mine[n % mine.len() as int], other[n / mine.len() as int])
}

/// How many of the first `n` pairings give the offset `t`.
pub open spec fn offset_count(mine: Seq<Point>, other: Seq<Point>, t: Point, n: int) -> nat
    decreases n,
{
    if n <= 0 {
        0
    } else {
        offset_count(mine, other, t, n - 1) + if pair_offset(mine, other, n - 1) == t { 1nat } else { 0nat }
    }
}

/// Pairing `n` is the twelfth (or later) to give its offset.
pub open spec fn hits(mine: Seq<Point>, other: Seq<Point>, n: int) -> bool {
    offset_count(mine, other, pair_offset(mine, other, n), n + 1) >= 12
}

/// Where `t` stands among the offsets counted so far; `counts.len()` where it does not.
fn find_offset(counts: &Vec<(Point, u32)>, t: &Point) -> (r: usize)
    ensures
        r <= counts@.len(),
        r < counts@.len() ==> counts@[r as int].0 == *t,
        r == counts@.len() ==> forall|f: int| 0 <= f < counts@.len() ==> (#[trigger] counts@[f]).0 != *t,
{
    let mut e: usize = 0;
    while e < counts.len()
        invariant
            forall|f: int| 0 <= f < e ==> (#[trigger] counts@[f]).0 != *t,
            e <= counts@.len(),
        decreases counts@.len() - e,
    {
        if counts[e].0 == *t {
            return e;
        }
        e = e + 1;
    }
    e
}

/// The scan in orientation `k`.
fn oriented_scan(base_scan: &Scan, k: usize) -> (r: Scan)
    requires
        all_negatable(base_scan.points@),
        k < 24,
    ensures
        r.scanner_id == base_scan.scanner_id,
        r.points@.len() == base_scan.points@.len(),
        forall|i: int| 0 <= i < base_scan.points@.len() ==> r.points@[i] == oriented(#[trigger] base_scan.points@[i], k as nat),
{
    let mut points: Vec<Point> = Vec::new();
    let mut i: usize = 0;
    while i < base_scan.points.len()
        invariant
            i <= base_scan.points@.len(),
            k < 24,
            all_negatable(base_scan.points@),
            points@.len() == i,
            forall|j: int| 0 <= j < i ==> points@[j] == oriented(#[trigger] base_scan.points@[j], k as nat),
        decreases base_scan.points@.len() - i,
    {
        points.push(orient(&base_scan.points[i], k));
        i = i + 1;
    }
    Scan { scanner_id: base_scan.scanner_id, points }
}

/// The scan in each of the 24 orientations a scanner may have, in the order of `oriented`.
pub fn transform_scan(base_scan: Scan) -> (r: Vec<Scan>)
    requires
        all_negatable(base_scan.points@),
    ensures
        r@.len() == 24,
        forall|k: int| 0 <= k < 24 ==> (#[trigger] r@[k]).scanner_id == base_scan.scanner_id,
        forall|k: int| 0 <= k < 24 ==> (#[trigger] r@[k]).points@.len() == base_scan.points@.len(),
        forall|k: int, i: int| 0 <= k < 24 && 0 <= i < base_scan.points@.len() ==> (#[trigger] r@[k]).points@[i] == oriented(
            #[trigger] base_scan.points@[i],
            k as nat,
        ),
{
    let mut scans: Vec<Scan> = Vec::new();
    let mut k: usize = 1;
    while k < 24
        invariant
            1 <= k <= 24,
            scans@.len() == k - 1,
            all_negatable(base_scan.points@),
            forall|m: int| 0 <= m < k - 1 ==> (#[trigger] scans@[m]).scanner_id == base_scan.scanner_id,
            forall|m: int| 0 <= m < k - 1 ==> (#[trigger] scans@[m]).points@.len() == base_scan.points@.len(),
            forall|m: int, i: int| 0 <= m < k - 1 && 0 <= i < base_scan.points@.len() ==> (#[trigger] scans@[m]).points@[i]
                == oriented(#[trigger] base_scan.points@[i], (m + 1) as nat),
        decreases 24 - k,
    {
        let scan = oriented_scan(&base_scan, k);
        scans.push(scan);
        k = k + 1;
    }
    proof {
        assert(oriented(base_scan.points@[0], 0) == base_scan.points@[0]) by {
            reveal_with_fuel(turned, 1);
        }
    }
    scans.insert(0, base_scan);
    scans
}

/// `p` moved by the offset `o`.
pub open spec fn shifted(p: Point, o: Point) -> Point {
    Point { x: (p.x + o.x) as i32, y: (p.y + o.y) as i32, z: (p.z + o.z) as i32 }
}

/// No pairing of a point of `a` with a point of `b` is the twelfth to give its offset.
pub open spec fn overlap_free(a: Seq<Point>, b: Seq<Point>) -> bool {
    forall|m: int| 0 <= m < a.len() * b.len() ==> !#[trigger] hits(a, b, m)
}

/// No orientation of any scanner in `rel` overlaps the scan `b`.
pub open spec fn clear_of(rel: Seq<(usize, Vec<Scan>)>, b: Seq<Point>) -> bool {
    forall|e: int, j: int| 0 <= e < rel.len() && 0 <= j < rel[e].1@.len() ==> overlap_free(#[trigger] rel[e].1@[j].points@, b)
}

pub open spec fn rel_near(rel: Seq<(usize, Vec<Scan>)>) -> bool {
    forall|e: int, j: int| 0 <= e < rel.len() && 0 <= j < rel[e].1@.len() ==> all_near(#[trigger] rel[e].1@[j].points@)
}

pub open spec fn abs_near(abs: Seq<(Point, Scan)>) -> bool {
    forall|k: int| 0 <= k < abs.len() ==> all_near(#[trigger] abs[k].1.points@)
}

/// The placed scan `placed` is the scan `o` moved by `placed.0`, an offset that
/// twelve pairings of `o` with the placed scan `base` agree on.
pub open spec fn placed_by(placed: (Point, Scan), o: Scan, base: Scan) -> bool {
    &&& placed.1.scanner_id == o.scanner_id
    &&& placed.1.points@.len() == o.points@.len()
    &&& forall|i: int| 0 <= i < o.points@.len() ==> #[trigger] placed.1.points@[i] == shifted(o.points@[i], placed.0)
    &&& exists|n: int|
        0 <= n < o.points@.len() * base.points@.len() && #[trigger] hits(o.points@, base.points@, n) && pair_offset(
            o.points@,
            base.points@,
            n,
        ) == placed.0
}

/// Placed scan `k` is some orientation from `rel` placed against an earlier placed scan.
pub open spec fn justified(abs: Seq<(Point, Scan)>, k: int, rel: Seq<(usize, Vec<Scan>)>) -> bool {
    exists|e: int, j: int, k2: int|
        0 <= e < rel.len() && 0 <= j < rel[e].1@.len() && 0 <= k2 < k && #[trigger] placed_by(abs[k], rel[e].1@[j], abs[k2].1)
}

/// `p` moved by `o` stays within 2^30 of the origin.
pub open spec fn shift_near(p: Point, o: Point) -> bool {
    -0x4000_0000 < p.x + o.x < 0x4000_0000 && -0x4000_0000 < p.y + o.y < 0x4000_0000 && -0x4000_0000 < p.z + o.z
        < 0x4000_0000
}

/// Entry `e` of `rel` is one of the entries of `rel0`.
pub open spec fn kept_from(rel: Seq<(usize, Vec<Scan>)>, rel0: Seq<(usize, Vec<Scan>)>, e: int) -> bool {
    exists|e0: int| 0 <= e0 < rel0.len() && rel[e] == #[trigger] rel0[e0]
}

/// Some pairing of scan `o` with scan `base` is the twelfth to give its offset,
/// and `o` moved by that offset would leave the range within 2^30 of the origin.
pub open spec fn placement_out_of_range(o: Seq<Point>, base: Seq<Point>) -> bool {
    exists|n: int, i: int|
        0 <= n < o.len() * base.len() && #[trigger] hits(o, base, n) && 0 <= i < o.len() && !shift_near(
            #[trigger] o[i],
            pair_offset(o, base, n),
        )
}

/// Every point of `points` moved by `offset` stays near the origin.
fn shift_stays_near(points: &Vec<Point>, offset: &Point) -> (r: bool)
    ensures
        r == forall|i: int| 0 <= i < points@.len() ==> shift_near(#[trigger] points@[i], *offset),
        r ==> forall|i: int| 0 <= i < points@.len() ==> near(shifted(#[trigger] points@[i], *offset)),
        r ==> forall|i: int| 0 <= i < points@.len() ==> {
            let p = #[trigger] points@[i];
            fits_i32(p.x + offset.x) && fits_i32(p.y + offset.y) && fits_i32(p.z + offset.z)
        },
{
    let mut i: usize = 0;
    while i < points.len()
        invariant
            i <= points@.len(),
            forall|j: int| 0 <= j < i ==> shift_near(#[trigger] points@[j], *offset),
            forall|j: int| 0 <= j < i ==> near(shifted(#[trigger] points@[j], *offset)),
            forall|j: int| 0 <= j < i ==> {
                let p = #[trigger] points@[j];
                fits_i32(p.x + offset.x) && fits_i32(p.y + offset.y) && fits_i32(p.z + offset.z)
            },
        decreases points@.len() - i,
    {
        let p = points[i];
        let x = p.x as i64 + offset.x as i64;
        let y = p.y as i64 + offset.y as i64;
        let z = p.z as i64 + offset.z as i64;
        if !(-0x4000_0000 < x && x < 0x4000_0000 && -0x4000_0000 < y && y < 0x4000_0000 && -0x4000_0000 < z && z
            < 0x4000_0000) {
            return false;
        }
        i = i + 1;
    }
    true
}

/// Tries each scanner of `rel` against the placed scan `base`: the first
/// orientation that overlaps it is placed. Returns the placed scans and, for each
/// scanner, whether it was placed; `None` where a placed scan would leave the
/// range within 2^30 of the origin.
fn position_against(
    rel: &Vec<(usize, Vec<Scan>)>,
    base: &Scan,
    positioned: &mut Vec<(Point, Scan)>,
    placed: &mut Vec<bool>,
) -> (r: (bool, Ghost<Seq<(int, int)>>))
    requires
        rel_near(rel@),
        all_near(base.points@),
        old(positioned)@.len() == 0,
        old(placed)@.len() == 0,
    ensures
        r.0 ==> final(placed)@.len() == rel@.len(),
        r.0 ==> (final(positioned)@.len() == 0) == (forall|f: int| 0 <= f < rel@.len() ==> !#[trigger] final(placed)@[f]),
        r.0 ==> forall|m: int| 0 <= m < final(positioned)@.len() ==> all_near((#[trigger] final(positioned)@[m]).1.points@),
        r.0 ==> r.1@.len() == final(positioned)@.len(),
        r.0 ==> forall|m: int|
            0 <= m < final(positioned)@.len() ==> 0 <= (#[trigger] r.1@[m]).0 < rel@.len() && 0 <= r.1@[m].1 < rel@[r.1@[m].0].1@.len()
                && placed_by(final(positioned)@[m], rel@[r.1@[m].0].1@[r.1@[m].1], *base),
        r.0 ==> forall|f: int|
            0 <= f < rel@.len() && !(#[trigger] final(placed)@[f]) ==> forall|k: int|
                0 <= k < rel@[f].1@.len() ==> overlap_free(#[trigger] rel@[f].1@[k].points@, base.points@),
        !r.0 ==> exists|f: int, k: int|
            0 <= f < rel@.len() && 0 <= k < rel@[f].1@.len() && #[trigger] placement_out_of_range(
                rel@[f].1@[k].points@,
                base.points@,
            ),
{
    let ghost mut origins: Seq<(int, int)> = Seq::empty();
    let mut e: usize = 0;
    while e < rel.len()
        invariant
            rel_near(rel@),
            all_near(base.points@),
            e <= rel@.len(),
            placed@.len() == e,
            origins.len() == positioned@.len(),
            (positioned@.len() == 0) == (forall|f: int| 0 <= f < e ==> !#[trigger] placed@[f]),
            forall|m: int| 0 <= m < positioned@.len() ==> all_near((#[trigger] positioned@[m]).1.points@),
            forall|m: int|
                0 <= m < positioned@.len() ==> 0 <= (#[trigger] origins[m]).0 < rel@.len() && 0 <= origins[m].1 < rel@[origins[m].0].1@.len()
                    && placed_by(positioned@[m], rel@[origins[m].0].1@[origins[m].1], *base),
            forall|f: int| 0 <= f < e && !(#[trigger] placed@[f]) ==> forall|j: int|
                0 <= j < rel@[f].1@.len() ==> overlap_free(#[trigger] rel@[f].1@[j].points@, base.points@),
        decreases rel@.len() - e,
    {
        let scans = &rel[e].1;
        let mut j: usize = 0;
        let mut found = false;
        let ghost before = positioned@;
        let ghost before_origins = origins;
        while j < scans.len() && !found
            invariant
                rel_near(rel@),
                all_near(base.points@),
                e < rel@.len(),
                *scans == rel@[e as int].1,
                j <= scans@.len(),
                found ==> 1 <= j,
                found ==> positioned@ == before.push(positioned@[before.len() as int]),
                found ==> origins == before_origins.push((e as int, j - 1)),
                !found ==> positioned@ == before && origins == before_origins,
                found ==> placed_by(positioned@[before.len() as int], rel@[e as int].1@[j - 1], *base),
                found ==> all_near(positioned@[before.len() as int].1.points@),
                !found ==> forall|j2: int| 0 <= j2 < j ==> overlap_free(#[trigger] rel@[e as int].1@[j2].points@, base.points@),
            decreases scans@.len() - j,
        {
            let o = &scans[j];
            proof {
                assert(all_near(rel@[e as int].1@[j as int].points@));
            }
            match o.overlaps(base) {
                Some(offset) => {
                    if !shift_stays_near(&o.points, &offset) {
                        proof {
                            let n = choose|n: int|
                                0 <= n < o.points@.len() * base.points@.len() && #[trigger] hits(o.points@, base.points@, n)
                                    && pair_offset(o.points@, base.points@, n) == offset && forall|m: int|
                                    0 <= m < n ==> !#[trigger] hits(o.points@, base.points@, m);
                            let i = choose|i: int| 0 <= i < o.points@.len() && !shift_near(#[trigger] o.points@[i], offset);
                            assert(placement_out_of_range(o.points@, base.points@));
                            assert(rel@[e as int].1@[j as int] == *o);
                        }
                        return (false, Ghost(origins));
                    }
                    let moved = o.translate(&offset);
                    positioned.push((offset, moved));
                    proof {
                        origins = origins.push((e as int, j as int));
                        assert forall|i: int| 0 <= i < moved.points@.len() implies near(#[trigger] moved.points@[i]) by {
                            assert(near(shifted(o.points@[i], offset)));
                        }
                    }
                    found = true;
                },
                None => {},
            }
            j = j + 1;
        }
        let ghost old_placed = placed@;
        placed.push(found);
        proof {
            assert forall|m: int| 0 <= m < positioned@.len() implies 0 <= (#[trigger] origins[m]).0 < rel@.len() && 0
                <= origins[m].1 < rel@[origins[m].0].1@.len() && placed_by(
                positioned@[m],
                rel@[origins[m].0].1@[origins[m].1],
                *base,
            ) by {
                if m < before.len() {
                    assert(positioned@[m] == before[m]);
                    assert(origins[m] == before_origins[m]);
                }
            }
            assert forall|m: int| 0 <= m < positioned@.len() implies all_near((#[trigger] positioned@[m]).1.points@) by {
                if m < before.len() {
                    assert(positioned@[m] == before[m]);
                }
            }
            assert forall|f: int| 0 <= f < e + 1 && !(#[trigger] placed@[f]) implies forall|j2: int|
                0 <= j2 < rel@[f].1@.len() ==> overlap_free(#[trigger] rel@[f].1@[j2].points@, base.points@) by {
                if f < e {
                    assert(placed@[f] == old_placed[f]);
                }
            }
            if found {
                assert(placed@[e as int]);
                assert(positioned@.len() != 0);
            } else {
                assert((forall|f: int| 0 <= f < e + 1 ==> !#[trigger] placed@[f]) == (forall|f: int|
                    0 <= f < e ==> !#[trigger] old_placed[f])) by {
                    if forall|f: int| 0 <= f < e ==> !#[trigger] old_placed[f] {
                        assert forall|f: int| 0 <= f < e + 1 implies !#[trigger] placed@[f] by {
                            if f < e {
                                assert(placed@[f] == old_placed[f]);
                            }
                        }
                    }
                    if forall|f: int| 0 <= f < e + 1 ==> !#[trigger] placed@[f] {
                        assert forall|f: int| 0 <= f < e implies !#[trigger] old_placed[f] by {
                            assert(placed@[f] == old_placed[f]);
                        }
                    }
                }
            }
        }
        e = e + 1;
    }
    (true, Ghost(origins))
}

/// Scans placed in one frame: each with the position of its scanner.
pub struct OceanMapper {
    pub absolute_scans: Vec<(Point, Scan)>,
    /// For each scanner not yet placed, its scan in every orientation.
    pub relative_scans_by_id: Vec<(usize, Vec<Scan>)>,
    pub unprocessed_absolute_scan_index_queue: Vec<usize>,
}

/// The beacons that the placed scans report.
pub open spec fn placed_points(abs: Seq<(Point, Scan)>) -> Set<Point> {
    Set::new(
        |p: Point|
            exists|k: int, i: int|
                0 <= k < abs.len() && 0 <= i < abs[k].1.points@.len() && #[trigger] abs[k].1.points@[i] == p,
    )
}

/// The beacons of the first `k` placed scans and the first `i` of scan `k`.
pub open spec fn placed_points_before(abs: Seq<(Point, Scan)>, k: int, i: int) -> Set<Point> {
    Set::new(
        |p: Point|
            exists|k2: int, i2: int|
                0 <= k2 < abs.len() && 0 <= i2 < abs[k2].1.points@.len() && (k2 < k || (k2 == k && i2 < i))
                    && #[trigger] abs[k2].1.points@[i2] == p,
    )
}

fn holds_point(points: &Vec<Point>, p: &Point) -> (r: bool)
    ensures
        r == points@.contains(*p),
{
    let mut i: usize = 0;
    while i < points.len()
        invariant
            i <= points@.len(),
            forall|j: int| 0 <= j < i ==> points@[j] != *p,
        decreases points@.len() - i,
    {
        if points[i] == *p {
            return true;
        }
        i = i + 1;
    }
    false
}

impl OceanMapper {
    /// Scanner 0 placed at the origin and queued; the others in every orientation, not yet placed.
    pub fn from_scans(scanner_0_scan: Scan, relative_scans_by_id: Vec<(usize, Vec<Scan>)>) -> (r: OceanMapper)
        ensures
            r.absolute_scans@.len() == 1,
            r.absolute_scans@[0].0 == (Point { x: 0, y: 0, z: 0 }),
            r.absolute_scans@[0].1 == scanner_0_scan,
            r.relative_scans_by_id == relative_scans_by_id,
            r.unprocessed_absolute_scan_index_queue@ == seq![0usize],
    {
        let absolute_scans = vec![(Point::origin(), scanner_0_scan)];
        let unprocessed_absolute_scan_index_queue = vec![0];
        OceanMapper { absolute_scans, relative_scans_by_id, unprocessed_absolute_scan_index_queue }
    }

    /// Places scanners until no queued placed scan is left: each placed scan
    /// taken from the queue is tried against every scanner not yet placed (see
    /// `Scan::overlaps`), and each scanner that overlaps it is placed by the
    /// offset found and queued in turn. Returns `false`, stopping early, where a
    /// placed scan would leave the range within 2^30 of the origin.
    pub fn triangulate_scanners(&mut self) -> (r: bool)
        requires
            abs_near(old(self).absolute_scans@),
            rel_near(old(self).relative_scans_by_id@),
            old(self).unprocessed_absolute_scan_index_queue@.no_duplicates(),
            forall|i: int| 0 <= i < old(self).unprocessed_absolute_scan_index_queue@.len() ==> #[trigger] old(self).unprocessed_absolute_scan_index_queue@[i] < old(self).absolute_scans@.len(),
            forall|k: usize| k < old(self).absolute_scans@.len() ==> old(self).unprocessed_absolute_scan_index_queue@.contains(k),
        ensures
            final(self).absolute_scans@.len() >= old(self).absolute_scans@.len(),
            forall|k: int| 0 <= k < old(self).absolute_scans@.len() ==> #[trigger] final(self).absolute_scans@[k] == old(self).absolute_scans@[k],
            forall|k: int|
                old(self).absolute_scans@.len() <= k < final(self).absolute_scans@.len() ==> #[trigger] justified(
                    final(self).absolute_scans@,
                    k,
                    old(self).relative_scans_by_id@,
                ),
            forall|e: int|
                0 <= e < final(self).relative_scans_by_id@.len() ==> #[trigger] kept_from(
                    final(self).relative_scans_by_id@,
                    old(self).relative_scans_by_id@,
                    e,
                ),
            r ==> final(self).unprocessed_absolute_scan_index_queue@.len() == 0,
            r ==> forall|k: int| 0 <= k < final(self).absolute_scans@.len() ==> clear_of(
                final(self).relative_scans_by_id@,
                (#[trigger] final(self).absolute_scans@[k]).1.points@,
            ),
            !r ==> exists|k: int, e: int, j: int|
                0 <= k < final(self).absolute_scans@.len() && 0 <= e < old(self).relative_scans_by_id@.len() && 0 <= j
                    < old(self).relative_scans_by_id@[e].1@.len() && #[trigger] placement_out_of_range(
                    old(self).relative_scans_by_id@[e].1@[j].points@,
                    final(self).absolute_scans@[k].1.points@,
                ),
    {
        let ghost abs0 = self.absolute_scans@;
        let ghost rel0 = self.relative_scans_by_id@;
        let ghost mut idx_map: Seq<int> = Seq::new(rel0.len(), |e: int| e);
        let ghost mut just: Seq<(int, int, int)> = Seq::empty();
        while self.unprocessed_absolute_scan_index_queue.len() > 0
            invariant
                abs0 == old(self).absolute_scans@,
                rel0 == old(self).relative_scans_by_id@,
                self.absolute_scans@.len() >= abs0.len(),
                forall|k: int| 0 <= k < abs0.len() ==> #[trigger] self.absolute_scans@[k] == abs0[k],
                abs_near(self.absolute_scans@),
                rel_near(self.relative_scans_by_id@),
                self.unprocessed_absolute_scan_index_queue@.no_duplicates(),
                forall|i: int| 0 <= i < self.unprocessed_absolute_scan_index_queue@.len() ==> #[trigger] self.unprocessed_absolute_scan_index_queue@[i] < self.absolute_scans@.len(),
                forall|k: int| 0 <= k < self.absolute_scans@.len() && !self.unprocessed_absolute_scan_index_queue@.contains(k as usize) ==> clear_of(
                    self.relative_scans_by_id@,
                    (#[trigger] self.absolute_scans@[k]).1.points@,
                ),
                idx_map.len() == self.relative_scans_by_id@.len(),
                forall|e: int| 0 <= e < idx_map.len() ==> 0 <= #[trigger] idx_map[e] < rel0.len() && self.relative_scans_by_id@[e] == rel0[idx_map[e]],
                just.len() == self.absolute_scans@.len() - abs0.len(),
                forall|k: int|
                    abs0.len() <= k < self.absolute_scans@.len() ==> {
                        let w = #[trigger] just[k - abs0.len()];
                        &&& 0 <= w.0 < rel0.len()
                        &&& 0 <= w.1 < rel0[w.0].1@.len()
                        &&& 0 <= w.2 < k
                        &&& placed_by(self.absolute_scans@[k], rel0[w.0].1@[w.1], self.absolute_scans@[w.2].1)
                    },
            decreases self.relative_scans_by_id@.len(), self.unprocessed_absolute_scan_index_queue@.len(),
        {
            let ghost queue0 = self.unprocessed_absolute_scan_index_queue@;
            let q = self.unprocessed_absolute_scan_index_queue.pop().unwrap();
            let ghost queue1 = self.unprocessed_absolute_scan_index_queue@;
            proof {
                assert(queue0 =~= queue1.push(q));
            }
            let ghost abs1 = self.absolute_scans@;
            let abs_len = self.absolute_scans.len();
            let ghost rel1 = self.relative_scans_by_id@;
            let ghost map1 = idx_map;
            let mut positioned: Vec<(Point, Scan)> = Vec::new();
            let mut placed: Vec<bool> = Vec::new();
            proof {
                assert(q < abs1.len());
                assert(all_near(abs1[q as int].1.points@));
            }
            let (ok, Ghost(origins)) = position_against(
                &self.relative_scans_by_id,
                &self.absolute_scans[q].1,
                &mut positioned,
                &mut placed,
            );
            if !ok {
                proof {
                    let (f, j) = choose|f: int, j: int|
                        0 <= f < rel1.len() && 0 <= j < rel1[f].1@.len() && #[trigger] placement_out_of_range(
                            rel1[f].1@[j].points@,
                            abs1[q as int].1.points@,
                        );
                    assert(rel1[f] == rel0[idx_map[f]]);
                    assert(placement_out_of_range(rel0[idx_map[f]].1@[j].points@, self.absolute_scans@[q as int].1.points@));
                    assert forall|k: int| abs0.len() <= k < self.absolute_scans@.len() implies #[trigger] justified(
                        self.absolute_scans@,
                        k,
                        rel0,
                    ) by {
                        let w = just[k - abs0.len()];
                        assert(placed_by(self.absolute_scans@[k], rel0[w.0].1@[w.1], self.absolute_scans@[w.2].1));
                    }
                    assert forall|e: int| 0 <= e < self.relative_scans_by_id@.len() implies #[trigger] kept_from(
                        self.relative_scans_by_id@,
                        rel0,
                        e,
                    ) by {
                        assert(self.relative_scans_by_id@[e] == rel0[idx_map[e]]);
                    }
                }
                return false;
            }
            // Keep the scanners that were not placed.
            let mut old_rel: Vec<(usize, Vec<Scan>)> = Vec::new();
            std::mem::swap(&mut old_rel, &mut self.relative_scans_by_id);
            let ghost mut new_map: Seq<int> = Seq::empty();
            let mut idx: usize = 0;
            let n = placed.len();
            while idx < n
                invariant
                    n == placed@.len(),
                    n == rel1.len(),
                    self.absolute_scans@ == abs1,
                    self.unprocessed_absolute_scan_index_queue@ == queue1,
                    idx <= n,
                    old_rel@ == rel1.subrange(idx as int, n as int),
                    new_map.len() == self.relative_scans_by_id@.len(),
                    forall|e: int| 0 <= e < new_map.len() ==> 0 <= #[trigger] new_map[e] < idx && !placed@[new_map[e]] && self.relative_scans_by_id@[e] == rel1[new_map[e]],
                    forall|e1: int, e2: int| 0 <= e1 < e2 < new_map.len() ==> #[trigger] new_map[e1] < #[trigger] new_map[e2],
                    self.relative_scans_by_id@.len() <= idx,
                    (exists|f: int| 0 <= f < idx && #[trigger] placed@[f]) ==> self.relative_scans_by_id@.len() < idx,
                    (forall|f: int| 0 <= f < idx ==> !#[trigger] placed@[f]) ==> self.relative_scans_by_id@.len() == idx,
                decreases n - idx,
            {
                let entry = old_rel.remove(0);
                let ghost before = self.relative_scans_by_id@;
                proof {
                    assert(entry == rel1[idx as int]);
                    assert(old_rel@ =~= rel1.subrange(idx + 1, n as int));
                }
                if !placed[idx] {
                    self.relative_scans_by_id.push(entry);
                    proof {
                        new_map = new_map.push(idx as int);
                    }
                }
                proof {
                    assert forall|e: int| 0 <= e < new_map.len() implies 0 <= #[trigger] new_map[e] < idx + 1 && !placed@[new_map[e]] && self.relative_scans_by_id@[e] == rel1[new_map[e]] by {
                        if e < before.len() {
                            assert(self.relative_scans_by_id@[e] == before[e]);
                        }
                    }
                    if exists|f: int| 0 <= f < idx + 1 && #[trigger] placed@[f] {
                        if !(exists|f: int| 0 <= f < idx && #[trigger] placed@[f]) {
                            assert(placed@[idx as int]);
                        }
                    }
                    if forall|f: int| 0 <= f < idx + 1 ==> !#[trigger] placed@[f] {
                        assert(forall|f: int| 0 <= f < idx ==> !#[trigger] placed@[f]);
                        assert(!placed@[idx as int]);
                    }
                }
                idx = idx + 1;
            }
            proof {
                // Each kept scanner is one of those given at the start.
                idx_map = Seq::new(new_map.len(), |e: int| map1[new_map[e]]);
                if positioned@.len() > 0 {
                    assert(!(forall|f: int| 0 <= f < rel1.len() ==> !#[trigger] placed@[f]));
                    let f = choose|f: int| 0 <= f < rel1.len() && placed@[f];
                    assert(placed@[f]);
                }
            }
            let ghost rel2 = self.relative_scans_by_id@;
            proof {
                assert forall|k: int| 0 <= k < abs1.len() && !queue1.contains(k as usize) implies clear_of(
                    rel2,
                    (#[trigger] abs1[k]).1.points@,
                ) by {
                    if k != q {
                        assert(abs1.len() == abs_len);
                        assert((k as usize) as int == k);
                        assert(!queue0.contains(k as usize)) by {
                            if queue0.contains(k as usize) {
                                let i = choose|i: int| 0 <= i < queue0.len() && queue0[i] == k as usize;
                                assert(queue0 == queue1.push(q));
                                if i < queue1.len() {
                                    assert(queue0[i] == queue1[i]);
                                    assert(queue1.contains(k as usize));
                                } else {
                                    assert(queue0[i] == q);
                                }
                            }
                        }
                        assert(clear_of(rel1, abs1[k].1.points@));
                    }
                    assert forall|e: int, j: int| 0 <= e < rel2.len() && 0 <= j < rel2[e].1@.len() implies overlap_free(
                        #[trigger] rel2[e].1@[j].points@,
                        abs1[k].1.points@,
                    ) by {
                        let e1 = new_map[e];
                        assert(rel2[e] == rel1[e1]);
                        assert(rel2[e].1@[j] == rel1[e1].1@[j]);
                        if k == q {
                            assert(!placed@[e1]);
                        } else {
                            assert(overlap_free(rel1[e1].1@[j].points@, abs1[k].1.points@));
                        }
                    }
                }
            }
            proof {
                assert forall|e: int, j: int| 0 <= e < rel2.len() && 0 <= j < rel2[e].1@.len() implies all_near(
                    #[trigger] rel2[e].1@[j].points@,
                ) by {
                    assert(rel2[e] == rel1[new_map[e]]);
                }
                assert forall|e: int| 0 <= e < idx_map.len() implies 0 <= #[trigger] idx_map[e] < rel0.len() && rel2[e]
                    == rel0[idx_map[e]] by {
                    assert(rel2[e] == rel1[new_map[e]]);
                    assert(rel1[new_map[e]] == rel0[map1[new_map[e]]]);
                }
            }
            // Place and queue the scanners just positioned.
            let ghost all_pos = positioned@;
            let ghost just1 = just;
            while positioned.len() > 0
                invariant
                    abs0 == old(self).absolute_scans@,
                    rel0 == old(self).relative_scans_by_id@,
                    abs1.len() >= abs0.len(),
                    forall|k: int| 0 <= k < abs0.len() ==> #[trigger] abs1[k] == abs0[k],
                    abs_near(abs1),
                    q < abs1.len(),
                    !queue1.contains(q),
                    queue1.no_duplicates(),
                    forall|i: int| 0 <= i < queue1.len() ==> #[trigger] queue1[i] < abs1.len(),
                    forall|k: int| 0 <= k < abs1.len() && !queue1.contains(k as usize) ==> clear_of(
                        rel2,
                        (#[trigger] abs1[k]).1.points@,
                    ),
                    rel2 == self.relative_scans_by_id@,
                    positioned@ == all_pos.subrange(0, positioned@.len() as int),
                    positioned@.len() <= all_pos.len(),
                    origins.len() == all_pos.len(),
                    forall|m: int| 0 <= m < all_pos.len() ==> all_near((#[trigger] all_pos[m]).1.points@),
                    forall|m: int|
                        0 <= m < all_pos.len() ==> 0 <= (#[trigger] origins[m]).0 < rel1.len() && 0 <= origins[m].1 < rel1[origins[m].0].1@.len()
                            && placed_by(all_pos[m], rel1[origins[m].0].1@[origins[m].1], abs1[q as int].1),
                    map1.len() == rel1.len(),
                    forall|e: int| 0 <= e < map1.len() ==> 0 <= #[trigger] map1[e] < rel0.len() && rel1[e] == rel0[map1[e]],
                    just1.len() == abs1.len() - abs0.len(),
                    forall|k: int|
                        abs0.len() <= k < abs1.len() ==> {
                            let w = #[trigger] just1[k - abs0.len()];
                            &&& 0 <= w.0 < rel0.len()
                            &&& 0 <= w.1 < rel0[w.0].1@.len()
                            &&& 0 <= w.2 < k
                            &&& placed_by(abs1[k], rel0[w.0].1@[w.1], abs1[w.2].1)
                        },
                    self.absolute_scans@.len() == abs1.len() + (all_pos.len() - positioned@.len()),
                    forall|k: int| 0 <= k < abs1.len() ==> #[trigger] self.absolute_scans@[k] == abs1[k],
                    forall|i: int|
                        0 <= i < all_pos.len() - positioned@.len() ==> #[trigger] self.absolute_scans@[abs1.len() + i] == all_pos[all_pos.len() - 1 - i],
                    self.unprocessed_absolute_scan_index_queue@.len() == queue1.len() + (all_pos.len() - positioned@.len()),
                    forall|i: int| 0 <= i < queue1.len() ==> #[trigger] self.unprocessed_absolute_scan_index_queue@[i] == queue1[i],
                    forall|i: int|
                        0 <= i < all_pos.len() - positioned@.len() ==> #[trigger] self.unprocessed_absolute_scan_index_queue@[queue1.len() + i] == abs1.len() + i,
                    just.len() == just1.len() + (all_pos.len() - positioned@.len()),
                    forall|k: int| 0 <= k < just1.len() ==> #[trigger] just[k] == just1[k],
                    forall|i: int|
                        0 <= i < all_pos.len() - positioned@.len() ==> #[trigger] just[just1.len() + i] == (
                            map1[origins[all_pos.len() - 1 - i].0],
                            origins[all_pos.len() - 1 - i].1,
                            q as int,
                        ),
                decreases positioned@.len(),
            {
                let ps = positioned.pop().unwrap();
                let ghost m = positioned@.len() as int;
                proof {
                    assert(ps == all_pos[m]);
                    just = just.push((map1[origins[m].0], origins[m].1, q as int));
                }
                self.absolute_scans.push(ps);
                self.unprocessed_absolute_scan_index_queue.push(self.absolute_scans.len() - 1);
                proof {
                    assert(positioned@ =~= all_pos.subrange(0, positioned@.len() as int));
                }
            }
            proof {
                let abs2 = self.absolute_scans@;
                let queue2 = self.unprocessed_absolute_scan_index_queue@;
                let t = all_pos.len() as int;
                assert forall|k: int| 0 <= k < abs2.len() implies all_near((#[trigger] abs2[k]).1.points@) by {
                    if k >= abs1.len() {
                        assert(abs2[abs1.len() + (k - abs1.len())] == all_pos[t - 1 - (k - abs1.len())]);
                    } else {
                        assert(abs2[k] == abs1[k]);
                    }
                }
                assert forall|i: int| 0 <= i < queue2.len() implies #[trigger] queue2[i] < abs2.len() by {
                    if i >= queue1.len() {
                        assert(queue2[queue1.len() + (i - queue1.len())] == abs1.len() + (i - queue1.len()));
                    } else {
                        assert(queue2[i] == queue1[i]);
                    }
                }
                assert(queue2.no_duplicates()) by {
                    assert forall|i: int, j: int| 0 <= i < queue2.len() && 0 <= j < queue2.len() && i != j implies queue2[i] != queue2[j] by {
                        if i < queue1.len() && j < queue1.len() {
                            assert(queue2[i] == queue1[i] && queue2[j] == queue1[j]);
                        } else if i < queue1.len() {
                            assert(queue2[i] == queue1[i]);
                            assert(queue2[queue1.len() + (j - queue1.len())] == abs1.len() + (j - queue1.len()));
                        } else if j < queue1.len() {
                            assert(queue2[j] == queue1[j]);
                            assert(queue2[queue1.len() + (i - queue1.len())] == abs1.len() + (i - queue1.len()));
                        } else {
                            assert(queue2[queue1.len() + (i - queue1.len())] == abs1.len() + (i - queue1.len()));
                            assert(queue2[queue1.len() + (j - queue1.len())] == abs1.len() + (j - queue1.len()));
                        }
                    }
                }
                assert forall|k: int| 0 <= k < abs2.len() && !queue2.contains(k as usize) implies clear_of(
                    rel2,
                    (#[trigger] abs2[k]).1.points@,
                ) by {
                    if k >= abs1.len() {
                        let i = k - abs1.len();
                        assert(queue2[queue1.len() + i] == abs1.len() + i);
                        assert(queue2.contains(k as usize));
                    } else {
                        assert(abs2[k] == abs1[k]);
                        if queue1.contains(k as usize) {
                            let i = choose|i: int| 0 <= i < queue1.len() && queue1[i] == k as usize;
                            assert(queue2[i] == queue1[i]);
                        }
                    }
                }
                assert forall|k: int| 0 <= k < abs0.len() implies #[trigger] abs2[k] == abs0[k] by {
                    assert(abs2[k] == abs1[k]);
                }
                assert forall|k: int| abs0.len() <= k < abs2.len() implies {
                    let w = #[trigger] just[k - abs0.len()];
                    &&& 0 <= w.0 < rel0.len()
                    &&& 0 <= w.1 < rel0[w.0].1@.len()
                    &&& 0 <= w.2 < k
                    &&& placed_by(abs2[k], rel0[w.0].1@[w.1], abs2[w.2].1)
                } by {
                    if k < abs1.len() {
                        assert(abs2[k] == abs1[k]);
                        assert(just[k - abs0.len()] == just1[k - abs0.len()]);
                        let w = just1[k - abs0.len()];
                        assert(abs2[w.2] == abs1[w.2]);
                    } else {
                        let i = k - abs1.len();
                        let m = t - 1 - i;
                        assert(abs2[abs1.len() + i] == all_pos[m]);
                        assert(just[just1.len() + i] == (map1[origins[m].0], origins[m].1, q as int));
                        assert(abs2[q as int] == abs1[q as int]);
                        assert(rel1[origins[m].0] == rel0[map1[origins[m].0]]);
                    }
                }
            }
        }
        proof {
            assert forall|k: int| abs0.len() <= k < self.absolute_scans@.len() implies #[trigger] justified(
                self.absolute_scans@,
                k,
                rel0,
            ) by {
                let w = just[k - abs0.len()];
                assert(placed_by(self.absolute_scans@[k], rel0[w.0].1@[w.1], self.absolute_scans@[w.2].1));
            }
            assert forall|e: int| 0 <= e < self.relative_scans_by_id@.len() implies #[trigger] kept_from(
                self.relative_scans_by_id@,
                rel0,
                e,
            ) by {
                assert(self.relative_scans_by_id@[e] == rel0[idx_map[e]]);
            }
            assert forall|k: int| 0 <= k < self.absolute_scans@.len() implies clear_of(
                self.relative_scans_by_id@,
                (#[trigger] self.absolute_scans@[k]).1.points@,
            ) by {
                assert(!self.unprocessed_absolute_scan_index_queue@.contains(k as usize));
            }
        }
        true
    }

    /// How many distinct beacons the placed scans report.
    pub fn count_distinct_points(&self) -> (r: usize)
        ensures
            r == placed_points(self.absolute_scans@).len(),
    {
        let ghost abs = self.absolute_scans@;
        let mut distinct: Vec<Point> = Vec::new();
        let mut k: usize = 0;
        proof {
            assert(distinct@.to_set() =~= placed_points_before(abs, 0, 0));
        }
        while k < self.absolute_scans.len()
            invariant
                abs == self.absolute_scans@,
                k <= abs.len(),
                distinct@.no_duplicates(),
                distinct@.to_set() == placed_points_before(abs, k as int, 0),
            decreases abs.len() - k,
        {
            let points = &self.absolute_scans[k].1.points;
            let mut i: usize = 0;
            while i < points.len()
                invariant
                    abs == self.absolute_scans@,
                    k < abs.len(),
                    *points == abs[k as int].1.points,
                    i <= points@.len(),
                    distinct@.no_duplicates(),
                    distinct@.to_set() == placed_points_before(abs, k as int, i as int),
                decreases points@.len() - i,
            {
                let p = points[i];
                let ghost before = distinct@;
                if !holds_point(&distinct, &p) {
                    distinct.push(p);
                }
                proof {
                    assert(distinct@.contains(p)) by {
                        if distinct@ != before {
                            assert(distinct@[before.len() as int] == p);
                        }
                    }
                    assert forall|q: Point| before.contains(q) implies #[trigger] distinct@.contains(q) by {
                        let j = choose|j: int| 0 <= j < before.len() && before[j] == q;
                        assert(distinct@[j] == q);
                    }
                    assert forall|q: Point| #[trigger] distinct@.contains(q) implies before.contains(q) || q == p by {
                        let j = choose|j: int| 0 <= j < distinct@.len() && distinct@[j] == q;
                        if j < before.len() {
                            assert(before[j] == q);
                        }
                    }
                    assert(abs[k as int].1.points@[i as int] == p);
                    assert(distinct@.to_set() =~= placed_points_before(abs, k as int, i + 1)) by {
                        assert forall|q: Point| placed_points_before(abs, k as int, i + 1).contains(q) implies #[trigger] distinct@.to_set().contains(q) by {
                            if q != p {
                                let (k2, i2) = choose|k2: int, i2: int|
                                    0 <= k2 < abs.len() && 0 <= i2 < abs[k2].1.points@.len() && (k2 < k || (k2 == k && i2 < i + 1))
                                        && #[trigger] abs[k2].1.points@[i2] == q;
                                assert(placed_points_before(abs, k as int, i as int).contains(q));
                                assert(before.to_set().contains(q));
                                assert(distinct@.contains(q));
                            }
                        }
                        assert forall|q: Point| #[trigger] distinct@.to_set().contains(q) implies placed_points_before(abs, k as int, i + 1).contains(q) by {
                            if q != p {
                                assert(placed_points_before(abs, k as int, i as int).contains(q));
                                let (k2, i2) = choose|k2: int, i2: int|
                                    0 <= k2 < abs.len() && 0 <= i2 < abs[k2].1.points@.len() && (k2 < k || (k2 == k && i2 < i))
                                        && #[trigger] abs[k2].1.points@[i2] == q;
                                assert(abs[k2].1.points@[i2] == q);
                            } else {
                                assert(abs[k as int].1.points@[i as int] == q);
                            }
                        }
                    }
                }
                i = i + 1;
            }
            proof {
                assert(placed_points_before(abs, k as int, points@.len() as int) =~= placed_points_before(abs, k + 1, 0)) by {
                    assert forall|q: Point| #[trigger] placed_points_before(abs, k + 1, 0).contains(q) implies placed_points_before(abs, k as int, points@.len() as int).contains(q) by {
                        let (k2, i2) = choose|k2: int, i2: int|
                            0 <= k2 < abs.len() && 0 <= i2 < abs[k2].1.points@.len() && (k2 < k + 1 || (k2 == k + 1 && i2 < 0))
                                && #[trigger] abs[k2].1.points@[i2] == q;
                        assert(abs[k2].1.points@[i2] == q);
                    }
                    assert forall|q: Point| #[trigger] placed_points_before(abs, k as int, points@.len() as int).contains(q) implies placed_points_before(abs, k + 1, 0).contains(q) by {
                        let (k2, i2) = choose|k2: int, i2: int|
                            0 <= k2 < abs.len() && 0 <= i2 < abs[k2].1.points@.len() && (k2 < k || (k2 == k && i2 < points@.len()))
                                && #[trigger] abs[k2].1.points@[i2] == q;
                        assert(abs[k2].1.points@[i2] == q);
                    }
                }
            }
            k = k + 1;
        }
        proof {
            assert(placed_points_before(abs, abs.len() as int, 0) =~= placed_points(abs)) by {
                assert forall|q: Point| #[trigger] placed_points(abs).contains(q) implies placed_points_before(abs, abs.len() as int, 0).contains(q) by {
                    let (k2, i2) = choose|k2: int, i2: int|
                        0 <= k2 < abs.len() && 0 <= i2 < abs[k2].1.points@.len() && #[trigger] abs[k2].1.points@[i2] == q;
                    assert(abs[k2].1.points@[i2] == q);
                }
                assert forall|q: Point| #[trigger] placed_points_before(abs, abs.len() as int, 0).contains(q) implies placed_points(abs).contains(q) by {
                    let (k2, i2) = choose|k2: int, i2: int|
                        0 <= k2 < abs.len() && 0 <= i2 < abs[k2].1.points@.len() && (k2 < abs.len() || (k2 == abs.len() && i2 < 0))
                            && #[trigger] abs[k2].1.points@[i2] == q;
                    assert(abs[k2].1.points@[i2] == q);
                }
            }
            distinct@.unique_seq_to_set();
        }
        distinct.len()
    }

    /// The largest Manhattan distance between two placed scanners; 0 when none are placed.
    pub fn max_distance_between_scanners(&self) -> (r: i32)
        requires
            forall|a: int, b: int|
                0 <= a < self.absolute_scans@.len() && 0 <= b < self.absolute_scans@.len() ==> manhattan(
                    #[trigger] self.absolute_scans@[a].0,
                    #[trigger] self.absolute_scans@[b].0,
                ) <= i32::MAX,
        ensures
            r >= 0,
            forall|a: int, b: int|
                0 <= a < self.absolute_scans@.len() && 0 <= b < self.absolute_scans@.len() ==> r >= manhattan(
                    #[trigger] self.absolute_scans@[a].0,
                    #[trigger] self.absolute_scans@[b].0,
                ),
            r == 0 || exists|a: int, b: int|
                0 <= a < self.absolute_scans@.len() && 0 <= b < self.absolute_scans@.len() && r == manhattan(
                    #[trigger] self.absolute_scans@[a].0,
                    #[trigger] self.absolute_scans@[b].0,
                ),
    {
        let ghost abs = self.absolute_scans@;
        let n = self.absolute_scans.len();
        let mut max_dist: i32 = 0;
        let mut a: usize = 0;
        while a < n
            invariant
                abs == self.absolute_scans@,
                n == abs.len(),
                a <= n,
                forall|a2: int, b2: int| 0 <= a2 < n && 0 <= b2 < n ==> manhattan(#[trigger] abs[a2].0, #[trigger] abs[b2].0) <= i32::MAX,
                max_dist >= 0,
                forall|a2: int, b2: int| 0 <= a2 < a && 0 <= b2 < n ==> max_dist >= manhattan(#[trigger] abs[a2].0, #[trigger] abs[b2].0),
                max_dist == 0 || exists|a2: int, b2: int| 0 <= a2 < n && 0 <= b2 < n && max_dist == manhattan(#[trigger] abs[a2].0, #[trigger] abs[b2].0),
            decreases n - a,
        {
            let mut b: usize = 0;
            while b < n
                invariant
                    abs == self.absolute_scans@,
                    n == abs.len(),
                    a < n,
                    b <= n,
                    forall|a2: int, b2: int| 0 <= a2 < n && 0 <= b2 < n ==> manhattan(#[trigger] abs[a2].0, #[trigger] abs[b2].0) <= i32::MAX,
                    max_dist >= 0,
                    forall|a2: int, b2: int|
                        0 <= b2 < n && (0 <= a2 < a || (a2 == a && b2 < b)) ==> max_dist >= manhattan(#[trigger] abs[a2].0, #[trigger] abs[b2].0),
                    max_dist == 0 || exists|a2: int, b2: int| 0 <= a2 < n && 0 <= b2 < n && max_dist == manhattan(#[trigger] abs[a2].0, #[trigger] abs[b2].0),
                decreases n - b,
            {
                let pos_a = self.absolute_scans[a].0;
                let pos_b = self.absolute_scans[b].0;
                proof {
                    assert(manhattan(abs[a as int].0, abs[b as int].0) <= i32::MAX);
                }
                let dist = pos_a.dist_to(&pos_b);
                if dist > max_dist {
                    max_dist = dist;
                }
                b = b + 1;
            }
            a = a + 1;
        }
        max_dist
    }
}

/// `--- scanner `, the text a scan starts with.
pub open spec fn header_prefix() -> Seq<u8> {
    seq![45u8, 45, 45, 32, 115, 99, 97, 110, 110, 101, 114, 32]
}

/// ` ---`, the text that ends a scan's first line.
pub open spec fn header_suffix() -> Seq<u8> {
    seq![32u8, 45, 45, 45]
}

/// The scanner number in the first line of `s[i..]`, `--- scanner <n> ---`, and
/// the position just past that line's text.
pub open spec fn scan_header(s: Seq<u8>, i: int) -> Option<(usize, int)> {
    if 0 <= i && i + 12 <= s.len() && s.subrange(i, i + 12) == header_prefix() {
        match scan_i32(s, (i + 12) as nat) {
            Some((v, j)) => if v >= 0 && j + 4 <= s.len() && s.subrange(j as int, j + 4int) == header_suffix() {
                Some((v as usize, j + 4int))
            } else {
                None
            },
            None => None,
        }
    } else {
        None
    }
}

/// A point `x,y,z` at `i` of `s`, and the position just past it.
pub open spec fn scan_point(s: Seq<u8>, i: int) -> Option<(Point, int)> {
    if i < 0 {
        None
    } else {
        match scan_i32(s, i as nat) {
            Some((x, j)) => if j < s.len() && s[j as int] == 44 {
                match scan_i32(s, j + 1) {
                    Some((y, k)) => if k < s.len() && s[k as int] == 44 {
                        match scan_i32(s, k + 1) {
                            Some((z, e)) => Some((Point { x, y, z }, e as int)),
                            None => None,
                        }
                    } else {
                        None
                    },
                    None => None,
                }
            } else {
                None
            },
            None => None,
        }
    }
}

/// The points on the lines of `s` from `i` to `end`, each line begun by a
/// newline; a last newline alone is allowed. At most `fuel` points are read.
pub open spec fn scan_points(s: Seq<u8>, i: int, end: int, fuel: nat) -> Option<Seq<Point>>
    decreases fuel,
{
    if i == end {
        Some(Seq::empty())
    } else if 0 <= i < end && end <= s.len() && s[i] == 10 {
        if i + 1 == end {
            Some(Seq::empty())
        } else if fuel == 0 {
            None
        } else {
            match scan_point(s.subrange(0, end), i + 1) {
                Some((p, e)) => match scan_points(s, e, end, (fuel - 1) as nat) {
                    Some(ps) => Some(seq![p] + ps),
                    None => None,
                },
                None => None,
            }
        }
    } else {
        None
    }
}

/// A scan written in `s[start..end]`: its header line, then one point per line.
pub open spec fn scan_scan(s: Seq<u8>, start: int, end: int) -> Option<(usize, Seq<Point>)> {
    match scan_header(s.subrange(0, end), start) {
        Some((id, e)) => match scan_points(s, e, end, (end - start) as nat) {
            Some(ps) => Some((id, ps)),
            None => None,
        },
        None => None,
    }
}

fn matches_at(s: &[u8], i: usize, lit: &[u8]) -> (r: bool)
    ensures
        r == (i + lit@.len() <= s@.len() && s@.subrange(i as int, i + lit@.len()) == lit@),
{
    let n = s.len();
    if i > n || n - i < lit.len() {
        return false;
    }
    let mut k: usize = 0;
    while k < lit.len()
        invariant
            n == s@.len(),
            i + lit@.len() <= s@.len(),
            k <= lit@.len(),
            forall|j: int| 0 <= j < k ==> s@[i + j] == lit@[j],
        decreases lit@.len() - k,
    {
        if s[i + k] != lit[k] {
            assert(s@.subrange(i as int, i + lit@.len())[k as int] != lit@[k as int]);
            return false;
        }
        k = k + 1;
    }
    assert(s@.subrange(i as int, i + lit@.len()) =~= lit@);
    true
}

/// Reads the scan in `s[start..end]`, as `scan_scan` says.
fn parse_scan_bytes(s: &[u8], start: usize, end: usize) -> (r: Option<Scan>)
    requires
        start <= end <= s@.len(),
    ensures
        r matches Some(sc) ==> scan_scan(s@, start as int, end as int) == Some((sc.scanner_id, sc.points@)),
        r is None ==> scan_scan(s@, start as int, end as int) is None,
{
    let prefix: [u8; 12] = [45, 45, 45, 32, 115, 99, 97, 110, 110, 101, 114, 32];
    let suffix: [u8; 4] = [32, 45, 45, 45];
    let ghost t = s@.subrange(0, end as int);
    let line = slice_to(s, end);
    assert(line@ == t);
    assert(prefix@ =~= header_prefix());
    assert(suffix@ =~= header_suffix());
    if !matches_at(line, start, &prefix) {
        return None;
    }
    let (id, j) = match parse_int(line, start + 12) {
        Some(p) => p,
        None => return None,
    };
    if id < 0 || !matches_at(line, j, &suffix) {
        return None;
    }
    let mut points: Vec<Point> = Vec::new();
    let mut i: usize = j + 4;
    let ghost e0 = i as int;
    let ghost fuel0: nat = (end - start) as nat;
    let mut fuel: usize = end - start;
    while i < end
        invariant
            line@ == t,
            t == s@.subrange(0, end as int),
            end <= s@.len(),
            i <= end,
            fuel <= fuel0,
            fuel0 == (end - start) as nat,
            start <= end,
            id >= 0,
            scan_header(t, start as int) == Some((id as usize, e0)),
            scan_points(s@, e0, end as int, fuel0) == match scan_points(s@, i as int, end as int, fuel as nat) {
                Some(ps) => Some(points@ + ps),
                None => None::<Seq<Point>>,
            },
        decreases fuel,
    {
        if s[i] != 10 {
            return None;
        }
        if i + 1 == end {
            assert(points@ + Seq::<Point>::empty() =~= points@);
            return Some(Scan { scanner_id: id as usize, points });
        }
        if fuel == 0 {
            return None;
        }
        let (x, k) = match parse_int(line, i + 1) {
            Some(p) => p,
            None => return None,
        };
        if !(k < end && line[k] == 44) {
            return None;
        }
        let (y, m) = match parse_int(line, k + 1) {
            Some(p) => p,
            None => return None,
        };
        if !(m < end && line[m] == 44) {
            return None;
        }
        let (z, e) = match parse_int(line, m + 1) {
            Some(p) => p,
            None => return None,
        };
        let p = Point { x, y, z };
        proof {
            assert(scan_point(t, i + 1) == Some((p, e as int)));
            let rest = scan_points(s@, e as int, end as int, (fuel - 1) as nat);
            if let Some(ps) = rest {
                assert(points@.push(p) + ps =~= points@ + (seq![p] + ps));
            }
        }
        points.push(p);
        i = e;
        fuel = fuel - 1;
        if i > end {
            return None;
        }
    }
    assert(points@ + Seq::<Point>::empty() =~= points@);
    Some(Scan { scanner_id: id as usize, points })
}

/// `s[..end]`.
fn slice_to(s: &[u8], end: usize) -> (r: &[u8])
    requires
        end <= s@.len(),
    ensures
        r@ == s@.subrange(0, end as int),
{
    let (a, _) = s.split_at(end);
    a
}

/// Where the chunk of `s` starting at `i` ends: at the first blank-line break
/// (two newlines in a row) from `i` on, or at the end of `s`.
pub open spec fn chunk_end(s: Seq<u8>, i: int) -> int
    decreases s.len() - i,
{
    if i < 0 || i + 1 >= s.len() {
        s.len() as int
    } else if s[i] == 10 && s[i + 1] == 10 {
        i
    } else {
        chunk_end(s, i + 1)
    }
}

/// Where chunk `k` of `s` starts: chunk 0 at 0, each next one just past the
/// blank-line break that ends the one before.
pub open spec fn chunk_start(s: Seq<u8>, k: nat) -> int
    decreases k,
{
    if k == 0 {
        0
    } else {
        chunk_end(s, chunk_start(s, (k - 1) as nat)) + 2
    }
}

/// Chunk `k` is the last chunk of `s`.
pub open spec fn last_chunk(s: Seq<u8>, k: nat) -> bool {
    chunk_end(s, chunk_start(s, k)) >= s.len()
}

/// `scans` are the 24 orientations of `pts`, in the order of `oriented`.
pub open spec fn all_orientations(scans: Seq<Scan>, pts: Seq<Point>) -> bool {
    &&& scans.len() == 24
    &&& forall|o: int| 0 <= o < 24 ==> (#[trigger] scans[o]).points@.len() == pts.len()
    &&& forall|o: int, j: int| 0 <= o < 24 && 0 <= j < pts.len() ==> (#[trigger] scans[o].points@[j]) == oriented(pts[j], o as nat)
}

/// Entry `k` of `rest` is the scan in chunk `k + 1` of `s`, in all orientations.
pub open spec fn chunk_scan_matches(s: Seq<u8>, rest: Seq<(usize, Vec<Scan>)>, k: int) -> bool {
    exists|pts: Seq<Point>|
        scan_scan(s, chunk_start(s, (k + 1) as nat), chunk_end(s, chunk_start(s, (k + 1) as nat))) == Some((rest[k].0, pts))
            && #[trigger] all_orientations(rest[k].1@, pts)
}

proof fn lemma_chunk_end(s: Seq<u8>, i: int)
    requires
        0 <= i <= s.len(),
    ensures
        i <= chunk_end(s, i) <= s.len(),
        chunk_end(s, i) < s.len() ==> chunk_end(s, i) + 1 < s.len() && s[chunk_end(s, i)] == 10 && s[chunk_end(s, i) + 1] == 10,
    decreases s.len() - i,
{
    if !(i + 1 >= s.len()) && !(s[i] == 10 && s[i + 1] == 10) {
        lemma_chunk_end(s, i + 1);
    }
}

/// `chunk_end`, computed.
fn find_chunk_end(s: &[u8], i: usize) -> (r: usize)
    requires
        i <= s@.len(),
    ensures
        r == chunk_end(s@, i as int),
{
    let n = s.len();
    let mut k: usize = i;
    while n - k > 1 && !(s[k] == 10 && s[k + 1] == 10)
        invariant
            n == s@.len(),
            i <= k <= n,
            chunk_end(s@, k as int) == chunk_end(s@, i as int),
        decreases n - k,
    {
        k = k + 1;
    }
    if n - k <= 1 {
        n
    } else {
        k
    }
}

/// Reads the scans of a puzzle input, separated by blank lines: the first (scanner 0)
/// as it is, each other in all 24 orientations with its scanner number. `None`
/// where a chunk is not a scan, or a coordinate is `i32::MIN`.
pub fn parse_to_all_orientations(input: &str) -> (r: Option<(Scan, Vec<(usize, Vec<Scan>)>)>)
    ensures
        r matches Some((first, rest)) ==> {
            let s = input.spec_bytes();
            &&& scan_scan(s, 0, chunk_end(s, 0)) == Some((first.scanner_id, first.points@))
            &&& last_chunk(s, rest@.len())
            &&& forall|k: nat| k < rest@.len() ==> !#[trigger] last_chunk(s, k)
            &&& forall|k: int| 0 <= k < rest@.len() ==> #[trigger] chunk_scan_matches(s, rest@, k)
        },
{
    let s = input.as_bytes();
    let ghost sb = s@;
    let n = s.len();
    proof {
        lemma_chunk_end(sb, 0);
    }
    let e0 = find_chunk_end(s, 0);
    let first = match parse_scan_bytes(s, 0, e0) {
        Some(sc) => sc,
        None => return None,
    };
    let mut rest: Vec<(usize, Vec<Scan>)> = Vec::new();
    let mut i: usize = e0;
    while i < n
        invariant
            n == sb.len(),
            sb == s@,
            sb == input.spec_bytes(),
            i <= n,
            i == chunk_end(sb, chunk_start(sb, rest@.len())),
            i < n ==> i + 1 < n && sb[i as int] == 10 && sb[i + 1] == 10,
            forall|k: nat| k < rest@.len() ==> !#[trigger] last_chunk(sb, k),
            scan_scan(sb, 0, chunk_end(sb, 0)) == Some((first.scanner_id, first.points@)),
            forall|k: int| 0 <= k < rest@.len() ==> #[trigger] chunk_scan_matches(sb, rest@, k),
        decreases n - i,
    {
        let start = i + 2;
        proof {
            lemma_chunk_end(sb, start as int);
            assert(chunk_start(sb, (rest@.len() + 1) as nat) == start);
        }
        let end = find_chunk_end(s, start);
        let scan = match parse_scan_bytes(s, start, end) {
            Some(sc) => sc,
            None => return None,
        };
        let mut k: usize = 0;
        while k < scan.points.len()
            invariant
                forall|j: int| 0 <= j < k ==> negatable(#[trigger] scan.points@[j]),
                k <= scan.points@.len(),
            decreases scan.points@.len() - k,
        {
            let p = scan.points[k];
            if p.x == i32::MIN || p.y == i32::MIN || p.z == i32::MIN {
                return None;
            }
            k = k + 1;
        }
        let id = scan.scanner_id;
        let ghost pts = scan.points@;
        let scans = transform_scan(scan);
        let ghost old_rest = rest@;
        rest.push((id, scans));
        proof {
            assert(all_orientations(scans@, pts));
            assert(!last_chunk(sb, old_rest.len() as nat));
            assert forall|k2: int| 0 <= k2 < rest@.len() implies #[trigger] chunk_scan_matches(sb, rest@, k2) by {
                if k2 < old_rest.len() {
                    assert(chunk_scan_matches(sb, old_rest, k2));
                    assert(rest@[k2] == old_rest[k2]);
                    let w = choose|w: Seq<Point>|
                        scan_scan(sb, chunk_start(sb, (k2 + 1) as nat), chunk_end(sb, chunk_start(sb, (k2 + 1) as nat)))
                            == Some((old_rest[k2].0, w)) && #[trigger] all_orientations(old_rest[k2].1@, w);
                    assert(all_orientations(rest@[k2].1@, w));
                } else {
                    assert(rest@[k2] == (id, scans));
                    assert(chunk_start(sb, (k2 + 1) as nat) == start);
                    assert(scan_scan(sb, start as int, end as int) == Some((id, pts)));
                    assert(all_orientations(rest@[k2].1@, pts));
                }
            }
        }
        i = end;
    }
    Some((first, rest))
}

/// Reads one scan: its header line `--- scanner <n> ---`, then a point `x,y,z`
/// per line.
pub fn parse_scanner_input(input: &str) -> (r: Option<Scan>)
    ensures
        r matches Some(sc) ==> scan_scan(input.spec_bytes(), 0, input.spec_bytes().len() as int) == Some(
            (sc.scanner_id, sc.points@),
        ),
        r is None ==> scan_scan(input.spec_bytes(), 0, input.spec_bytes().len() as int) is None,
{
    let s = input.as_bytes();
    parse_scan_bytes(s, 0, s.len())
}

} // verus!
