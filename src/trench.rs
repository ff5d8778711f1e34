use vstd::arithmetic::div_mod::lemma_small_mod;
use vstd::prelude::*;
use vstd::string::{StrSliceExecFns, StringExecFns, StringSliceAdditionalSpecFns};

verus! {

/// How far from the origin an image's bounds may reach.
pub const LIMIT: isize = 0x1000_0000;

#[derive(Clone, Copy, Debug, PartialEq, Eq, Structural, Hash)]
pub struct Coord {
    pub x: isize,
    pub y: isize,
}

impl Coord {
    pub fn new(x: isize, y: isize) -> (r: Coord)
        ensures
            r == (Coord { x, y }),
    {
        Coord { x, y }
    }
}

/// An inclusive range of coordinates.
#[derive(Clone, Copy, Debug, PartialEq, Eq, Structural)]
pub struct Span {
    pub start: isize,
    pub end: isize,
}

impl Span {
    pub open spec fn wf(self) -> bool {
        -LIMIT <= self.start <= self.end <= LIMIT
    }

    pub open spec fn len(self) -> int {
        self.end - self.start + 1
    }

    pub open spec fn has(self, v: int) -> bool {
        self.start <= v <= self.end
    }
}

/// The rectangle an image stores pixel by pixel; outside it every pixel is the background.
#[derive(Clone, Copy, Debug, PartialEq, Eq, Structural)]
pub struct Bounds {
    pub x_range: Span,
    pub y_range: Span,
}

impl Bounds {
    pub open spec fn wf(self) -> bool {
        self.x_range.wf() && self.y_range.wf()
    }

    pub open spec fn has(self, x: int, y: int) -> bool {
        self.x_range.has(x) && self.y_range.has(y)
    }

    pub open spec fn area(self) -> int {
        self.x_range.len() * self.y_range.len()
    }

    /// The bounds two pixels wider on every side.
    pub open spec fn grown(self) -> Bounds {
        Bounds {
            x_range: Span { start: (self.x_range.start - 2) as isize, end: (self.x_range.end + 2) as isize },
            y_range: Span { start: (self.y_range.start - 2) as isize, end: (self.y_range.end + 2) as isize },
        }
    }

    pub fn grow(&self) -> (r: Bounds)
        requires
            -LIMIT + 2 <= self.x_range.start,
            self.x_range.end <= LIMIT - 2,
            -LIMIT + 2 <= self.y_range.start,
            self.y_range.end <= LIMIT - 2,
        ensures
            r == self.grown(),
    {
        Bounds {
            x_range: Span { start: self.x_range.start - 2, end: self.x_range.end + 2 },
            y_range: Span { start: self.y_range.start - 2, end: self.y_range.end + 2 },
        }
    }

    pub fn contains(&self, coord: &Coord) -> (r: bool)
        ensures
            r == self.has(coord.x as int, coord.y as int),
    {
        self.x_range.start <= coord.x && coord.x <= self.x_range.end && self.y_range.start <= coord.y && coord.y
            <= self.y_range.end
    }
}

/// Where pixel `(x, y)` sits in a row-major grid over `b`.
pub open spec fn grid_index(b: Bounds, x: int, y: int) -> int {
    (y - b.y_range.start) * b.x_range.len() + (x - b.x_range.start)
}

proof fn lemma_grid_index(b: Bounds, x: int, y: int)
    requires
        b.wf(),
        b.has(x, y),
    ensures
        0 <= grid_index(b, x, y) < b.area(),
{
    let w = b.x_range.len();
    let h = b.y_range.len();
    let dx = x - b.x_range.start;
    let dy = y - b.y_range.start;
    assert(0 <= dy * w + dx < h * w) by (nonlinear_arith)
        requires
            0 <= dx < w,
            0 <= dy < h,
    ;
    assert(h * w == w * h) by (nonlinear_arith);
}

/// An infinite image: the pixels inside `bounds`, row by row, and one shade for all the others.
pub struct Image {
    pub bounds: Bounds,
    pub pixels: Vec<bool>,
    pub bg_is_lit: bool,
}

/// The offsets of a pixel's neighbourhood, row by row: `(k % 3 - 1, k / 3 - 1)`.
pub open spec fn offset(k: int) -> (int, int) {
    (k % 3 - 1, k / 3 - 1)
}

impl Image {
    pub open spec fn wf(&self) -> bool {
        self.bounds.wf() && self.pixels@.len() == self.bounds.area()
    }

    pub open spec fn lit(&self, x: int, y: int) -> bool {
        if self.bounds.has(x, y) {
            self.pixels@[grid_index(self.bounds, x, y)]
        } else {
            self.bg_is_lit
        }
    }

    /// The first `n` pixels of the neighbourhood of `(x, y)` read as a binary number, lit as 1.
    pub open spec fn code_upto(&self, x: int, y: int, n: int) -> int
        decreases n,
    {
        if n <= 0 {
            0
        } else {
            2 * self.code_upto(x, y, n - 1) + if self.lit(x + offset(n - 1).0, y + offset(n - 1).1) {
                1int
            } else {
                0
            }
        }
    }

    /// The nine pixels around `(x, y)`, row by row, read as a binary number.
    pub open spec fn code(&self, x: int, y: int) -> int {
        self.code_upto(x, y, 9)
    }

    pub fn is_pixel_lit(&self, coord: &Coord) -> (r: bool)
        requires
            self.wf(),
        ensures
            r == self.lit(coord.x as int, coord.y as int),
    {
        if self.bounds.contains(coord) {
            proof {
                lemma_grid_index(self.bounds, coord.x as int, coord.y as int);
            }
            let n = self.pixels.len();
            let w = (self.bounds.x_range.end - self.bounds.x_range.start + 1) as usize;
            let dx = (coord.x - self.bounds.x_range.start) as usize;
            let dy = (coord.y - self.bounds.y_range.start) as usize;
            proof {
                let ww = w as int;
                assert(dy * ww + dx < self.pixels@.len());
                assert(dy * ww <= usize::MAX) by (nonlinear_arith)
                    requires
                        dy * ww + dx < self.pixels@.len(),
                        self.pixels@.len() == n,
                        n <= usize::MAX,
                        dx >= 0,
                ;
            }
            self.pixels[dy * w + dx]
        } else {
            self.bg_is_lit
        }
    }

    pub fn num_from_pixel(&self, coord: &Coord) -> (r: usize)
        requires
            self.wf(),
        ensures
            r == if self.lit(coord.x as int, coord.y as int) { 1int } else { 0 },
    {
        if self.is_pixel_lit(coord) {
            1
        } else {
            0
        }
    }

    /// The code of the nine pixels around `coord`.
    pub fn num_from_pixel_neighbourhood(&self, coord: &Coord) -> (r: usize)
        requires
            self.wf(),
            -2 * LIMIT <= coord.x <= 2 * LIMIT,
            -2 * LIMIT <= coord.y <= 2 * LIMIT,
        ensures
            r == self.code(coord.x as int, coord.y as int),
            r < 512,
    {
        let mut acc: usize = 0;
        let mut k: usize = 0;
        while k < 9
            invariant
                self.wf(),
                -2 * LIMIT <= coord.x <= 2 * LIMIT,
                -2 * LIMIT <= coord.y <= 2 * LIMIT,
                k <= 9,
                acc == self.code_upto(coord.x as int, coord.y as int, k as int),
                acc < pow2(k as nat),
            decreases 9 - k,
        {
            let dx = (k % 3) as isize - 1;
            let dy = (k / 3) as isize - 1;
            let bit = self.num_from_pixel(&Coord::new(coord.x + dx, coord.y + dy));
            proof {
                lemma_pow2_step(k as nat);
            }
            acc = acc * 2 + bit;
            k = k + 1;
        }
        proof {
            reveal_with_fuel(pow2, 10);
        }
        acc
    }
}

impl Image {
    /// The next image: each pixel of the grown bounds takes the algorithm's entry
    /// at the code of its neighbourhood, and so does the background.
    pub fn step(&self, enh_alg: &Vec<bool>) -> (r: Image)
        requires
            self.wf(),
            enh_alg@.len() == 512,
            -LIMIT + 2 <= self.bounds.x_range.start,
            self.bounds.x_range.end <= LIMIT - 2,
            -LIMIT + 2 <= self.bounds.y_range.start,
            self.bounds.y_range.end <= LIMIT - 2,
            self.bounds.grown().area() <= usize::MAX,
        ensures
            r.wf(),
            r.bounds == self.bounds.grown(),
            forall|x: int, y: int| #[trigger] r.bounds.has(x, y) ==> r.lit(x, y) == enh_alg@[self.code(x, y)],
            r.bg_is_lit == enh_alg@[self.code(self.bounds.x_range.start - 10, self.bounds.y_range.start - 10)],
    {
        let new_bounds = self.bounds.grow();
        let xs = new_bounds.x_range.start;
        let ys = new_bounds.y_range.start;
        let w = (new_bounds.x_range.end - xs + 1) as usize;
        let h = (new_bounds.y_range.end - ys + 1) as usize;
        let mut pixels: Vec<bool> = Vec::new();
        let mut j: usize = 0;
        while j < h
            invariant
                self.wf(),
                enh_alg@.len() == 512,
                new_bounds == self.bounds.grown(),
                new_bounds.wf(),
                xs == new_bounds.x_range.start,
                ys == new_bounds.y_range.start,
                w == new_bounds.x_range.len(),
                h == new_bounds.y_range.len(),
                j <= h,
                pixels@.len() == j * w,
                forall|x: int, y: int|
                    new_bounds.has(x, y) && y < ys + j ==> #[trigger] pixels@[grid_index(new_bounds, x, y)]
                        == enh_alg@[self.code(x, y)],
            decreases h - j,
        {
            let mut i: usize = 0;
            while i < w
                invariant
                    self.wf(),
                    enh_alg@.len() == 512,
                    new_bounds.wf(),
                    xs == new_bounds.x_range.start,
                    ys == new_bounds.y_range.start,
                    w == new_bounds.x_range.len(),
                    h == new_bounds.y_range.len(),
                    j < h,
                    i <= w,
                    pixels@.len() == j * w + i,
                    forall|x: int, y: int|
                        new_bounds.has(x, y) && (y < ys + j || (y == ys + j && x < xs + i)) ==> #[trigger] pixels@[grid_index(
                            new_bounds,
                            x,
                            y,
                        )] == enh_alg@[self.code(x, y)],
                decreases w - i,
            {
                let coord = Coord::new(xs + i as isize, ys + j as isize);
                let code = self.num_from_pixel_neighbourhood(&coord);
                proof {
                    assert(grid_index(new_bounds, xs + i, ys + j) == j * w + i);
                    assert forall|x: int, y: int|
                        new_bounds.has(x, y) && (y < ys + j || (y == ys + j && x < xs + i)) implies grid_index(new_bounds, x, y) < j * w + i by {
                        let dy = y - ys;
                        let dx = x - xs;
                        assert(dy * w + dx < j * w + i) by (nonlinear_arith)
                            requires
                                0 <= dx < w,
                                0 <= dy,
                                dy < j || (dy == j && dx < i),
                        ;
                    }
                }
                pixels.push(enh_alg[code]);
                i = i + 1;
            }
            proof {
                assert((j + 1) * w == j * w + w) by (nonlinear_arith);
            }
            j = j + 1;
        }
        proof {
            assert(h * w == w * h) by (nonlinear_arith);
        }
        let out_of_bounds = Coord::new(self.bounds.x_range.start - 10, self.bounds.y_range.start - 10);
        let oob_code = self.num_from_pixel_neighbourhood(&out_of_bounds);
        Image { bounds: new_bounds, pixels, bg_is_lit: enh_alg[oob_code] }
    }
}

/// The image text is rectangular: rows of `w` characters (`w >= 1`), each but
/// perhaps the last ended by a newline, and no other newlines.
pub open spec fn rectangular(s: Seq<u8>, w: int) -> bool {
    &&& 1 <= w
    &&& w + 1 <= s.len() <= LIMIT
    &&& (s.len() as int % (w + 1) == 0 || s.len() as int % (w + 1) == w)
    &&& forall|k: int| 0 <= k < s.len() ==> (#[trigger] s[k] == 10) == (k % (w + 1) == w)
}

/// The number of rows of a rectangular text of width `w`.
pub open spec fn row_count(s: Seq<u8>, w: int) -> int {
    (s.len() + 1) as int / (w + 1)
}

/// The width of a rectangular text (see `rectangular`), if it is one.
pub(crate) fn rectangular_width(s: &[u8]) -> (r: Option<usize>)
    ensures
        r matches Some(w) ==> rectangular(s@, w as int),
        r is None ==> forall|w: int| !rectangular(s@, w),
{
    let n = s.len();
    let mut w: usize = 0;
    while w < n && s[w] != 10
        invariant
            n == s@.len(),
            w <= n,
            forall|k: int| 0 <= k < w ==> s@[k] != 10,
        decreases n - w,
    {
        w = w + 1;
    }
    proof {
        assert forall|w2: int| rectangular(s@, w2) implies w2 == w by {
            lemma_small_mod(w2 as nat, (w2 + 1) as nat);
            assert(s@[w2] == 10);
            if w2 > w && w < n {
                lemma_small_mod(w as nat, (w2 + 1) as nat);
                assert(s@[w as int] == 10);
            }
        }
    }
    if w == 0 || w >= n || n > LIMIT as usize {
        return None;
    }
    let period = w + 1;
    if !(n % period == 0 || n % period == w) {
        return None;
    }
    let mut k: usize = 0;
    while k < n
        invariant
            n == s@.len(),
            period == w + 1,
            k <= n,
            forall|w2: int| rectangular(s@, w2) ==> w2 == w,
            forall|j: int| 0 <= j < k ==> (#[trigger] s@[j] == 10) == (j % (w + 1) == w),
        decreases n - k,
    {
        if (s[k] == 10) != (k % period == w) {
            return None;
        }
        k = k + 1;
    }
    Some(w)
}

/// The algorithm's entries: `#` lit, anything else dark.
pub fn parse_image_enhancement_algorithm(input: &str) -> (r: Vec<bool>)
    ensures
        r@ == input@.map_values(|c: char| c == '#'),
{
    let n = input.unicode_len();
    let mut out: Vec<bool> = Vec::new();
    let mut i: usize = 0;
    while i < n
        invariant
            n == input@.len(),
            i <= n,
            out@ == input@.subrange(0, i as int).map_values(|c: char| c == '#'),
        decreases n - i,
    {
        out.push(input.get_char(i) == '#');
        i = i + 1;
        assert(out@ =~= input@.subrange(0, i as int).map_values(|c: char| c == '#'));
    }
    assert(input@.subrange(0, n as int) =~= input@);
    out
}

impl Image {
    /// Reads a rectangular picture (see `rectangular`) of `#` (lit) and other
    /// characters: its bounds are its columns and rows counted from 0, and the
    /// background is dark. `None` where the text is not rectangular.
    pub fn parse(input: &str) -> (r: Option<Image>)
        ensures
            r is None ==> forall|w: int| !rectangular(input.spec_bytes(), w),
            r matches Some(img) ==> img.wf() && !img.bg_is_lit && {
                let s = input.spec_bytes();
                let w = img.bounds.x_range.len();
                &&& rectangular(s, w)
                &&& img.bounds.x_range.start == 0
                &&& img.bounds.y_range.start == 0
                &&& img.bounds.y_range.len() == row_count(s, w)
                &&& forall|x: int, y: int| #[trigger] img.bounds.has(x, y) ==> img.lit(x, y) == (s[y * (w + 1) + x] == 35)
            },
    {
        match rectangular_width(input.as_bytes()) {
            Some(_) => Some(Image::parse_rectangular(input)),
            None => None,
        }
    }

    /// Reads a rectangular picture of `#` (lit) and other characters: its bounds
    /// are its columns and rows counted from 0, and the background is dark.
    fn parse_rectangular(input: &str) -> (r: Image)
        requires
            exists|w: int| rectangular(input.spec_bytes(), w),
        ensures
            r.wf(),
            !r.bg_is_lit,
            ({
                let s = input.spec_bytes();
                let w = r.bounds.x_range.len();
                &&& rectangular(s, w)
                &&& r.bounds.x_range.start == 0
                &&& r.bounds.y_range.start == 0
                &&& r.bounds.y_range.len() == row_count(s, w)
                &&& forall|x: int, y: int| #[trigger] r.bounds.has(x, y) ==> r.lit(x, y) == (s[y * (w + 1) + x] == 35)
            }),
    {
        let s = input.as_bytes();
        let ghost sb = input.spec_bytes();
        let ghost w0 = choose|w: int| rectangular(sb, w);
        let n = s.len();
        proof {
            lemma_small_mod(w0 as nat, (w0 + 1) as nat);
            assert(sb[w0] == 10);
        }
        let mut w: usize = 0;
        while s[w] != 10
            invariant
                s@ == sb,
                n == sb.len(),
                rectangular(sb, w0),
                sb[w0] == 10,
                w <= w0,
                forall|k: int| 0 <= k < w ==> sb[k] != 10,
            decreases w0 - w,
        {
            w = w + 1;
        }
        proof {
            if w < w0 {
                lemma_small_mod(w as nat, (w0 + 1) as nat);
                assert(sb[w as int] != 10);
            }
        }
        let h = (n + 1) / (w + 1);
        proof {
            assert(h * (w + 1) <= n + 1) by (nonlinear_arith)
                requires
                    h == (n + 1) / (w + 1),
                    w >= 1,
            ;
            assert(1 <= h) by (nonlinear_arith)
                requires
                    h == (n + 1) / (w + 1),
                    w >= 1,
                    w + 1 <= n,
            ;
        }
        let mut pixels: Vec<bool> = Vec::new();
        let mut y: usize = 0;
        while y < h
            invariant
                s@ == sb,
                n == sb.len(),
                rectangular(sb, w as int),
                h == row_count(sb, w as int),
                h * (w + 1) <= n + 1,
                y <= h,
                pixels@.len() == y * w,
                forall|k: int| 0 <= k < y * w ==> #[trigger] pixels@[k] == (sb[(k / w as int) * (w + 1) + k % w as int] == 35),
            decreases h - y,
        {
            let mut x: usize = 0;
            while x < w
                invariant
                    s@ == sb,
                    n == sb.len(),
                    rectangular(sb, w as int),
                    h * (w + 1) <= n + 1,
                    y < h,
                    x <= w,
                    pixels@.len() == y * w + x,
                    forall|k: int| 0 <= k < y * w + x ==> #[trigger] pixels@[k] == (sb[(k / w as int) * (w + 1) + k % w as int] == 35),
                decreases w - x,
            {
                proof {
                    assert(y * (w + 1) + x < n) by (nonlinear_arith)
                        requires
                            y < h,
                            x < w,
                            h * (w + 1) <= n + 1,
                    ;
                    let k = y * w + x;
                    assert(k / (w as int) == y && k % (w as int) == x) by (nonlinear_arith)
                        requires
                            k == y * w + x,
                            x < w,
                    ;
                }
                pixels.push(s[y * (w + 1) + x] == 35);
                x = x + 1;
            }
            proof {
                assert((y + 1) * w == y * w + w) by (nonlinear_arith);
            }
            y = y + 1;
        }
        let r = Image {
            bounds: Bounds {
                x_range: Span { start: 0, end: (w - 1) as isize },
                y_range: Span { start: 0, end: (h - 1) as isize },
            },
            pixels,
            bg_is_lit: false,
        };
        proof {
            assert(h * w == w * h) by (nonlinear_arith);
            assert forall|x: int, y: int| #[trigger] r.bounds.has(x, y) implies r.lit(x, y) == (sb[y * (w + 1) + x] == 35) by {
                let k = y * w + x;
                assert(grid_index(r.bounds, x, y) == k);
                assert(0 <= k < h * w) by (nonlinear_arith)
                    requires
                        k == y * w + x,
                        0 <= x < w,
                        0 <= y < h,
                ;
                assert(k / (w as int) == y && k % (w as int) == x) by (nonlinear_arith)
                    requires
                        k == y * w + x,
                        0 <= x < w,
                        0 <= y,
                ;
            }
        }
        r
    }
}

/// The first `n` pixels of row `y` from column `x0`, `#` lit and `.` dark.
pub open spec fn row_text(img: Image, x0: int, y: int, n: int) -> Seq<char>
    decreases n,
{
    if n <= 0 {
        Seq::empty()
    } else {
        row_text(img, x0, y, n - 1).push(if img.lit(x0 + n - 1, y) { '#' } else { '.' })
    }
}

/// The first `m` rows of the picture over `xr` and `yr`, a newline between rows.
pub open spec fn rows_text(img: Image, xr: Span, yr: Span, m: int) -> Seq<char>
    decreases m,
{
    if m <= 0 {
        Seq::empty()
    } else if m == 1 {
        row_text(img, xr.start as int, yr.start as int, xr.len())
    } else {
        rows_text(img, xr, yr, m - 1).push('\n') + row_text(img, xr.start as int, yr.start + m - 1, xr.len())
    }
}

/// How many of the first `n` stored pixels are lit.
pub open spec fn lit_upto(s: Seq<bool>, n: int) -> int
    decreases n,
{
    if n <= 0 {
        0
    } else {
        lit_upto(s, n - 1) + if s[n - 1] { 1int } else { 0 }
    }
}

impl Image {
    /// The picture over `xrange` and `yrange`: rows of `#` and `.`, joined by newlines.
    pub fn as_debug_string(&self, xrange: Span, yrange: Span) -> (r: String)
        requires
            self.wf(),
            xrange.wf(),
            yrange.wf(),
        ensures
            r@ == rows_text(*self, xrange, yrange, yrange.len()),
    {
        let mut result = String::new();
        let mut y: isize = yrange.start;
        while y <= yrange.end
            invariant
                self.wf(),
                xrange.wf(),
                yrange.wf(),
                yrange.start <= y <= yrange.end + 1,
                result@ == rows_text(*self, xrange, yrange, y - yrange.start),
            decreases yrange.end + 1 - y,
        {
            proof {
                reveal_strlit("\n");
            }
            if y > yrange.start {
                result.append("\n");
            }
            let ghost before = result@;
            let mut x: isize = xrange.start;
            while x <= xrange.end
                invariant
                    self.wf(),
                    xrange.wf(),
                    yrange.wf(),
                    yrange.start <= y <= yrange.end,
                    xrange.start <= x <= xrange.end + 1,
                    result@ == before + row_text(*self, xrange.start as int, y as int, x - xrange.start),
                decreases xrange.end + 1 - x,
            {
                let lit = self.is_pixel_lit(&Coord::new(x, y));
                proof {
                    reveal_strlit("#");
                    reveal_strlit(".");
                }
                if lit {
                    result.append("#");
                } else {
                    result.append(".");
                }
                assert(result@ =~= before + row_text(*self, xrange.start as int, y as int, x + 1 - xrange.start));
                x = x + 1;
            }
            proof {
                if y == yrange.start {
                    assert(before =~= Seq::<char>::empty());
                    assert(result@ =~= rows_text(*self, xrange, yrange, 1));
                } else {
                    assert(result@ =~= rows_text(*self, xrange, yrange, y + 1 - yrange.start));
                }
            }
            y = y + 1;
        }
        result
    }

    /// How many pixels inside the bounds are lit.
    pub fn lit_pixel_count(&self) -> (r: usize)
        ensures
            r == lit_upto(self.pixels@, self.pixels@.len() as int),
    {
        let mut count: usize = 0;
        let mut i: usize = 0;
        while i < self.pixels.len()
            invariant
                i <= self.pixels@.len(),
                count == lit_upto(self.pixels@, i as int),
                count <= i,
            decreases self.pixels@.len() - i,
        {
            if self.pixels[i] {
                count = count + 1;
            }
            i = i + 1;
        }
        count
    }
}

pub open spec fn pow2(n: nat) -> int
    decreases n,
{
    if n == 0 {
        1
    } else {
        2 * pow2((n - 1) as nat)
    }
}

proof fn lemma_pow2_step(n: nat)
    requires
        n < 9,
    ensures
        pow2(n + 1) == 2 * pow2(n),
        pow2(n + 1) <= 512,
{
    reveal_with_fuel(pow2, 10);
}

} // verus!
