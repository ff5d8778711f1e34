use vstd::arithmetic::div_mod::{lemma_mod_add_multiples_vanish, lemma_mod_self_0, lemma_small_mod};
use crate::trench::{rectangular, rectangular_width, row_count};
use vstd::prelude::*;
use vstd::string::{StringExecFns, StringSliceAdditionalSpecFns};

verus! {

/// What occupies a cell of the sea floor.
#[derive(Clone, Copy, Debug, PartialEq, Eq, Structural)]
pub enum Cuke {
    East,
    South,
    Empty,
}

/// A grid of cells that wraps round at its edges, row by row.
pub struct Seabed {
    pub cukes: Vec<Vec<Cuke>>,
}

/// The cells, row by row.
pub open spec fn grid_of(cukes: Seq<Vec<Cuke>>) -> Seq<Seq<Cuke>> {
    cukes.map_values(|r: Vec<Cuke>| r@)
}

/// A non-empty rectangular grid.
pub open spec fn grid_wf(g: Seq<Seq<Cuke>>) -> bool {
    g.len() >= 1 && g[0].len() >= 1 && forall|y: int| 0 <= y < g.len() ==> (#[trigger] g[y]).len() == g[0].len()
}

/// The cell a cucumber of `herd` at `(x, y)` moves to: east or south, wrapping round.
pub open spec fn ahead(g: Seq<Seq<Cuke>>, herd: Cuke, x: int, y: int) -> (int, int) {
    if herd == Cuke::East {
        ((x + 1) % g[0].len() as int, y)
    } else {
        (x, (y + 1) % g.len() as int)
    }
}

/// The cell a cucumber of `herd` would come from to reach `(x, y)`.
pub open spec fn behind(g: Seq<Seq<Cuke>>, herd: Cuke, x: int, y: int) -> (int, int) {
    if herd == Cuke::East {
        ((x - 1 + g[0].len()) % g[0].len() as int, y)
    } else {
        (x, (y - 1 + g.len()) % g.len() as int)
    }
}

pub open spec fn at(g: Seq<Seq<Cuke>>, c: (int, int)) -> Cuke {
    g[c.1][c.0]
}

/// The cucumber of `herd` at `(x, y)` moves this half-step: the cell ahead of it is empty.
pub open spec fn moves(g: Seq<Seq<Cuke>>, herd: Cuke, x: int, y: int) -> bool {
    g[y][x] == herd && at(g, ahead(g, herd, x, y)) == Cuke::Empty
}

/// Cell `(x, y)` after every cucumber of `herd` that can move has moved at once.
pub open spec fn herd_moved_cell(g: Seq<Seq<Cuke>>, herd: Cuke, x: int, y: int) -> Cuke {
    if moves(g, herd, x, y) {
        Cuke::Empty
    } else if g[y][x] == Cuke::Empty && {
        let b = behind(g, herd, x, y);
        moves(g, herd, b.0, b.1)
    } {
        herd
    } else {
        g[y][x]
    }
}

/// How many cucumbers of `herd` in the first `n` cells (row by row) move.
pub open spec fn movers_upto(g: Seq<Seq<Cuke>>, herd: Cuke, n: int) -> int
    decreases n,
{
    if n <= 0 {
        0
    } else {
        let w = g[0].len() as int;
        movers_upto(g, herd, n - 1) + if moves(g, herd, (n - 1) % w, (n - 1) / w) {
            1int
        } else {
            0
        }
    }
}

/// The grid after `n` steps.
pub open spec fn stepped_n(g: Seq<Seq<Cuke>>, n: nat) -> Seq<Seq<Cuke>>
    decreases n,
{
    if n == 0 {
        g
    } else {
        stepped(stepped_n(g, (n - 1) as nat))
    }
}

/// The cucumber a byte stands for: `>` east, `v` south, `.` empty.
pub open spec fn cuke_of(b: u8) -> Option<Cuke> {
    if b == 62 {
        Some(Cuke::East)
    } else if b == 118 {
        Some(Cuke::South)
    } else if b == 46 {
        Some(Cuke::Empty)
    } else {
        None
    }
}

pub open spec fn cuke_char(c: Cuke) -> char {
    match c {
        Cuke::East => '>',
        Cuke::South => 'v',
        Cuke::Empty => '.',
    }
}

/// The first `n` cells of `row`, one character each.
pub open spec fn row_chars(row: Seq<Cuke>, n: int) -> Seq<char>
    decreases n,
{
    if n <= 0 {
        Seq::empty()
    } else {
        row_chars(row, n - 1).push(cuke_char(row[n - 1]))
    }
}

/// The first `n` rows of `g`, each followed by a newline.
pub open spec fn grid_chars(g: Seq<Seq<Cuke>>, n: int) -> Seq<char>
    decreases n,
{
    if n <= 0 {
        Seq::empty()
    } else {
        grid_chars(g, n - 1) + row_chars(g[n - 1], g[n - 1].len() as int).push('\n')
    }
}

proof fn lemma_movers_bound(g: Seq<Seq<Cuke>>, herd: Cuke, n: int)
    requires
        n >= 0,
    ensures
        0 <= movers_upto(g, herd, n) <= n,
    decreases n,
{
    if n > 0 {
        lemma_movers_bound(g, herd, n - 1);
    }
}

/// The grid after the east herd and then the south herd have moved.
pub open spec fn stepped(g: Seq<Seq<Cuke>>) -> Seq<Seq<Cuke>> {
    let e = Seq::new(g.len(), |y: int| Seq::new(g[y].len(), |x: int| herd_moved_cell(g, Cuke::East, x, y)));
    Seq::new(e.len(), |y: int| Seq::new(e[y].len(), |x: int| herd_moved_cell(e, Cuke::South, x, y)))
}

/// How many cucumbers move in one step.
pub open spec fn step_moves(g: Seq<Seq<Cuke>>) -> int {
    let e = Seq::new(g.len(), |y: int| Seq::new(g[y].len(), |x: int| herd_moved_cell(g, Cuke::East, x, y)));
    movers_upto(g, Cuke::East, (g.len() * g[0].len()) as int) + movers_upto(e, Cuke::South, (e.len() * e[0].len()) as int)
}

impl Seabed {
    pub open spec fn grid(&self) -> Seq<Seq<Cuke>> {
        grid_of(self.cukes@)
    }

    pub open spec fn wf(&self) -> bool {
        grid_wf(self.grid())
    }

    /// The cell east of `(x, y)`, wrapping round to the first column.
    pub fn coord_east(&self, x: usize, y: usize) -> (r: (usize, usize))
        requires
            self.wf(),
            x < self.grid()[0].len(),
        ensures
            r.0 == (x + 1) % self.grid()[0].len() as int,
            r.1 == y,
    {
        assert(self.grid()[0] == self.cukes@[0]@);
        let w = self.cukes[0].len();
        proof {
            if x + 1 < w {
                lemma_small_mod((x + 1) as nat, w as nat);
            } else {
                lemma_mod_self_0(w as int);
            }
        }
        let x = if x + 1 >= w { x + 1 - w } else { x + 1 };
        (x, y)
    }

    /// The cell south of `(x, y)`, wrapping round to the first row.
    pub fn coord_south(&self, x: usize, y: usize) -> (r: (usize, usize))
        requires
            self.wf(),
            y < self.grid().len(),
        ensures
            r.0 == x,
            r.1 == (y + 1) % self.grid().len() as int,
    {
        let h = self.cukes.len();
        proof {
            if y + 1 < h {
                lemma_small_mod((y + 1) as nat, h as nat);
            } else {
                lemma_mod_self_0(h as int);
            }
        }
        let y = if y + 1 >= h { y + 1 - h } else { y + 1 };
        (x, y)
    }

    /// The cell `herd` moves from into `(x, y)`, as `behind` gives it.
    fn coord_behind(&self, herd: Cuke, x: usize, y: usize) -> (r: (usize, usize))
        requires
            self.wf(),
            y < self.grid().len(),
            x < self.grid()[0].len(),
        ensures
            r.0 == behind(self.grid(), herd, x as int, y as int).0,
            r.1 == behind(self.grid(), herd, x as int, y as int).1,
            r.1 < self.grid().len(),
            r.0 < self.grid()[0].len(),
    {
        assert(self.grid()[0] == self.cukes@[0]@);
        let w = self.cukes[0].len();
        let h = self.cukes.len();
        if herd == Cuke::East {
            proof {
                if x == 0 {
                    lemma_small_mod((w - 1) as nat, w as nat);
                } else {
                    lemma_mod_add_multiples_vanish(x - 1, w as int);
                    lemma_small_mod((x - 1) as nat, w as nat);
                }
            }
            (if x == 0 { w - 1 } else { x - 1 }, y)
        } else {
            proof {
                if y == 0 {
                    lemma_small_mod((h - 1) as nat, h as nat);
                } else {
                    lemma_mod_add_multiples_vanish(y - 1, h as int);
                    lemma_small_mod((y - 1) as nat, h as nat);
                }
            }
            (x, if y == 0 { h - 1 } else { y - 1 })
        }
    }

    /// The cell a cucumber of `herd` at `(x, y)` moves to.
    fn coord_ahead(&self, herd: Cuke, x: usize, y: usize) -> (r: (usize, usize))
        requires
            self.wf(),
            y < self.grid().len(),
            x < self.grid()[0].len(),
        ensures
            r.0 == ahead(self.grid(), herd, x as int, y as int).0,
            r.1 == ahead(self.grid(), herd, x as int, y as int).1,
            r.1 < self.grid().len(),
            r.0 < self.grid()[0].len(),
    {
        if herd == Cuke::East {
            self.coord_east(x, y)
        } else {
            self.coord_south(x, y)
        }
    }

    fn cell(&self, x: usize, y: usize) -> (r: Cuke)
        requires
            self.wf(),
            y < self.grid().len(),
            x < self.grid()[0].len(),
        ensures
            r == self.grid()[y as int][x as int],
    {
        assert(self.grid()[y as int] == self.cukes@[y as int]@);
        assert(self.grid()[y as int].len() == self.grid()[0].len());
        self.cukes[y][x]
    }

    /// Moves, all at once, every cucumber of `herd` whose cell ahead is empty;
    /// returns how many moved.
    pub fn step_herd(&mut self, herd_type: Cuke) -> (r: usize)
        requires
            old(self).wf(),
            old(self).grid().len() * old(self).grid()[0].len() <= usize::MAX,
        ensures
            final(self).wf(),
            final(self).grid() == Seq::new(
                old(self).grid().len(),
                |y: int| Seq::new(old(self).grid()[y].len(), |x: int| herd_moved_cell(old(self).grid(), herd_type, x, y)),
            ),
            r == movers_upto(old(self).grid(), herd_type, (old(self).grid().len() * old(self).grid()[0].len()) as int),
    {
        let ghost g = self.grid();
        assert(g[0] == self.cukes@[0]@);
        let h = self.cukes.len();
        let w = self.cukes[0].len();
        let mut rows: Vec<Vec<Cuke>> = Vec::new();
        let mut count: usize = 0;
        let mut y: usize = 0;
        while y < h
            invariant
                g == self.grid(),
                self.wf(),
                h == g.len(),
                w == g[0].len(),
                h * w <= usize::MAX,
                y <= h,
                rows@.len() == y,
                forall|y2: int| 0 <= y2 < y ==> (#[trigger] rows@[y2])@ == Seq::new(
                    g[y2].len(),
                    |x: int| herd_moved_cell(g, herd_type, x, y2),
                ),
                count == movers_upto(g, herd_type, y * w),
                count <= y * w,
            decreases h - y,
        {
            let mut row: Vec<Cuke> = Vec::new();
            let mut x: usize = 0;
            assert(g[y as int].len() == w);
            while x < w
                invariant
                    g == self.grid(),
                    self.wf(),
                    h == g.len(),
                    w == g[0].len(),
                    g[y as int].len() == w,
                    h * w <= usize::MAX,
                    y < h,
                    x <= w,
                    row@.len() == x,
                    forall|x2: int| 0 <= x2 < x ==> #[trigger] row@[x2] == herd_moved_cell(g, herd_type, x2, y as int),
                    count == movers_upto(g, herd_type, y * w + x),
                    count <= y * w + x,
                decreases w - x,
            {
                let here = self.cell(x, y);
                let (ax, ay) = self.coord_ahead(herd_type, x, y);
                let moving = here == herd_type && self.cell(ax, ay) == Cuke::Empty;
                let new_cell = if moving {
                    Cuke::Empty
                } else if here == Cuke::Empty {
                    let (bx, by) = self.coord_behind(herd_type, x, y);
                    let (cx, cy) = self.coord_ahead(herd_type, bx, by);
                    if self.cell(bx, by) == herd_type && self.cell(cx, cy) == Cuke::Empty {
                        herd_type
                    } else {
                        here
                    }
                } else {
                    here
                };
                row.push(new_cell);
                proof {
                    let n = y * w + x;
                    assert(n % (w as int) == x && n / (w as int) == y) by (nonlinear_arith)
                        requires
                            n == y * w + x,
                            x < w,
                    ;
                    assert(y * w + x < h * w) by (nonlinear_arith)
                        requires
                            x < w,
                            y < h,
                    ;
                }
                if moving {
                    count = count + 1;
                }
                x = x + 1;
            }
            rows.push(row);
            proof {
                assert(rows@[y as int]@ =~= Seq::new(g[y as int].len(), |x: int| herd_moved_cell(g, herd_type, x, y as int)));
                assert((y + 1) * w == y * w + w) by (nonlinear_arith);
            }
            y = y + 1;
        }
        self.cukes = rows;
        proof {
            assert(self.grid() =~= Seq::new(g.len(), |y: int| Seq::new(g[y].len(), |x: int| herd_moved_cell(g, herd_type, x, y))));
            assert forall|y2: int| 0 <= y2 < self.grid().len() implies (#[trigger] self.grid()[y2]).len() == self.grid()[0].len() by {
                assert(g[y2].len() == g[0].len());
            }
        }
        count
    }

    /// One step: the east-facing herd moves, then the south-facing herd; returns how many moved.
    pub fn step(&mut self) -> (r: usize)
        requires
            old(self).wf(),
            2 * old(self).grid().len() * old(self).grid()[0].len() <= usize::MAX,
        ensures
            final(self).wf(),
            final(self).grid() == stepped(old(self).grid()),
            r == step_moves(old(self).grid()),
    {
        let ghost g = self.grid();
        proof {
            let (a, b) = (g.len() as int, g[0].len() as int);
            assert(a * b <= 2 * a * b) by (nonlinear_arith)
                requires
                    a >= 1,
                    b >= 1,
            ;
        }
        let east = self.step_herd(Cuke::East);
        proof {
            lemma_movers_bound(g, Cuke::East, (g.len() * g[0].len()) as int);
        }
        let ghost e = self.grid();
        assert(e.len() == g.len() && e[0].len() == g[0].len());
        let south = self.step_herd(Cuke::South);
        proof {
            lemma_movers_bound(e, Cuke::South, (e.len() * e[0].len()) as int);
            let (a, b) = (g.len() as int, g[0].len() as int);
            assert(a * b + a * b == 2 * a * b) by (nonlinear_arith);
        }
        east + south
    }

    /// Reads a rectangular text (see `rectangular`) of `>`, `v` and `.`, one
    /// row per line; `None` where it is not rectangular or holds another character.
    pub fn parse(input: &str) -> (r: Option<Seabed>)
        ensures
            r matches Some(sb) ==> sb.wf() && {
                let s = input.spec_bytes();
                let w = sb.grid()[0].len() as int;
                &&& rectangular(s, w)
                &&& sb.grid().len() == row_count(s, w)
                &&& forall|y: int, x: int|
                    0 <= y < sb.grid().len() && 0 <= x < w ==> cuke_of(s[y * (w + 1) + x]) == Some(#[trigger] sb.grid()[y][x])
            },
            r is None ==> (forall|w: int| !rectangular(input.spec_bytes(), w)) || exists|k: int|
                0 <= k < input.spec_bytes().len() && input.spec_bytes()[k] != 10 && cuke_of(#[trigger] input.spec_bytes()[k]) is None,
    {
        let s = input.as_bytes();
        let w = match rectangular_width(s) {
            Some(w) => w,
            None => return None,
        };
        let n = s.len();
        let h = (n + 1) / (w + 1);
        proof {
            assert(h * (w + 1) <= n + 1) by (nonlinear_arith)
                requires
                    h == (n + 1) / (w + 1),
                    w >= 1,
            ;
            assert(1 <= h) by (nonlinear_arith)
                requires
                    h == (n + 1) / (w + 1),
                    w >= 1,
                    w + 1 <= n,
            ;
        }
        let mut rows: Vec<Vec<Cuke>> = Vec::new();
        let mut y: usize = 0;
        while y < h
            invariant
                n == s@.len(),
                s@ == input.spec_bytes(),
                rectangular(s@, w as int),
                h == row_count(s@, w as int),
                h * (w + 1) <= n + 1,
                y <= h,
                rows@.len() == y,
                forall|y2: int| 0 <= y2 < y ==> (#[trigger] rows@[y2])@.len() == w,
                forall|y2: int, x: int| 0 <= y2 < y && 0 <= x < w ==> cuke_of(s@[y2 * (w + 1) + x]) == Some(#[trigger] rows@[y2]@[x]),
            decreases h - y,
        {
            let mut row: Vec<Cuke> = Vec::new();
            let mut x: usize = 0;
            while x < w
                invariant
                    n == s@.len(),
                    s@ == input.spec_bytes(),
                    rectangular(s@, w as int),
                    h * (w + 1) <= n + 1,
                    y < h,
                    x <= w,
                    row@.len() == x,
                    forall|x2: int| 0 <= x2 < x ==> cuke_of(s@[y * (w + 1) + x2]) == Some(#[trigger] row@[x2]),
                decreases w - x,
            {
                proof {
                    assert(y * (w + 1) + x < n) by (nonlinear_arith)
                        requires
                            y < h,
                            x < w,
                            h * (w + 1) <= n + 1,
                    ;
                }
                let b = s[y * (w + 1) + x];
                let c = if b == 62 {
                    Cuke::East
                } else if b == 118 {
                    Cuke::South
                } else if b == 46 {
                    Cuke::Empty
                } else {
                    proof {
                        let k = y * (w + 1) + x;
                        assert(k % (w as int + 1) == x) by (nonlinear_arith)
                            requires
                                k == y * (w + 1) + x,
                                x < w,
                        ;
                        assert(s@[k] != 10);
                        assert(cuke_of(input.spec_bytes()[k]) is None);
                    }
                    return None;
                };
                row.push(c);
                x = x + 1;
            }
            rows.push(row);
            y = y + 1;
        }
        let r = Seabed { cukes: rows };
        proof {
            assert forall|y2: int| 0 <= y2 < r.grid().len() implies (#[trigger] r.grid()[y2]).len() == r.grid()[0].len() by {
                assert(r.grid()[y2] == rows@[y2]@);
            }
            assert forall|y2: int, x: int| 0 <= y2 < r.grid().len() && 0 <= x < w implies cuke_of(
                s@[y2 * (w + 1) + x],
            ) == Some(#[trigger] r.grid()[y2][x]) by {
                assert(r.grid()[y2] == rows@[y2]@);
            }
        }
        Some(r)
    }

    /// The grid as text: each row's cells as `>`, `v` or `.`, then a newline.
    pub fn debug_string(&self) -> (r: String)
        ensures
            r@ == grid_chars(self.grid(), self.grid().len() as int),
    {
        let mut result = String::new();
        let mut y: usize = 0;
        while y < self.cukes.len()
            invariant
                y <= self.grid().len(),
                self.cukes@.len() == self.grid().len(),
                result@ == grid_chars(self.grid(), y as int),
            decreases self.grid().len() - y,
        {
            let row = &self.cukes[y];
            assert(row@ == self.grid()[y as int]);
            let ghost before = result@;
            let mut x: usize = 0;
            while x < row.len()
                invariant
                    x <= row@.len(),
                    result@ == before + row_chars(row@, x as int),
                decreases row@.len() - x,
            {
                proof {
                    reveal_strlit(">");
                    reveal_strlit("v");
                    reveal_strlit(".");
                }
                match row[x] {
                    Cuke::East => result.append(">"),
                    Cuke::South => result.append("v"),
                    Cuke::Empty => result.append("."),
                }
                assert(result@ =~= before + row_chars(row@, x + 1));
                x = x + 1;
            }
            proof {
                reveal_strlit("\n");
            }
            result.append("\n");
            assert(result@ =~= grid_chars(self.grid(), y + 1));
            y = y + 1;
        }
        result
    }

    /// Steps until a step in which no cucumber moves, and returns how many steps
    /// that took (counting that last one); `None` where cucumbers still move in
    /// each of the first `max_steps` steps.
    pub fn steps_to_stopped(&mut self, max_steps: usize) -> (r: Option<usize>)
        requires
            old(self).wf(),
            2 * old(self).grid().len() * old(self).grid()[0].len() <= usize::MAX,
        ensures
            r matches Some(k) ==> 1 <= k <= max_steps && final(self).grid() == stepped_n(old(self).grid(), k as nat)
                && step_moves(stepped_n(old(self).grid(), (k - 1) as nat)) == 0 && forall|i: nat|
                i < k - 1 ==> step_moves(#[trigger] stepped_n(old(self).grid(), i)) != 0,
            r is None ==> forall|i: nat| i < max_steps ==> step_moves(#[trigger] stepped_n(old(self).grid(), i)) != 0,
    {
        let ghost g0 = self.grid();
        let mut count: usize = 0;
        while count < max_steps
            invariant
                g0 == old(self).grid(),
                self.wf(),
                count <= max_steps,
                self.grid().len() == g0.len(),
                self.grid()[0].len() == g0[0].len(),
                2 * g0.len() * g0[0].len() <= usize::MAX,
                self.grid() == stepped_n(g0, count as nat),
                forall|i: nat| i < count ==> step_moves(#[trigger] stepped_n(g0, i)) != 0,
            decreases max_steps - count,
        {
            let ghost before = self.grid();
            let num_moves = self.step();
            proof {
                assert(stepped_n(g0, (count + 1) as nat) == stepped(stepped_n(g0, count as nat)));
                assert(num_moves == step_moves(stepped_n(g0, count as nat)));
            }
            count = count + 1;
            if num_moves == 0 {
                assert(self.grid() == stepped_n(g0, count as nat));
                return Some(count);
            }
        }
        None
    }

    fn set_cell(&mut self, x: usize, y: usize, c: Cuke)
        requires
            y < old(self).cukes@.len(),
            x < old(self).cukes@[y as int]@.len(),
        ensures
            final(self).grid() == old(self).grid().update(y as int, old(self).grid()[y as int].update(x as int, c)),
    {
        let mut row: Vec<Cuke> = Vec::new();
        std::mem::swap(&mut row, &mut self.cukes[y]);
        row.set(x, c);
        std::mem::swap(&mut row, &mut self.cukes[y]);
        assert(self.grid() =~= old(self).grid().update(y as int, old(self).grid()[y as int].update(x as int, c)));
    }

    /// Exchanges the contents of two cells.
    pub fn swap_cukes(&mut self, coord1: (usize, usize), coord2: (usize, usize))
        requires
            old(self).wf(),
            coord1.1 < old(self).grid().len(),
            coord1.0 < old(self).grid()[0].len(),
            coord2.1 < old(self).grid().len(),
            coord2.0 < old(self).grid()[0].len(),
        ensures
            final(self).wf(),
            final(self).grid().len() == old(self).grid().len(),
            forall|y: int, x: int|
                0 <= y < old(self).grid().len() && 0 <= x < old(self).grid()[0].len() ==> #[trigger] final(self).grid()[y][x] == if (x, y) == (coord1.0 as int, coord1.1 as int) {
                    old(self).grid()[coord2.1 as int][coord2.0 as int]
                } else if (x, y) == (coord2.0 as int, coord2.1 as int) {
                    old(self).grid()[coord1.1 as int][coord1.0 as int]
                } else {
                    old(self).grid()[y][x]
                },
    {
        let ghost g0 = self.grid();
        assert(g0[coord1.1 as int] == self.cukes@[coord1.1 as int]@);
        assert(g0[coord2.1 as int] == self.cukes@[coord2.1 as int]@);
        assert(g0[coord1.1 as int].len() == g0[0].len());
        assert(g0[coord2.1 as int].len() == g0[0].len());
        let cuke1 = self.cukes[coord1.1][coord1.0];
        let cuke2 = self.cukes[coord2.1][coord2.0];
        self.set_cell(coord1.0, coord1.1, cuke2);
        let ghost g1 = self.grid();
        assert(g1.len() == g0.len());
        assert(self.cukes@.len() == g1.len());
        assert(g1[coord2.1 as int] == self.cukes@[coord2.1 as int]@);
        self.set_cell(coord2.0, coord2.1, cuke1);
        assert forall|y: int| 0 <= y < self.grid().len() implies (#[trigger] self.grid()[y]).len() == self.grid()[0].len() by {
            assert(g0[y].len() == g0[0].len());
        }
    }
}

} // verus!
