//! Beam-contraption puzzle: a light beam enters the grid, splits on
//! splitters and bends on mirrors; count the energized cells, and find
//! the entry that energizes the most.
use vstd::prelude::*;

use crate::parsing::{byte_views, spec_lines, split_lines};
use vstd::pervasive::VecAdditionalExecFns;
use vstd::string::StringSliceAdditionalSpecFns;

verus! {

#[derive(Debug, PartialEq, Eq, Structural, Clone, Copy)]
pub enum Tile {
    Vertical,
    Horizontal,
    Slash,
    BackSlash,
}

#[derive(Debug, PartialEq, Eq, Structural, Clone, Copy)]
pub enum Direction {
    Top,
    Left,
    Down,
    Right,
}

/// A beam entering the grid: a cell and the direction it travels.
#[derive(Debug, Clone, Copy)]
pub struct LightSource {
    pub start: (usize, usize),
    pub direction: Direction,
}

/// The contraption: raw grid bytes, the width of the last line, and the
/// index of the last line.
pub struct Grid {
    pub cells: Vec<Vec<u8>>,
    pub width: usize,
    pub height: usize,
}

pub open spec fn cells_views(v: Seq<Vec<u8>>) -> Seq<Seq<u8>> {
    Seq::new(v.len(), |i: int| v[i]@)
}

pub open spec fn dir_code(d: Direction) -> int {
    match d {
        Direction::Top => 0,
        Direction::Left => 1,
        Direction::Down => 2,
        Direction::Right => 3,
    }
}

pub open spec fn spec_delta(d: int) -> (int, int) {
    if d == 0 {
        (0, -1)
    } else if d == 1 {
        (-1, 0)
    } else if d == 2 {
        (0, 1)
    } else {
        (1, 0)
    }
}

impl Direction {
    pub fn delta(self) -> (r: (i32, i32))
        ensures
            (r.0 as int, r.1 as int) == spec_delta(dir_code(self)),
    {
        match self {
            Direction::Top => (0, -1),
            Direction::Left => (-1, 0),
            Direction::Down => (0, 1),
            Direction::Right => (1, 0),
        }
    }
}

/// Where a beam travelling `d` continues after this tile.
pub open spec fn spec_reflect(t: Tile, d: int) -> Seq<int> {
    match t {
        Tile::Vertical => if d == 0 || d == 2 {
            seq![d]
        } else {
            seq![0, 2]
        },
        Tile::Horizontal => if d == 1 || d == 3 {
            seq![d]
        } else {
            seq![1, 3]
        },
        Tile::Slash => if d == 0 {
            seq![3]
        } else if d == 1 {
            seq![2]
        } else if d == 2 {
            seq![1]
        } else {
            seq![0]
        },
        Tile::BackSlash => if d == 0 {
            seq![1]
        } else if d == 1 {
            seq![0]
        } else if d == 2 {
            seq![3]
        } else {
            seq![2]
        },
    }
}

fn dir_of_code(c: u8) -> (r: Direction)
    requires
        c < 4,
    ensures
        dir_code(r) == c,
{
    if c == 0 {
        Direction::Top
    } else if c == 1 {
        Direction::Left
    } else if c == 2 {
        Direction::Down
    } else {
        Direction::Right
    }
}

impl Tile {
    /// The directions a beam leaves this tile in.
    pub fn reflect(&self, dir: Direction) -> (r: Vec<Direction>)
        ensures
            r@.len() == spec_reflect(*self, dir_code(dir)).len(),
            forall|i: int|
                0 <= i < r@.len() ==> dir_code(#[trigger] r@[i]) == spec_reflect(
                    *self,
                    dir_code(dir),
                )[i],
    {
        let mut out: Vec<Direction> = Vec::new();
        match self {
            Tile::Vertical => {
                match dir {
                    Direction::Top => out.push(Direction::Top),
                    Direction::Down => out.push(Direction::Down),
                    _ => {
                        out.push(Direction::Top);
                        out.push(Direction::Down);
                    },
                }
            },
            Tile::Horizontal => {
                match dir {
                    Direction::Left => out.push(Direction::Left),
                    Direction::Right => out.push(Direction::Right),
                    _ => {
                        out.push(Direction::Left);
                        out.push(Direction::Right);
                    },
                }
            },
            Tile::Slash => {
                match dir {
                    Direction::Top => out.push(Direction::Right),
                    Direction::Left => out.push(Direction::Down),
                    Direction::Down => out.push(Direction::Left),
                    Direction::Right => out.push(Direction::Top),
                }
            },
            Tile::BackSlash => {
                match dir {
                    Direction::Top => out.push(Direction::Left),
                    Direction::Left => out.push(Direction::Top),
                    Direction::Down => out.push(Direction::Right),
                    Direction::Right => out.push(Direction::Down),
                }
            },
        }
        out
    }
}

/// The tile on a cell byte, if it bends or splits beams.
pub open spec fn tile_of(b: u8) -> Option<Tile> {
    if b == 124 {
        Some(Tile::Vertical)
    } else if b == 45 {
        Some(Tile::Horizontal)
    } else if b == 47 {
        Some(Tile::Slash)
    } else if b == 92 {
        Some(Tile::BackSlash)
    } else {
        None
    }
}

/// The cell byte, an empty cell where the grid holds none.
pub open spec fn cell_at(cells: Seq<Seq<u8>>, x: int, y: int) -> u8 {
    if 0 <= y < cells.len() && 0 <= x < cells[y].len() {
        cells[y][x]
    } else {
        46
    }
}

pub open spec fn in_bounds(w: int, h: int, x: int, y: int) -> bool {
    0 <= x < w && 0 <= y && y <= h
}

/// The beam states one step onward from an in-bounds state.
pub open spec fn next_states(cells: Seq<Seq<u8>>, s: (int, int, int)) -> Seq<(int, int, int)> {
    let (x, y, d) = s;
    match tile_of(cell_at(cells, x, y)) {
        Some(t) => Seq::new(
            spec_reflect(t, d).len(),
            |i: int|
                {
                    let nd = spec_reflect(t, d)[i];
                    let (dx, dy) = spec_delta(nd);
                    (x + dx, y + dy, nd)
                },
        ),
        None => {
            let (dx, dy) = spec_delta(d);
            seq![(x + dx, y + dy, d)]
        },
    }
}

/// The beam states within `n` steps of the entry.
pub open spec fn reach(
    cells: Seq<Seq<u8>>,
    w: int,
    h: int,
    start: (int, int, int),
    n: nat,
) -> Set<(int, int, int)>
    decreases n,
{
    if n == 0 {
        set![start]
    } else {
        reach(cells, w, h, start, (n - 1) as nat).union(
            Set::new(
                |sp: (int, int, int)|
                    exists|s: (int, int, int)|
                        reach(cells, w, h, start, (n - 1) as nat).contains(s) && in_bounds(
                            w,
                            h,
                            s.0,
                            s.1,
                        ) && #[trigger] next_states(cells, s).contains(sp),
            ),
        )
    }
}

pub open spec fn reachable(
    cells: Seq<Seq<u8>>,
    w: int,
    h: int,
    start: (int, int, int),
    s: (int, int, int),
) -> bool {
    exists|n: nat| reach(cells, w, h, start, n).contains(s)
}

/// Whether a beam crosses the cell in any direction.
pub open spec fn cell_lit(
    cells: Seq<Seq<u8>>,
    w: int,
    h: int,
    start: (int, int, int),
    x: int,
    y: int,
) -> bool {
    exists|d: int| 0 <= d < 4 && reachable(cells, w, h, start, (x, y, d))
}

/// How many of the first `x` cells of row `y` are lit.
pub open spec fn row_lit_count(
    cells: Seq<Seq<u8>>,
    w: int,
    h: int,
    start: (int, int, int),
    y: int,
    x: int,
) -> int
    decreases x,
{
    if x <= 0 {
        0
    } else {
        row_lit_count(cells, w, h, start, y, x - 1) + (if cell_lit(cells, w, h, start, x - 1, y) {
            1int
        } else {
            0int
        })
    }
}

/// How many cells of the first `y` rows are lit.
pub open spec fn lit_count(
    cells: Seq<Seq<u8>>,
    w: int,
    h: int,
    start: (int, int, int),
    y: int,
) -> int
    decreases y,
{
    if y <= 0 {
        0
    } else {
        lit_count(cells, w, h, start, y - 1) + row_lit_count(cells, w, h, start, y - 1, w)
    }
}

/// The number of energized cells: every cell some beam state crosses.
pub open spec fn spec_energized(cells: Seq<Seq<u8>>, w: int, h: int, start: (int, int, int)) -> int {
    lit_count(cells, w, h, start, h + 1)
}

/// A grid small enough for the search's state table.
pub open spec fn grid_ok(g_width: int, g_height: int) -> bool {
    0 <= g_width <= 4096 && 0 <= g_height < 4096
}

pub open spec fn count_trues(s: Seq<bool>, i: int) -> int
    decreases i,
{
    if i <= 0 {
        0
    } else {
        count_trues(s, i - 1) + (if s[i - 1] {
            1int
        } else {
            0int
        })
    }
}

proof fn lemma_count_trues_le(s: Seq<bool>, i: int)
    requires
        0 <= i <= s.len(),
    ensures
        0 <= count_trues(s, i) <= i,
    decreases i,
{
    if i > 0 {
        lemma_count_trues_le(s, i - 1);
    }
}

proof fn lemma_count_trues_update(s: Seq<bool>, i: int, k: int)
    requires
        0 <= k < s.len(),
        0 <= i <= s.len(),
        !s[k],
    ensures
        count_trues(s.update(k, true), i) == count_trues(s, i) + (if k < i {
            1int
        } else {
            0int
        }),
    decreases i,
{
    if i > 0 {
        lemma_count_trues_update(s, i - 1, k);
    }
}

/// The state table slot of a beam state.
pub open spec fn state_idx(w: int, s: (int, int, int)) -> int {
    (s.1 * w + s.0) * 4 + s.2
}

/// States an index can stand for are distinct slots.
proof fn lemma_state_idx_inj(w: int, h: int, a: (int, int, int), b: (int, int, int))
    requires
        in_bounds(w, h, a.0, a.1),
        in_bounds(w, h, b.0, b.1),
        0 <= a.2 < 4,
        0 <= b.2 < 4,
        state_idx(w, a) == state_idx(w, b),
        w >= 1,
    ensures
        a == b,
{
    assert((a.1 * w + a.0) * 4 + a.2 == (b.1 * w + b.0) * 4 + b.2);
    assert(a.1 * w + a.0 == b.1 * w + b.0 && a.2 == b.2) by (nonlinear_arith)
        requires
            (a.1 * w + a.0) * 4 + a.2 == (b.1 * w + b.0) * 4 + b.2,
            0 <= a.2 < 4,
            0 <= b.2 < 4,
    ;
    assert(a.1 == b.1 && a.0 == b.0) by (nonlinear_arith)
        requires
            a.1 * w + a.0 == b.1 * w + b.0,
            0 <= a.0 < w,
            0 <= b.0 < w,
    ;
}

proof fn lemma_state_idx_range(w: int, h: int, s: (int, int, int))
    requires
        in_bounds(w, h, s.0, s.1),
        0 <= s.2 < 4,
        w >= 1,
        h >= 0,
    ensures
        0 <= state_idx(w, s) < w * (h + 1) * 4,
{
    assert(0 <= (s.1 * w + s.0) * 4 + s.2 < w * (h + 1) * 4) by (nonlinear_arith)
        requires
            0 <= s.0 < w,
            0 <= s.1 <= h,
            0 <= s.2 < 4,
            w >= 1,
            h >= 0,
    ;
}

/// Every reachable in-bounds state is marked in a table that holds the
/// start and is closed under the step relation.
proof fn lemma_reach_marked(
    cells: Seq<Seq<u8>>,
    w: int,
    h: int,
    start: (int, int, int),
    sv: Seq<bool>,
    n: nat,
)
    requires
        w >= 1,
        h >= 0,
        sv.len() == w * (h + 1) * 4,
        in_bounds(w, h, start.0, start.1) && 0 <= start.2 < 4 ==> sv[state_idx(w, start)],
        forall|s: (int, int, int), sp: (int, int, int)|
            in_bounds(w, h, s.0, s.1) && 0 <= s.2 < 4 && sv[state_idx(w, s)] && #[trigger]
            next_states(cells, s).contains(sp) && in_bounds(w, h, sp.0, sp.1) && 0 <= sp.2 < 4
                ==> sv[state_idx(w, sp)],
        forall|s: (int, int, int)|
            #[trigger] reach(cells, w, h, start, n).contains(s) ==> 0 <= s.2 < 4,
    ensures
        forall|s: (int, int, int)|
            #[trigger] reach(cells, w, h, start, n).contains(s) && in_bounds(w, h, s.0, s.1)
                ==> sv[state_idx(w, s)],
    decreases n,
{
    if n > 0 {
        assert(forall|s: (int, int, int)|
            #[trigger] reach(cells, w, h, start, (n - 1) as nat).contains(s) ==> reach(
                cells,
                w,
                h,
                start,
                n,
            ).contains(s));
        lemma_reach_marked(cells, w, h, start, sv, (n - 1) as nat);
        assert forall|s: (int, int, int)|
            #[trigger] reach(cells, w, h, start, n).contains(s) && in_bounds(w, h, s.0, s.1)
            implies sv[state_idx(w, s)] by {
            if reach(cells, w, h, start, (n - 1) as nat).contains(s) {
            } else {
                let p = choose|p: (int, int, int)|
                    reach(cells, w, h, start, (n - 1) as nat).contains(p) && in_bounds(
                        w,
                        h,
                        p.0,
                        p.1,
                    ) && #[trigger] next_states(cells, p).contains(s);
                assert(reach(cells, w, h, start, n).contains(p));
                assert(0 <= p.2 < 4);
                assert(sv[state_idx(w, p)]);
            }
        }
    }
}

/// Beam states always carry a direction code below four.
proof fn lemma_reach_dirs(cells: Seq<Seq<u8>>, w: int, h: int, start: (int, int, int), n: nat)
    requires
        0 <= start.2 < 4,
    ensures
        forall|s: (int, int, int)|
            #[trigger] reach(cells, w, h, start, n).contains(s) ==> 0 <= s.2 < 4,
    decreases n,
{
    if n > 0 {
        lemma_reach_dirs(cells, w, h, start, (n - 1) as nat);
        assert forall|s: (int, int, int)|
            #[trigger] reach(cells, w, h, start, n).contains(s) implies 0 <= s.2 < 4 by {
            if !reach(cells, w, h, start, (n - 1) as nat).contains(s) {
                let p = choose|p: (int, int, int)|
                    reach(cells, w, h, start, (n - 1) as nat).contains(p) && in_bounds(
                        w,
                        h,
                        p.0,
                        p.1,
                    ) && #[trigger] next_states(cells, p).contains(s);
                assert(0 <= p.2 < 4);
                lemma_next_dirs(cells, p, s);
            }
        }
    }
}

proof fn lemma_next_dirs(cells: Seq<Seq<u8>>, p: (int, int, int), s: (int, int, int))
    requires
        next_states(cells, p).contains(s),
        0 <= p.2 < 4,
    ensures
        0 <= s.2 < 4,
{
    match tile_of(cell_at(cells, p.0, p.1)) {
        Some(t) => {
            let i = choose|i: int|
                0 <= i < next_states(cells, p).len() && next_states(cells, p)[i] == s;
            assert(s.2 == spec_reflect(t, p.2)[i]);
        },
        None => {},
    }
}

/// Every marked state is reachable.
pub open spec fn marks_sound(
    cells: Seq<Seq<u8>>,
    w: int,
    h: int,
    start: (int, int, int),
    sv: Seq<bool>,
) -> bool {
    forall|s: (int, int, int)|
        in_bounds(w, h, s.0, s.1) && 0 <= s.2 < 4 && sv[state_idx(w, s)] ==> #[trigger] reachable(
            cells,
            w,
            h,
            start,
            s,
        )
}

/// A beam state one more step on stays reachable.
proof fn lemma_reach_step(
    cells: Seq<Seq<u8>>,
    w: int,
    h: int,
    start: (int, int, int),
    s: (int, int, int),
    sp: (int, int, int),
)
    requires
        reachable(cells, w, h, start, s),
        in_bounds(w, h, s.0, s.1),
        next_states(cells, s).contains(sp),
    ensures
        reachable(cells, w, h, start, sp),
{
    let n = choose|n: nat| reach(cells, w, h, start, n).contains(s);
    assert(reach(cells, w, h, start, (n + 1) as nat).contains(sp));
}

/// Whether any beam direction is marked at a cell.
pub open spec fn pos_lit_marks(sv: Seq<bool>, w: int, x: int, y: int) -> bool {
    exists|d: int| 0 <= d < 4 && sv[state_idx(w, (x, y, d))]
}

/// The worklist search: follow the beam from the entry, marking every
/// state once, and count the cells any beam crossed.
#[verifier::rlimit(100)]
pub fn solve_for_start_position(source: LightSource, input: &Grid) -> (r: usize)
    requires
        grid_ok(input.width as int, input.height as int),
    ensures
        r == spec_energized(
            cells_views(input.cells@),
            input.width as int,
            input.height as int,
            (source.start.0 as int, source.start.1 as int, dir_code(source.direction)),
        ),
{
    let w = input.width;
    let h = input.height;
    let ghost cv = cells_views(input.cells@);
    let ghost st = (source.start.0 as int, source.start.1 as int, dir_code(source.direction));
    proof {
        assert(w * (h + 1) * 4 <= 0x1000 * 0x1000 * 4 && w * (h + 1) >= w && w * (h + 1) * 4
            >= w * (h + 1)) by (nonlinear_arith)
            requires
                0 <= w <= 0x1000,
                0 <= h < 0x1000,
        ;
    }
    let cap: usize = w * (h + 1) * 4;
    let pcap: usize = w * (h + 1);
    let mut seen: Vec<bool> = Vec::new();
    let mut t: usize = 0;
    while t < cap
        invariant
            seen@.len() == t,
            t <= cap,
            forall|u: int| 0 <= u < t ==> !(#[trigger] seen@[u]),
        decreases cap - t,
    {
        seen.push(false);
        t = t + 1;
    }
    let mut energized: Vec<bool> = Vec::new();
    let mut t2: usize = 0;
    while t2 < pcap
        invariant
            energized@.len() == t2,
            t2 <= pcap,
            forall|u: int| 0 <= u < t2 ==> !(#[trigger] energized@[u]),
        decreases pcap - t2,
    {
        energized.push(false);
        t2 = t2 + 1;
    }
    let mut stack: Vec<(usize, usize, u8)> = Vec::new();
    let mut seen_count: usize = 0;
    let dcode: u8 = match source.direction {
        Direction::Top => 0,
        Direction::Left => 1,
        Direction::Down => 2,
        Direction::Right => 3,
    };
    proof {
        assert(count_trues(seen@, cap as int) == 0) by {
            lemma_count_all_false(seen@, cap as int);
        }
    }
    if source.start.0 < w && source.start.1 <= h {
        proof {
            lemma_state_idx_range(w as int, h as int, st);
            lemma_count_trues_update(seen@, cap as int, state_idx(w as int, st));
        }
        let idx = (source.start.1 * w + source.start.0) * 4 + (dcode as usize);
        seen.set(idx, true);
        seen_count = 1;
        energized.set(source.start.1 * w + source.start.0, true);
        stack.push((source.start.0, source.start.1, dcode));
        proof {
            let ghost sv = seen@;
            assert(reach(cv, w as int, h as int, st, 0).contains(st));
            assert(reachable(cv, w as int, h as int, st, st)) by {
                assert(reach(cv, w as int, h as int, st, 0).contains(st));
            }
            assert(sv[state_idx(w as int, st)]);
            assert forall|s: (int, int, int)|
                in_bounds(w as int, h as int, s.0, s.1) && 0 <= s.2 < 4 && #[trigger] sv[
                state_idx(w as int, s)] implies s == st by {
                lemma_state_idx_range(w as int, h as int, s);
                if state_idx(w as int, s) != state_idx(w as int, st) {
                    assert(!sv[state_idx(w as int, s)]);
                } else {
                    lemma_state_idx_inj(w as int, h as int, s, st);
                }
            }
            assert(stack@[0] == (source.start.0, source.start.1, dcode));
            assert(marks_sound(cv, w as int, h as int, st, seen@));
            assert forall|s: (int, int, int)|
                in_bounds(w as int, h as int, s.0, s.1) && 0 <= s.2 < 4 && #[trigger] seen@[
                state_idx(w as int, s)] implies exists|k: int|
                0 <= k < stack@.len() && (#[trigger] stack@[k]) == (
                s.0 as usize,
                s.1 as usize,
                s.2 as u8,
            ) by {
                assert(s == st);
                assert(stack@[0] == (s.0 as usize, s.1 as usize, s.2 as u8));
            }
            assert forall|x2: int, y2: int| 0 <= x2 < w && 0 <= y2 <= h implies #[trigger]
                energized@[y2 * w + x2] == pos_lit_marks(sv, w as int, x2, y2) by {
                if x2 == st.0 && y2 == st.1 {
                    assert(sv[state_idx(w as int, (x2, y2, st.2))]);
                    assert(energized@[y2 * w + x2]);
                } else {
                    assert(y2 * w + x2 != st.1 * w + st.0 && 0 <= y2 * w + x2 < pcap)
                        by (nonlinear_arith)
                        requires
                            0 <= x2 < w,
                            0 <= st.0 < w,
                            !(x2 == st.0 && y2 == st.1),
                            0 <= y2 <= h,
                            0 <= st.1,
                            pcap == w * (h + 1),
                    ;
                    assert(!energized@[y2 * w + x2]);
                    assert forall|d2: int| 0 <= d2 < 4 implies !(#[trigger] sv[state_idx(
                        w as int,
                        (x2, y2, d2),
                    )]) by {
                        lemma_state_idx_range(w as int, h as int, (x2, y2, d2));
                        if state_idx(w as int, (x2, y2, d2)) == state_idx(w as int, st) {
                            lemma_state_idx_inj(w as int, h as int, (x2, y2, d2), st);
                        }
                    }
                }
            }
        }
    } else {
        proof {
            assert(forall|u: int| 0 <= u < cap ==> !(#[trigger] seen@[u]));
            assert forall|s: (int, int, int)|
                in_bounds(w as int, h as int, s.0, s.1) && 0 <= s.2 < 4 implies !(
            #[trigger] seen@[state_idx(w as int, s)]) by {
                lemma_state_idx_range(w as int, h as int, s);
            }
            assert forall|x2: int, y2: int| 0 <= x2 < w && 0 <= y2 <= h implies #[trigger]
                energized@[y2 * w + x2] == pos_lit_marks(seen@, w as int, x2, y2) by {
                assert(0 <= y2 * w + x2 < pcap) by (nonlinear_arith)
                    requires
                        0 <= x2 < w,
                        0 <= y2 <= h,
                        pcap == w * (h + 1),
                ;
                assert(!energized@[y2 * w + x2]);
                assert forall|d2: int| 0 <= d2 < 4 implies !(#[trigger] seen@[state_idx(
                    w as int,
                    (x2, y2, d2),
                )]) by {
                    lemma_state_idx_range(w as int, h as int, (x2, y2, d2));
                }
            }
        }
    }
    while stack.len() > 0
        invariant
            grid_ok(w as int, h as int),
            cv == cells_views(input.cells@),
            cap == w * (h + 1) * 4,
            pcap == w * (h + 1),
            seen@.len() == cap,
            energized@.len() == pcap,
            seen_count == count_trues(seen@, cap as int),
            seen_count <= cap,
            marks_sound(cv, w as int, h as int, st, seen@),
            in_bounds(w as int, h as int, st.0, st.1) && 0 <= st.2 < 4 ==> seen@[state_idx(
                w as int,
                st,
            )],
            forall|k: int|
                0 <= k < stack@.len() ==> {
                    let e = #[trigger] stack@[k];
                    &&& e.0 < w
                    &&& e.1 <= h
                    &&& e.2 < 4
                    &&& seen@[state_idx(w as int, (e.0 as int, e.1 as int, e.2 as int))]
                },
            forall|s: (int, int, int)|
                in_bounds(w as int, h as int, s.0, s.1) && 0 <= s.2 < 4 && seen@[state_idx(
                    w as int,
                    s,
                )] ==> (exists|k: int|
                    0 <= k < stack@.len() && (#[trigger] stack@[k]) == (
                    s.0 as usize,
                    s.1 as usize,
                    s.2 as u8,
                )) || (forall|sp: (int, int, int)|
                    #[trigger] next_states(cv, s).contains(sp) && in_bounds(
                        w as int,
                        h as int,
                        sp.0,
                        sp.1,
                    ) && 0 <= sp.2 < 4 ==> seen@[state_idx(w as int, sp)]),
            forall|x: int, y: int|
                0 <= x < w && 0 <= y <= h ==> #[trigger] energized@[y * w + x] == pos_lit_marks(
                    seen@,
                    w as int,
                    x,
                    y,
                ),
        decreases 2 * (cap - count_trues(seen@, cap as int)) + stack@.len(),
    {
        let ghost pre_stack = stack@;
        let top = match stack.pop() {
            Some(e) => e,
            None => {
                proof {
                    assert(false);
                }
                (0, 0, 0)
            },
        };
        let (x, y, d) = top;
        let ghost sint = (x as int, y as int, d as int);
        proof {
            assert forall|s: (int, int, int)|
                in_bounds(w as int, h as int, s.0, s.1) && 0 <= s.2 < 4 && #[trigger] seen@[
                state_idx(w as int, s)] && s != sint implies (exists|k: int|
                    0 <= k < stack@.len() && (#[trigger] stack@[k]) == (
                    s.0 as usize,
                    s.1 as usize,
                    s.2 as u8,
                )) || (forall|sp: (int, int, int)|
                    #[trigger] next_states(cv, s).contains(sp) && in_bounds(
                        w as int,
                        h as int,
                        sp.0,
                        sp.1,
                    ) && 0 <= sp.2 < 4 ==> seen@[state_idx(w as int, sp)]) by {
                if exists|k: int|
                    0 <= k < pre_stack.len() && (#[trigger] pre_stack[k]) == (
                    s.0 as usize,
                    s.1 as usize,
                    s.2 as u8,
                ) {
                    let k = choose|k: int|
                        0 <= k < pre_stack.len() && (#[trigger] pre_stack[k]) == (
                        s.0 as usize,
                        s.1 as usize,
                        s.2 as u8,
                        );
                    if k < pre_stack.len() - 1 {
                        assert(stack@[k] == pre_stack[k]);
                    } else {
                        assert((s.0 as usize, s.1 as usize, s.2 as u8) == top);
                        assert(s == sint);
                    }
                }
            }
        }
        // the cell's byte, empty when the grid holds none
        let b: u8 = if y < input.cells.len() && x < input.cells[y].len() {
            proof {
                assert(cv[y as int] == input.cells@[y as int]@);
            }
            input.cells[y][x]
        } else {
            46
        };
        proof {
            assert(b == cell_at(cv, x as int, y as int));
        }
        // the states one step onward
        let mut succs: Vec<(i64, i64, u8)> = Vec::new();
        let tl: Option<Tile> = if b == 124 {
            Some(Tile::Vertical)
        } else if b == 45 {
            Some(Tile::Horizontal)
        } else if b == 47 {
            Some(Tile::Slash)
        } else if b == 92 {
            Some(Tile::BackSlash)
        } else {
            None
        };
        match tl {
            Some(tile) => {
                let dir = dir_of_code(d);
                let outs = tile.reflect(dir);
                let mut q: usize = 0;
                while q < outs.len()
                    invariant
                        0 <= q <= outs@.len(),
                        x < w <= 0x1000,
                        y <= h < 0x1000,
                        sint == (x as int, y as int, d as int),
                        cv == cells_views(input.cells@),
                        outs@.len() == spec_reflect(tile, d as int).len(),
                        forall|i: int|
                            0 <= i < outs@.len() ==> dir_code(#[trigger] outs@[i])
                                == spec_reflect(tile, d as int)[i],
                        tile_of(cell_at(cv, x as int, y as int)) == Some(tile),
                        succs@.len() == q,
                        forall|i: int|
                            0 <= i < q ==> ((#[trigger] succs@[i]).0 as int, succs@[i].1 as int,
                            succs@[i].2 as int) == next_states(cv, sint)[i],
                        forall|i: int| 0 <= i < q ==> (#[trigger] succs@[i]).2 < 4,
                    decreases outs@.len() - q,
                {
                    let nd = outs[q];
                    let (dx, dy) = nd.delta();
                    let sx: i64 = (x as i64) + (dx as i64);
                    let sy: i64 = (y as i64) + (dy as i64);
                    let ndc: u8 = match nd {
                        Direction::Top => 0,
                        Direction::Left => 1,
                        Direction::Down => 2,
                        Direction::Right => 3,
                    };
                    succs.push((sx, sy, ndc));
                    q = q + 1;
                }
            },
            None => {
                let dir = dir_of_code(d);
                let (dx, dy) = dir.delta();
                let sx: i64 = (x as i64) + (dx as i64);
                let sy: i64 = (y as i64) + (dy as i64);
                succs.push((sx, sy, d));
                proof {
                    assert((succs@[0].0 as int, succs@[0].1 as int, succs@[0].2 as int)
                        == next_states(cv, sint)[0]);
                }
            },
        }
        proof {
            assert(succs@.len() == next_states(cv, sint).len());
        }
        // mark and queue the new in-bounds states
        let ghost m0 = 2 * (cap - count_trues(seen@, cap as int)) + stack@.len() + 1;
        let ghost old_seen = seen@;
        let mut j: usize = 0;
        while j < succs.len()
            invariant
                0 <= j <= succs@.len(),
                grid_ok(w as int, h as int),
                cv == cells_views(input.cells@),
                cap == w * (h + 1) * 4,
                pcap == w * (h + 1),
                seen@.len() == cap,
                energized@.len() == pcap,
                seen_count == count_trues(seen@, cap as int),
                seen_count <= cap,
                succs@.len() == next_states(cv, sint).len(),
                forall|i: int|
                    0 <= i < succs@.len() ==> ((#[trigger] succs@[i]).0 as int, succs@[
                    i].1 as int, succs@[i].2 as int) == next_states(cv, sint)[i],
                forall|i: int| 0 <= i < succs@.len() ==> (#[trigger] succs@[i]).2 < 4,
                reachable(cv, w as int, h as int, st, sint),
                in_bounds(w as int, h as int, sint.0, sint.1),
                marks_sound(cv, w as int, h as int, st, seen@),
                in_bounds(w as int, h as int, st.0, st.1) && 0 <= st.2 < 4 ==> seen@[state_idx(
                    w as int,
                    st,
                )],
                forall|k: int|
                    0 <= k < stack@.len() ==> {
                        let e = #[trigger] stack@[k];
                        &&& e.0 < w
                        &&& e.1 <= h
                        &&& e.2 < 4
                        &&& seen@[state_idx(w as int, (e.0 as int, e.1 as int, e.2 as int))]
                    },
                forall|s: (int, int, int)|
                    in_bounds(w as int, h as int, s.0, s.1) && 0 <= s.2 < 4 && #[trigger] seen@[
                    state_idx(w as int, s)] && s != sint ==> (exists|k: int|
                        0 <= k < stack@.len() && (#[trigger] stack@[k]) == (
                        s.0 as usize,
                        s.1 as usize,
                        s.2 as u8,
                    )) || (forall|sp: (int, int, int)|
                        #[trigger] next_states(cv, s).contains(sp) && in_bounds(
                            w as int,
                            h as int,
                            sp.0,
                            sp.1,
                        ) && 0 <= sp.2 < 4 ==> seen@[state_idx(w as int, sp)]),
                forall|i: int|
                    0 <= i < j ==> {
                        let sp = #[trigger] next_states(cv, sint)[i];
                        !(in_bounds(w as int, h as int, sp.0, sp.1) && 0 <= sp.2 < 4) || seen@[
                        state_idx(w as int, sp)]
                    },
                forall|x2: int, y2: int|
                    0 <= x2 < w && 0 <= y2 <= h ==> #[trigger] energized@[y2 * w + x2]
                        == pos_lit_marks(seen@, w as int, x2, y2),
                2 * (cap - count_trues(seen@, cap as int)) + stack@.len() <= m0 - 1,
            decreases succs@.len() - j,
        {
            let (sx, sy, nd) = succs[j];
            proof {
                assert((sx as int, sy as int, nd as int) == next_states(cv, sint)[j as int]);
            }
            if 0 <= sx && sx < w as i64 && 0 <= sy && sy <= h as i64 {
                let ux = sx as usize;
                let uy = sy as usize;
                let ghost spint = (ux as int, uy as int, nd as int);
                proof {
                    lemma_state_idx_range(w as int, h as int, spint);
                    assert(uy * w + ux < pcap && (uy * w + ux) * 4 + nd < cap)
                        by (nonlinear_arith)
                        requires
                            0 <= ux < w,
                            0 <= uy <= h,
                            nd < 4,
                            pcap == w * (h + 1),
                            cap == w * (h + 1) * 4,
                            w >= 1,
                            h >= 0,
                    ;
                }
                let idx = (uy * w + ux) * 4 + (nd as usize);
                if !seen[idx] {
                    proof {
                        lemma_count_trues_update(seen@, cap as int, idx as int);
                        lemma_count_trues_le(seen@, cap as int);
                        assert(next_states(cv, sint).contains(spint)) by {
                            assert(next_states(cv, sint)[j as int] == spint);
                        }
                        lemma_reach_step(cv, w as int, h as int, st, sint, spint);
                    }
                    let ghost s0 = seen@;
                    let ghost e0 = energized@;
                    let ghost k0 = stack@;
                    seen.set(idx, true);
                    seen_count = seen_count + 1;
                    energized.set(uy * w + ux, true);
                    stack.push((ux, uy, nd));
                    proof {
                        lemma_count_trues_le(seen@, cap as int);
                        assert(idx == state_idx(w as int, spint));
                        if in_bounds(w as int, h as int, st.0, st.1) && 0 <= st.2 < 4 {
                            lemma_state_idx_range(w as int, h as int, st);
                        }
                        assert forall|i: int| 0 <= i < j implies {
                            let sp = #[trigger] next_states(cv, sint)[i];
                            !(in_bounds(w as int, h as int, sp.0, sp.1) && 0 <= sp.2 < 4)
                                || seen@[state_idx(w as int, sp)]
                        } by {
                            let sp = next_states(cv, sint)[i];
                            if in_bounds(w as int, h as int, sp.0, sp.1) && 0 <= sp.2 < 4 {
                                lemma_state_idx_range(w as int, h as int, sp);
                                assert(s0[state_idx(w as int, sp)]);
                            }
                        }
                        assert forall|k: int| 0 <= k < stack@.len() implies {
                            let e = #[trigger] stack@[k];
                            &&& e.0 < w
                            &&& e.1 <= h
                            &&& e.2 < 4
                            &&& seen@[state_idx(w as int, (e.0 as int, e.1 as int, e.2 as int))]
                        } by {
                            if k < k0.len() {
                                assert(stack@[k] == k0[k]);
                                let e = k0[k];
                                lemma_state_idx_range(
                                    w as int,
                                    h as int,
                                    (e.0 as int, e.1 as int, e.2 as int),
                                );
                            } else {
                                assert(stack@[k] == (ux, uy, nd));
                            }
                        }
                        assert forall|s: (int, int, int)|
                            in_bounds(w as int, h as int, s.0, s.1) && 0 <= s.2 < 4
                                && #[trigger] seen@[state_idx(w as int, s)] implies s == spint
                            || s0[state_idx(w as int, s)] by {
                            lemma_state_idx_range(w as int, h as int, s);
                            if state_idx(w as int, s) == idx {
                                lemma_state_idx_inj(w as int, h as int, s, spint);
                            }
                        }
                        assert(stack@[stack@.len() - 1] == (ux, uy, nd));
                        assert forall|s: (int, int, int)|
                            in_bounds(w as int, h as int, s.0, s.1) && 0 <= s.2 < 4
                                && #[trigger] seen@[state_idx(w as int, s)] && s != sint implies (
                        exists|k: int|
                            0 <= k < stack@.len() && (#[trigger] stack@[k]) == (
                            s.0 as usize,
                            s.1 as usize,
                            s.2 as u8,
                        )) || (forall|sp: (int, int, int)|
                            #[trigger] next_states(cv, s).contains(sp) && in_bounds(
                                w as int,
                                h as int,
                                sp.0,
                                sp.1,
                            ) && 0 <= sp.2 < 4 ==> seen@[state_idx(w as int, sp)]) by {
                            if s == spint {
                                assert(stack@[stack@.len() - 1] == (
                                    s.0 as usize,
                                    s.1 as usize,
                                    s.2 as u8,
                                ));
                            } else {
                                lemma_state_idx_range(w as int, h as int, s);
                                assert(s0[state_idx(w as int, s)]);
                                if exists|k: int|
                                    0 <= k < k0.len() && (#[trigger] k0[k]) == (
                                    s.0 as usize,
                                    s.1 as usize,
                                    s.2 as u8,
                                ) {
                                    let k = choose|k: int|
                                        0 <= k < k0.len() && (#[trigger] k0[k]) == (
                                        s.0 as usize,
                                        s.1 as usize,
                                        s.2 as u8,
                                        );
                                    assert(stack@[k] == k0[k]);
                                } else {
                                    assert forall|sp: (int, int, int)|
                                        #[trigger] next_states(cv, s).contains(sp) && in_bounds(
                                            w as int,
                                            h as int,
                                            sp.0,
                                            sp.1,
                                        ) && 0 <= sp.2 < 4 implies seen@[state_idx(
                                        w as int,
                                        sp,
                                    )] by {
                                        lemma_state_idx_range(w as int, h as int, sp);
                                        assert(s0[state_idx(w as int, sp)]);
                                    }
                                }
                            }
                        }
                        assert forall|x2: int, y2: int|
                            0 <= x2 < w && 0 <= y2 <= h implies #[trigger] energized@[y2 * w
                            + x2] == pos_lit_marks(seen@, w as int, x2, y2) by {
                            if x2 == ux && y2 == uy {
                                assert(energized@[y2 * w + x2]);
                                assert(seen@[state_idx(w as int, (x2, y2, nd as int))]);
                                assert(pos_lit_marks(seen@, w as int, x2, y2));
                            } else {
                                assert(y2 * w + x2 != uy * w + ux && 0 <= y2 * w + x2
                                    < pcap) by (nonlinear_arith)
                                    requires
                                        0 <= x2 < w,
                                        0 <= ux < w,
                                        !(x2 == ux && y2 == uy),
                                        0 <= y2 <= h,
                                        0 <= uy,
                                        pcap == w * (h + 1),
                                ;
                                assert(energized@[y2 * w + x2] == e0[y2 * w + x2]);
                                assert forall|d2: int| 0 <= d2 < 4 implies #[trigger] seen@[
                                state_idx(w as int, (x2, y2, d2))] == s0[state_idx(
                                    w as int,
                                    (x2, y2, d2),
                                )] by {
                                    lemma_state_idx_range(w as int, h as int, (x2, y2, d2));
                                    if state_idx(w as int, (x2, y2, d2)) == idx {
                                        lemma_state_idx_inj(
                                            w as int,
                                            h as int,
                                            (x2, y2, d2),
                                            spint,
                                        );
                                    }
                                }
                                assert(pos_lit_marks(seen@, w as int, x2, y2) == pos_lit_marks(
                                    s0,
                                    w as int,
                                    x2,
                                    y2,
                                ));
                            }
                        }
                    }
                }
            }
            j = j + 1;
        }
        proof {
            assert forall|sp: (int, int, int)|
                #[trigger] next_states(cv, sint).contains(sp) && in_bounds(
                    w as int,
                    h as int,
                    sp.0,
                    sp.1,
                ) && 0 <= sp.2 < 4 implies seen@[state_idx(w as int, sp)] by {
                let i = choose|i: int|
                    0 <= i < next_states(cv, sint).len() && next_states(cv, sint)[i] == sp;
            }
        }
    }
    // with the worklist empty, the marks cover exactly the reachable states
    proof {
        assert forall|x2: int, y2: int| 0 <= x2 < w && 0 <= y2 <= h implies #[trigger]
            energized@[y2 * w + x2] == cell_lit(cv, w as int, h as int, st, x2, y2) by {
            if energized@[y2 * w + x2] {
                let d2 = choose|d2: int|
                    0 <= d2 < 4 && seen@[state_idx(w as int, (x2, y2, d2))];
                assert(reachable(cv, w as int, h as int, st, (x2, y2, d2)));
                assert(cell_lit(cv, w as int, h as int, st, x2, y2));
            }
            if cell_lit(cv, w as int, h as int, st, x2, y2) {
                let d2 = choose|d2: int|
                    0 <= d2 < 4 && reachable(cv, w as int, h as int, st, (x2, y2, d2));
                let n = choose|n: nat|
                    reach(cv, w as int, h as int, st, n).contains((x2, y2, d2));
                lemma_reach_dirs(cv, w as int, h as int, st, n);
                lemma_reach_marked(cv, w as int, h as int, st, seen@, n);
                assert(seen@[state_idx(w as int, (x2, y2, d2))]);
                assert(pos_lit_marks(seen@, w as int, x2, y2));
            }
        }
    }
    let ghost lit_now = energized@;
    let mut acc: usize = 0;
    let mut yy: usize = 0;
    while yy <= h
        invariant
            yy <= h + 1,
            grid_ok(w as int, h as int),
            cv == cells_views(input.cells@),
            pcap == w * (h + 1),
            energized@ == lit_now,
            energized@.len() == pcap,
            forall|x2: int, y2: int|
                0 <= x2 < w && 0 <= y2 <= h ==> #[trigger] energized@[y2 * w + x2] == cell_lit(
                    cv,
                    w as int,
                    h as int,
                    st,
                    x2,
                    y2,
                ),
            acc == lit_count(cv, w as int, h as int, st, yy as int),
            acc <= yy * w,
        decreases h + 1 - yy,
    {
        let mut xx: usize = 0;
        proof {
            assert(yy * w + w <= pcap && yy * w >= 0) by (nonlinear_arith)
                requires
                    0 <= yy <= h,
                    w >= 0,
                    pcap == w * (h + 1),
            ;
        }
        while xx < w
            invariant
                xx <= w,
                yy <= h,
                grid_ok(w as int, h as int),
                cv == cells_views(input.cells@),
                pcap == w * (h + 1),
                energized@ == lit_now,
                energized@.len() == pcap,
                yy * w + w <= pcap,
                0 <= yy * w,
                forall|x2: int, y2: int|
                    0 <= x2 < w && 0 <= y2 <= h ==> #[trigger] energized@[y2 * w + x2]
                        == cell_lit(cv, w as int, h as int, st, x2, y2),
                acc == lit_count(cv, w as int, h as int, st, yy as int) + row_lit_count(
                    cv,
                    w as int,
                    h as int,
                    st,
                    yy as int,
                    xx as int,
                ),
                acc <= yy * w + xx,
            decreases w - xx,
        {
            if energized[yy * w + xx] {
                acc = acc + 1;
            }
            xx = xx + 1;
        }
        proof {
            assert(acc <= (yy + 1) * w) by (nonlinear_arith)
                requires
                    acc <= yy * w + w,
            ;
        }
        yy = yy + 1;
    }
    acc
}

proof fn lemma_count_all_false(s: Seq<bool>, i: int)
    requires
        0 <= i <= s.len(),
        forall|u: int| 0 <= u < s.len() ==> !(#[trigger] s[u]),
    ensures
        count_trues(s, i) == 0,
    decreases i,
{
    if i > 0 {
        lemma_count_all_false(s, i - 1);
    }
}

/// The beam entry for the strongest-beam search, family by family:
/// rightward from the left edge, upward from the bottom row, leftward
/// from the right edge, downward from the top row.
pub open spec fn start_of(fam: int, w: int, h: int, i: int) -> (int, int, int) {
    if fam == 0 {
        (0, i, 3)
    } else if fam == 1 {
        (i, h - 1, 0)
    } else if fam == 2 {
        (w - 1, i, 1)
    } else {
        (i, 0, 2)
    }
}

pub open spec fn fam_count(fam: int, w: int, h: int) -> int {
    if fam == 0 || fam == 2 {
        h
    } else {
        w
    }
}

/// The best energized count among the first `i` entries of a family.
pub open spec fn fam_max(cells: Seq<Seq<u8>>, w: int, h: int, fam: int, i: int) -> Option<int>
    decreases i,
{
    if i <= 0 {
        None
    } else {
        let v = spec_energized(cells, w, h, start_of(fam, w, h, i - 1));
        match fam_max(cells, w, h, fam, i - 1) {
            Some(b) => if v > b {
                Some(v)
            } else {
                Some(b)
            },
            None => Some(v),
        }
    }
}

pub open spec fn opt_max(a: Option<int>, b: Option<int>) -> Option<int> {
    match (a, b) {
        (Some(x), Some(y)) => if y > x {
            Some(y)
        } else {
            Some(x)
        },
        (Some(x), None) => Some(x),
        (None, y) => y,
    }
}

/// The strongest entry over all four families.
pub open spec fn spec_part2(cells: Seq<Seq<u8>>, w: int, h: int) -> Option<int> {
    opt_max(
        opt_max(
            opt_max(fam_max(cells, w, h, 0, h), fam_max(cells, w, h, 1, w)),
            fam_max(cells, w, h, 2, h),
        ),
        fam_max(cells, w, h, 3, w),
    )
}

/// A beam that enters outside the grid goes nowhere.
proof fn lemma_reach_stuck(cells: Seq<Seq<u8>>, w: int, h: int, start: (int, int, int), n: nat)
    requires
        !in_bounds(w, h, start.0, start.1),
    ensures
        forall|s: (int, int, int)|
            #[trigger] reach(cells, w, h, start, n).contains(s) ==> s == start,
    decreases n,
{
    if n > 0 {
        lemma_reach_stuck(cells, w, h, start, (n - 1) as nat);
        assert forall|s: (int, int, int)|
            #[trigger] reach(cells, w, h, start, n).contains(s) implies s == start by {
            if !reach(cells, w, h, start, (n - 1) as nat).contains(s) {
                let p = choose|p: (int, int, int)|
                    reach(cells, w, h, start, (n - 1) as nat).contains(p) && in_bounds(
                        w,
                        h,
                        p.0,
                        p.1,
                    ) && #[trigger] next_states(cells, p).contains(s);
                assert(p == start);
                assert(false);
            }
        }
    }
}

proof fn lemma_row_zero(cells: Seq<Seq<u8>>, w: int, h: int, start: (int, int, int), y: int, x: int)
    requires
        !in_bounds(w, h, start.0, start.1),
        0 <= y <= h,
        x <= w,
    ensures
        row_lit_count(cells, w, h, start, y, x) == 0,
    decreases x,
{
    if x > 0 {
        lemma_row_zero(cells, w, h, start, y, x - 1);
        assert(!cell_lit(cells, w, h, start, x - 1, y)) by {
            if cell_lit(cells, w, h, start, x - 1, y) {
                let d = choose|d: int|
                    0 <= d < 4 && #[trigger] reachable(cells, w, h, start, (x - 1, y, d));
                let n = choose|n: nat| reach(cells, w, h, start, n).contains((x - 1, y, d));
                lemma_reach_stuck(cells, w, h, start, n);
                assert((x - 1, y, d) == start);
                assert(in_bounds(w, h, start.0, start.1));
            }
        }
    }
}

proof fn lemma_lit_zero(cells: Seq<Seq<u8>>, w: int, h: int, start: (int, int, int), y: int)
    requires
        !in_bounds(w, h, start.0, start.1),
        y <= h + 1,
    ensures
        lit_count(cells, w, h, start, y) == 0,
    decreases y,
{
    if y > 0 {
        lemma_lit_zero(cells, w, h, start, y - 1);
        lemma_row_zero(cells, w, h, start, y - 1, w);
    }
}

/// On a single-row grid, every top-family entry starts above the grid
/// and energizes nothing.
proof fn lemma_fam1_zero(cells: Seq<Seq<u8>>, w: int, i: int)
    requires
        0 <= i <= w,
    ensures
        fam_max(cells, w, 0, 1, i) == (if i <= 0 {
            None::<int>
        } else {
            Some(0int)
        }),
    decreases i,
{
    if i > 0 {
        lemma_fam1_zero(cells, w, i - 1);
        let st = start_of(1, w, 0, i - 1);
        assert(!in_bounds(w, 0, st.0, st.1));
        lemma_lit_zero(cells, w, 0, st, 1);
        assert(spec_energized(cells, w, 0, st) == 0);
    }
}

/// The cells a beam entering at the top left heading right energizes.
pub fn part1(input: &Grid) -> (r: usize)
    requires
        grid_ok(input.width as int, input.height as int),
    ensures
        r == spec_energized(
            cells_views(input.cells@),
            input.width as int,
            input.height as int,
            (0, 0, 3),
        ),
{
    solve_for_start_position(
        LightSource { start: (0, 0), direction: Direction::Right },
        input,
    )
}

fn fam_best(input: &Grid, fam: u8) -> (r: Option<usize>)
    requires
        grid_ok(input.width as int, input.height as int),
        1 <= input.width,
        fam == 1 ==> 1 <= input.height,
        fam < 4,
    ensures
        ({
            let cv = cells_views(input.cells@);
            let w = input.width as int;
            let h = input.height as int;
            match r {
                Some(v) => fam_max(cv, w, h, fam as int, fam_count(fam as int, w, h)) == Some(
                    v as int,
                ),
                None => fam_max(cv, w, h, fam as int, fam_count(fam as int, w, h)) is None,
            }
        }),
{
    let ghost cv = cells_views(input.cells@);
    let w = input.width;
    let h = input.height;
    let count: usize = if fam == 0 || fam == 2 {
        h
    } else {
        w
    };
    let mut best: Option<usize> = None;
    let mut i: usize = 0;
    while i < count
        invariant
            0 <= i <= count,
            grid_ok(w as int, h as int),
            1 <= w,
            fam == 1 ==> 1 <= h,
            fam < 4,
            w == input.width,
            h == input.height,
            cv == cells_views(input.cells@),
            count == fam_count(fam as int, w as int, h as int),
            match best {
                Some(b) => fam_max(cv, w as int, h as int, fam as int, i as int) == Some(
                    b as int,
                ),
                None => i == 0,
            },
        decreases count - i,
    {
        let source = if fam == 0 {
            LightSource { start: (0, i), direction: Direction::Right }
        } else if fam == 1 {
            LightSource { start: (i, h - 1), direction: Direction::Top }
        } else if fam == 2 {
            LightSource { start: (w - 1, i), direction: Direction::Left }
        } else {
            LightSource { start: (i, 0), direction: Direction::Down }
        };
        proof {
            assert((source.start.0 as int, source.start.1 as int, dir_code(source.direction))
                == start_of(fam as int, w as int, h as int, i as int));
        }
        let v = solve_for_start_position(source, input);
        best = match best {
            Some(b) => {
                if v > b {
                    Some(v)
                } else {
                    Some(b)
                }
            },
            None => Some(v),
        };
        i = i + 1;
    }
    best
}

/// The best energized count over every edge entry.
pub fn part2(input: &Grid) -> (r: Option<usize>)
    requires
        grid_ok(input.width as int, input.height as int),
        1 <= input.width,
    ensures
        ({
            let sp = spec_part2(
                cells_views(input.cells@),
                input.width as int,
                input.height as int,
            );
            match r {
                Some(v) => sp == Some(v as int),
                None => sp is None,
            }
        }),
{
    let a = fam_best(input, 0);
    // with a single row the whole top family enters above the grid and
    // energizes nothing, so its best is zero
    let b = if input.height >= 1 {
        fam_best(input, 1)
    } else {
        proof {
            lemma_fam1_zero(
                cells_views(input.cells@),
                input.width as int,
                input.width as int,
            );
        }
        Some(0)
    };
    let c = fam_best(input, 2);
    let d = fam_best(input, 3);
    let ab = match (a, b) {
        (Some(x), Some(y)) => Some(
            if y > x {
                y
            } else {
                x
            },
        ),
        (Some(x), None) => Some(x),
        (None, y) => y,
    };
    let abc = match (ab, c) {
        (Some(x), Some(y)) => Some(
            if y > x {
                y
            } else {
                x
            },
        ),
        (Some(x), None) => Some(x),
        (None, y) => y,
    };
    match (abc, d) {
        (Some(x), Some(y)) => Some(
            if y > x {
                y
            } else {
                x
            },
        ),
        (Some(x), None) => Some(x),
        (None, y) => y,
    }
}

/// Whether a byte draws a contraption cell.
pub open spec fn cell_byte_ok(b: u8) -> bool {
    b == 124 || b == 45 || b == 47 || b == 92 || b == 46
}

pub open spec fn grid_lines_ok(ls: Seq<Seq<u8>>) -> bool {
    forall|j: int, i: int|
        0 <= j < ls.len() && 0 <= i < ls[j].len() ==> cell_byte_ok(#[trigger] ls[j][i])
}

/// The grid; `None` on a byte that draws nothing.
pub fn parse(input: &str) -> (r: Option<Grid>)
    ensures
        ({
            let ls = spec_lines(input.spec_bytes());
            match r {
                Some(g) => {
                    &&& grid_lines_ok(ls)
                    &&& cells_views(g.cells@) == ls
                    &&& g.width as int == (if ls.len() == 0 {
                        0int
                    } else {
                        ls.last().len() as int
                    })
                    &&& g.height as int == (if ls.len() == 0 {
                        0int
                    } else {
                        ls.len() - 1
                    })
                },
                None => !grid_lines_ok(ls) || ls.len() > usize::MAX,
            }
        }),
{
    let bytes = input.as_bytes();
    let lines = split_lines(bytes);
    let ghost lv = spec_lines(input.spec_bytes());
    proof {
        assert(lv.len() == lines@.len());
    }
    let mut width: usize = 0;
    let mut j: usize = 0;
    while j < lines.len()
        invariant
            0 <= j <= lines@.len(),
            lv == spec_lines(input.spec_bytes()),
            byte_views(lines@) == lv,
            forall|t: int, i: int|
                0 <= t < j && 0 <= i < lv[t].len() ==> cell_byte_ok(#[trigger] lv[t][i]),
            j > 0 ==> width == lv[j - 1].len(),
            j == 0 ==> width == 0,
        decreases lines@.len() - j,
    {
        let line = &lines[j];
        proof {
            assert(lv[j as int] == lines@[j as int]@);
        }
        let mut i: usize = 0;
        while i < line.len()
            invariant
                0 <= i <= line@.len(),
                0 <= j < lv.len(),
                lv == spec_lines(input.spec_bytes()),
                line@ == lv[j as int],
                forall|t: int| 0 <= t < i ==> cell_byte_ok(#[trigger] line@[t]),
            decreases line@.len() - i,
        {
            let b = line[i];
            if !(b == 124 || b == 45 || b == 47 || b == 92 || b == 46) {
                assert(!cell_byte_ok(lv[j as int][i as int]));
                return None;
            }
            i = i + 1;
        }
        width = line.len();
        j = j + 1;
    }
    let height: usize = if lines.len() == 0 {
        0
    } else {
        lines.len() - 1
    };
    proof {
        assert(cells_views(lines@) =~= lv);
        if lv.len() > 0 {
            assert(lv.last() == lv[lv.len() - 1]);
        }
    }
    Some(Grid { cells: lines, width, height })
}

} // verus!
