//! Pipe-maze puzzle: a loop of pipes runs through the start tile; find
//! the farthest point along the loop, and count the tiles enclosed by it.
//!
//! Walks are total: a step off the 32-bit rim stays put, and a counted
//! crossing on a missing tile counts nothing, so even a broken maze gets
//! an answer instead of an error.
use vstd::prelude::*;

use crate::parsing::{spec_lines, split_lines};
use vstd::pervasive::VecAdditionalExecFns;
use vstd::string::StringSliceAdditionalSpecFns;

verus! {

#[derive(Debug, PartialEq, Eq, Structural, Clone, Copy)]
pub enum Tile {
    Vertical,
    Horizontal,
    L,
    J,
    Seven,
    F,
    Start,
}

#[derive(Debug, PartialEq, Eq, Structural, Clone, Copy)]
pub enum Direction {
    North,
    East,
    South,
    West,
}

pub open spec fn spec_rev(d: Direction) -> Direction {
    match d {
        Direction::East => Direction::West,
        Direction::West => Direction::East,
        Direction::South => Direction::North,
        Direction::North => Direction::South,
    }
}

/// A step in a direction, stopping at the 32-bit rim.
pub open spec fn spec_move(d: Direction, x: i32, y: i32) -> (i32, i32) {
    match d {
        Direction::East => (if x < i32::MAX {
            (x + 1) as i32
        } else {
            x
        }, y),
        Direction::West => (if x > i32::MIN {
            (x - 1) as i32
        } else {
            x
        }, y),
        Direction::South => (x, if y < i32::MAX {
            (y + 1) as i32
        } else {
            y
        }),
        Direction::North => (x, if y > i32::MIN {
            (y - 1) as i32
        } else {
            y
        }),
    }
}

impl Direction {
    /// The cell one step onward.
    pub fn move_from(&self, pos: (i32, i32)) -> (r: (i32, i32))
        ensures
            r == spec_move(*self, pos.0, pos.1),
    {
        let (x, y) = pos;
        match self {
            Direction::East => (
                if x < i32::MAX {
                    x + 1
                } else {
                    x
                },
                y,
            ),
            Direction::West => (
                if x > i32::MIN {
                    x - 1
                } else {
                    x
                },
                y,
            ),
            Direction::South => (
                x,
                if y < i32::MAX {
                    y + 1
                } else {
                    y
                },
            ),
            Direction::North => (
                x,
                if y > i32::MIN {
                    y - 1
                } else {
                    y
                },
            ),
        }
    }

    pub fn rev(self) -> (r: Direction)
        ensures
            r == spec_rev(self),
    {
        match self {
            Direction::East => Direction::West,
            Direction::West => Direction::East,
            Direction::South => Direction::North,
            Direction::North => Direction::South,
        }
    }
}

/// The two openings of a pipe tile; the start tile has none of its own.
pub open spec fn spec_connections(t: Tile) -> (Direction, Direction) {
    match t {
        Tile::Vertical => (Direction::North, Direction::South),
        Tile::Horizontal => (Direction::West, Direction::East),
        Tile::L => (Direction::North, Direction::East),
        Tile::J => (Direction::North, Direction::West),
        Tile::Seven => (Direction::South, Direction::West),
        Tile::F => (Direction::South, Direction::East),
        Tile::Start => (Direction::North, Direction::North),
    }
}

/// Where a pipe leads when entered from one side.
pub open spec fn spec_next_direction(t: Tile, coming_from: Direction) -> Option<Direction> {
    let (c1, c2) = spec_connections(t);
    if c1 == coming_from {
        Some(c2)
    } else if c2 == coming_from {
        Some(c1)
    } else {
        None
    }
}

impl Tile {
    /// The two openings of the pipe.
    pub fn connections(&self) -> (r: (Direction, Direction))
        requires
            *self != Tile::Start,
        ensures
            r == spec_connections(*self),
    {
        match self {
            Tile::Vertical => (Direction::North, Direction::South),
            Tile::Horizontal => (Direction::West, Direction::East),
            Tile::L => (Direction::North, Direction::East),
            Tile::J => (Direction::North, Direction::West),
            Tile::Seven => (Direction::South, Direction::West),
            Tile::F => (Direction::South, Direction::East),
            Tile::Start => (Direction::North, Direction::North),
        }
    }

    pub fn next_direction(&self, coming_from: Direction) -> (r: Option<Direction>)
        requires
            *self != Tile::Start,
        ensures
            r == spec_next_direction(*self, coming_from),
    {
        let (c1, c2) = self.connections();
        if c1 == coming_from {
            Some(c2)
        } else if c2 == coming_from {
            Some(c1)
        } else {
            None
        }
    }
}

/// The pipe drawn on a byte, if any.
pub open spec fn tile_of(b: u8) -> Option<Tile> {
    if b == 124 {
        Some(Tile::Vertical)
    } else if b == 45 {
        Some(Tile::Horizontal)
    } else if b == 76 {
        Some(Tile::L)
    } else if b == 74 {
        Some(Tile::J)
    } else if b == 55 {
        Some(Tile::Seven)
    } else if b == 70 {
        Some(Tile::F)
    } else if b == 83 {
        Some(Tile::Start)
    } else {
        None
    }
}

pub open spec fn tile_at(cells: Seq<Seq<u8>>, x: int, y: int) -> Option<Tile> {
    if 0 <= y < cells.len() && 0 <= x < cells[y].len() {
        tile_of(cells[y][x])
    } else {
        None
    }
}

fn tile_at_exec(cells: &Vec<Vec<u8>>, x: i32, y: i32) -> (r: Option<Tile>)
    ensures
        r == tile_at(cells_views(cells@), x as int, y as int),
{
    if y >= 0 && x >= 0 && (y as usize) < cells.len() && (x as usize) < cells[y as usize].len() {
        proof {
            assert(cells_views(cells@)[y as int] == cells@[y as int]@);
        }
        let b = cells[y as usize][x as usize];
        if b == 124 {
            Some(Tile::Vertical)
        } else if b == 45 {
            Some(Tile::Horizontal)
        } else if b == 76 {
            Some(Tile::L)
        } else if b == 74 {
            Some(Tile::J)
        } else if b == 55 {
            Some(Tile::Seven)
        } else if b == 70 {
            Some(Tile::F)
        } else if b == 83 {
            Some(Tile::Start)
        } else {
            None
        }
    } else {
        None
    }
}

pub open spec fn cells_views(v: Seq<Vec<u8>>) -> Seq<Seq<u8>> {
    Seq::new(v.len(), |i: int| v[i]@)
}

/// One walking step: stop on a missing tile, the start tile, or a pipe
/// that does not open towards us; else move through and remember where
/// the next tile is entered from.
pub open spec fn spec_step(cells: Seq<Seq<u8>>, pos: (i32, i32), from: Direction) -> Option<
    ((i32, i32), Direction),
> {
    match tile_at(cells, pos.0 as int, pos.1 as int) {
        Some(t) => {
            if t == Tile::Start {
                None
            } else {
                match spec_next_direction(t, from) {
                    Some(d) => Some((spec_move(d, pos.0, pos.1), spec_rev(d))),
                    None => None,
                }
            }
        },
        None => None,
    }
}

pub fn follow_step(cells: &Vec<Vec<u8>>, pos: (i32, i32), from: Direction) -> (r: Option<
    ((i32, i32), Direction),
>)
    ensures
        r == spec_step(cells_views(cells@), pos, from),
{
    match tile_at_exec(cells, pos.0, pos.1) {
        Some(t) => {
            if t == Tile::Start {
                None
            } else {
                match t.next_direction(from) {
                    Some(d) => Some((d.move_from(pos), d.rev())),
                    None => None,
                }
            }
        },
        None => None,
    }
}

/// The walker's state after `n` steps, `None` once it stopped.
pub open spec fn walk(
    cells: Seq<Seq<u8>>,
    pos: (i32, i32),
    from: Direction,
    n: nat,
) -> Option<((i32, i32), Direction)>
    decreases n,
{
    if n == 0 {
        Some((pos, from))
    } else {
        match walk(cells, pos, from, (n - 1) as nat) {
            Some((p, f)) => spec_step(cells, p, f),
            None => None,
        }
    }
}

/// The first start tile, scanning rows top to bottom, left to right.
pub open spec fn row_first_s(line: Seq<u8>, i: int) -> Option<int>
    decreases i,
{
    if i <= 0 {
        None
    } else {
        match row_first_s(line, i - 1) {
            Some(k) => Some(k),
            None => if line[i - 1] == 83 {
                Some(i - 1)
            } else {
                None
            },
        }
    }
}

pub open spec fn find_start(cells: Seq<Seq<u8>>, j: int) -> Option<(int, int)>
    decreases j,
{
    if j <= 0 {
        None
    } else {
        match find_start(cells, j - 1) {
            Some(p) => Some(p),
            None => match row_first_s(cells[j - 1], cells[j - 1].len() as int) {
                Some(x) => Some((x, j - 1)),
                None => None,
            },
        }
    }
}

/// The four neighbouring cells, each with the side our pipe would be
/// entered from.
pub open spec fn spec_neighbors(pos: (i32, i32)) -> Seq<((i32, i32), Direction)> {
    seq![
        (spec_move(Direction::East, pos.0, pos.1), Direction::West),
        (spec_move(Direction::West, pos.0, pos.1), Direction::East),
        (spec_move(Direction::South, pos.0, pos.1), Direction::North),
        (spec_move(Direction::North, pos.0, pos.1), Direction::South),
    ]
}

pub fn neighbors(pos: (i32, i32)) -> (r: Vec<((i32, i32), Direction)>)
    ensures
        r@ == spec_neighbors(pos),
{
    let mut out: Vec<((i32, i32), Direction)> = Vec::new();
    out.push((Direction::East.move_from(pos), Direction::West));
    out.push((Direction::West.move_from(pos), Direction::East));
    out.push((Direction::South.move_from(pos), Direction::North));
    out.push((Direction::North.move_from(pos), Direction::South));
    proof {
        assert(out@ =~= spec_neighbors(pos));
    }
    out
}

/// The neighbours whose pipe opens towards the start.
pub open spec fn start_neighbors(cells: Seq<Seq<u8>>, pos: (i32, i32), i: int) -> Seq<
    ((i32, i32), Direction),
>
    decreases i,
{
    if i <= 0 {
        Seq::empty()
    } else {
        let front = start_neighbors(cells, pos, i - 1);
        let (np, fr) = spec_neighbors(pos)[i - 1];
        match tile_at(cells, np.0 as int, np.1 as int) {
            Some(t) => {
                if t != Tile::Start && spec_next_direction(t, fr) is Some {
                    front.push((np, fr))
                } else {
                    front
                }
            },
            None => front,
        }
    }
}

fn start_neighbors_exec(cells: &Vec<Vec<u8>>, pos: (i32, i32)) -> (r: Vec<
    ((i32, i32), Direction),
>)
    ensures
        r@ == start_neighbors(cells_views(cells@), pos, 4),
{
    let ghost cv = cells_views(cells@);
    let ns = neighbors(pos);
    let mut out: Vec<((i32, i32), Direction)> = Vec::new();
    let mut i: usize = 0;
    proof {
        assert(out@ =~= start_neighbors(cv, pos, 0));
    }
    while i < 4
        invariant
            0 <= i <= 4,
            cv == cells_views(cells@),
            ns@ == spec_neighbors(pos),
            out@ == start_neighbors(cv, pos, i as int),
        decreases 4 - i,
    {
        let (np, fr) = ns[i];
        match tile_at_exec(cells, np.0, np.1) {
            Some(t) => {
                if t != Tile::Start {
                    match t.next_direction(fr) {
                        Some(_) => {
                            out.push((np, fr));
                        },
                        None => {},
                    }
                }
            },
            None => {},
        }
        i = i + 1;
    }
    out
}

/// How far the search is willing to walk.
pub open spec fn walk_cap() -> int {
    0x4000002
}

/// The first step at which the two walkers stand on the same cell.
pub open spec fn meet_from(
    cells: Seq<Seq<u8>>,
    a: ((i32, i32), Direction),
    b: ((i32, i32), Direction),
    i: int,
) -> Option<int>
    decreases walk_cap() - i,
{
    if !(0 <= i < walk_cap()) {
        None
    } else {
        match (walk(cells, a.0, a.1, (i + 1) as nat), walk(cells, b.0, b.1, (i + 1) as nat)) {
            (Some((pa, fa)), Some((pb, fb))) => {
                if pa == pb {
                    Some(i)
                } else {
                    meet_from(cells, a, b, i + 1)
                }
            },
            _ => None,
        }
    }
}

/// What the farthest-point search returns: the meeting step plus the two
/// steps that reached the first neighbours.
pub open spec fn spec_part1(cells: Seq<Seq<u8>>) -> Option<int> {
    match find_start(cells, cells.len() as int) {
        Some((sx, sy)) => {
            let ns = start_neighbors(cells, (sx as i32, sy as i32), 4);
            if ns.len() != 2 {
                None
            } else {
                match meet_from(cells, ns[0], ns[1], 0) {
                    Some(i) => Some(i + 2),
                    None => None,
                }
            }
        },
        None => None,
    }
}

fn find_start_exec(cells: &Vec<Vec<u8>>) -> (r: Option<(i32, i32)>)
    requires
        cells@.len() <= 4096,
        forall|j: int| 0 <= j < cells@.len() ==> (#[trigger] cells@[j])@.len() <= 4096,
    ensures
        ({
            let f = find_start(cells_views(cells@), cells@.len() as int);
            match r {
                Some(p) => f == Some((p.0 as int, p.1 as int)),
                None => f is None,
            }
        }),
{
    let ghost cv = cells_views(cells@);
    let mut j: usize = 0;
    while j < cells.len()
        invariant
            0 <= j <= cells@.len(),
            cv == cells_views(cells@),
            cells@.len() <= 4096,
            forall|t: int| 0 <= t < cells@.len() ==> (#[trigger] cells@[t])@.len() <= 4096,
            find_start(cv, j as int) is None,
        decreases cells@.len() - j,
    {
        let line = &cells[j];
        proof {
            assert(cv[j as int] == cells@[j as int]@);
        }
        let mut i: usize = 0;
        while i < line.len()
            invariant
                0 <= i <= line@.len(),
                line@.len() <= 4096,
                j < cells@.len() <= 4096,
                cv == cells_views(cells@),
                line@ == cv[j as int],
                find_start(cv, j as int) is None,
                row_first_s(line@, i as int) is None,
            decreases line@.len() - i,
        {
            if line[i] == 83 {
                proof {
                    assert(row_first_s(line@, i + 1) == Some(i as int));
                    lemma_row_first_s_found(line@, i + 1, line@.len() as int);
                    assert(find_start(cv, j + 1) == Some((i as int, j as int)));
                    lemma_find_start_found(cv, j + 1, cv.len() as int);
                }
                return Some((i as i32, j as i32));
            }
            i = i + 1;
        }
        j = j + 1;
    }
    None
}

proof fn lemma_row_first_s_found(line: Seq<u8>, i: int, n: int)
    requires
        0 <= i <= n,
        row_first_s(line, i) is Some,
    ensures
        row_first_s(line, n) == row_first_s(line, i),
    decreases n - i,
{
    if i < n {
        lemma_row_first_s_found(line, i + 1, n);
    }
}

proof fn lemma_find_start_found(cells: Seq<Seq<u8>>, j: int, n: int)
    requires
        0 <= j <= n,
        find_start(cells, j) is Some,
    ensures
        find_start(cells, n) == find_start(cells, j),
    decreases n - j,
{
    if j < n {
        lemma_find_start_found(cells, j + 1, n);
    }
}

pub open spec fn maze_ok(cells: Seq<Seq<u8>>) -> bool {
    cells.len() <= 4096 && forall|j: int|
        0 <= j < cells.len() ==> (#[trigger] cells[j]).len() <= 4096
}

/// Steps to the farthest point of the loop; `None` when there is no
/// start, the start does not join exactly two pipes, a walker leaves the
/// pipes, or the walkers never meet within the search's cap.
pub fn part1(input: &Vec<Vec<u8>>) -> (r: Option<usize>)
    requires
        maze_ok(cells_views(input@)),
    ensures
        ({
            let sp = spec_part1(cells_views(input@));
            match r {
                Some(v) => sp == Some(v as int),
                None => sp is None,
            }
        }),
{
    let ghost cv = cells_views(input@);
    proof {
        assert(forall|j: int|
            0 <= j < input@.len() ==> (#[trigger] input@[j])@.len() == cv[j].len());
    }
    let (sx, sy) = match find_start_exec(input) {
        Some(p) => p,
        None => {
            return None;
        },
    };
    let ns = start_neighbors_exec(input, (sx, sy));
    if ns.len() != 2 {
        return None;
    }
    let a = ns[0];
    let b = ns[1];
    proof {
        assert(spec_part1(cv) == (match meet_from(cv, a, b, 0) {
            Some(k) => Some(k + 2),
            None => None,
        }));
        assert(walk(cv, a.0, a.1, 0nat) == Some((a.0, a.1)));
        assert(walk(cv, b.0, b.1, 0nat) == Some((b.0, b.1)));
    }
    let mut pa = a.0;
    let mut fa = a.1;
    let mut pb = b.0;
    let mut fb = b.1;
    let mut i: usize = 0;
    // both walkers take their first step
    match follow_step(input, pa, fa) {
        Some((p, f)) => {
            pa = p;
            fa = f;
            proof {
                assert(walk(cv, a.0, a.1, 1nat) == Some((pa, fa)));
            }
        },
        None => {
            proof {
                assert(walk(cv, a.0, a.1, 1nat) is None);
                assert(meet_from(cv, a, b, 0) is None);
            }
            return None;
        },
    }
    match follow_step(input, pb, fb) {
        Some((p, f)) => {
            pb = p;
            fb = f;
            proof {
                assert(walk(cv, b.0, b.1, 1nat) == Some((pb, fb)));
            }
        },
        None => {
            proof {
                assert(walk(cv, b.0, b.1, 1nat) is None);
                assert(meet_from(cv, a, b, 0) is None);
            }
            return None;
        },
    }
    while i < 0x4000002
        invariant
            0 <= i <= 0x4000002,
            cv == cells_views(input@),
            spec_part1(cv) == (match meet_from(cv, a, b, i as int) {
                Some(k) => Some(k + 2),
                None => None,
            }),
            i < 0x4000002 ==> walk(cv, a.0, a.1, (i + 1) as nat) == Some((pa, fa)),
            i < 0x4000002 ==> walk(cv, b.0, b.1, (i + 1) as nat) == Some((pb, fb)),
        decreases 0x4000002 - i,
    {
        if pa.0 == pb.0 && pa.1 == pb.1 {
            proof {
                assert(pa == pb);
                assert(meet_from(cv, a, b, i as int) == Some(i as int));
            }
            return Some(i + 2);
        }
        match follow_step(input, pa, fa) {
            Some((p, f)) => {
                pa = p;
                fa = f;
            },
            None => {
                proof {
                    assert(walk(cv, a.0, a.1, (i + 2) as nat) is None);
                    assert(meet_from(cv, a, b, i + 1) is None);
                }
                return None;
            },
        }
        match follow_step(input, pb, fb) {
            Some((p, f)) => {
                pb = p;
                fb = f;
            },
            None => {
                proof {
                    assert(walk(cv, b.0, b.1, (i + 2) as nat) is None);
                    assert(meet_from(cv, a, b, i + 1) is None);
                }
                return None;
            },
        }
        i = i + 1;
    }
    None
}

/// The grid bytes of the maze, line by line.
pub fn parse(input: &str) -> (r: Vec<Vec<u8>>)
    ensures
        cells_views(r@) == spec_lines(input.spec_bytes()),
{
    let bytes = input.as_bytes();
    let lines = split_lines(bytes);
    proof {
        assert(cells_views(lines@) =~= spec_lines(input.spec_bytes()));
    }
    lines
}

/// Whether a cell lies on the pipe loop: the start, the two first
/// neighbours, or any cell the walker stands on within the cap.
pub open spec fn on_path(
    cells: Seq<Seq<u8>>,
    a: ((i32, i32), Direction),
    b: ((i32, i32), Direction),
    sp: (i32, i32),
    pos: (i32, i32),
) -> bool {
    pos == sp || pos == a.0 || pos == b.0 || exists|k: nat|
        1 <= k <= walk_cap() && ((#[trigger] walk(cells, a.0, a.1, k)) matches Some(st)
            && st.0 == pos)
}

/// What one cell adds to the north and south crossing counts of a
/// leftward ray: the openings of its pipe, the start standing in for
/// the pipe its two neighbours imply.
pub open spec fn contribution(
    cells: Seq<Seq<u8>>,
    a: ((i32, i32), Direction),
    b: ((i32, i32), Direction),
    sp: (i32, i32),
    xx: i32,
    y: i32,
) -> (int, int) {
    if !on_path(cells, a, b, sp, (xx, y)) {
        (0, 0)
    } else {
        match tile_at(cells, xx as int, y as int) {
            Some(t) => {
                if t == Tile::Start {
                    let d1 = spec_rev(a.1);
                    let d2 = spec_rev(b.1);
                    (
                        (if d1 == Direction::North {
                            1int
                        } else {
                            0int
                        }) + (if d2 == Direction::North {
                            1int
                        } else {
                            0int
                        }),
                        (if d1 == Direction::South {
                            1int
                        } else {
                            0int
                        }) + (if d2 == Direction::South {
                            1int
                        } else {
                            0int
                        }),
                    )
                } else {
                    let (c1, c2) = spec_connections(t);
                    (
                        (if c1 == Direction::North {
                            1int
                        } else {
                            0int
                        }) + (if c2 == Direction::North {
                            1int
                        } else {
                            0int
                        }),
                        (if c1 == Direction::South {
                            1int
                        } else {
                            0int
                        }) + (if c2 == Direction::South {
                            1int
                        } else {
                            0int
                        }),
                    )
                }
            },
            None => (0, 0),
        }
    }
}

/// Crossing counts of the ray from the left rim to column `x` of row `y`.
pub open spec fn crossing(
    cells: Seq<Seq<u8>>,
    a: ((i32, i32), Direction),
    b: ((i32, i32), Direction),
    sp: (i32, i32),
    y: i32,
    x: int,
) -> (int, int)
    decreases x + 1,
{
    if x < 0 {
        (0, 0)
    } else {
        let (n0, s0) = crossing(cells, a, b, sp, y, x - 1);
        let (n1, s1) = contribution(cells, a, b, sp, x as i32, y);
        (n0 + n1, s0 + s1)
    }
}

/// A cell is enclosed when it is off the loop and the smaller of its
/// north and south crossing counts is odd.
pub open spec fn inside(
    cells: Seq<Seq<u8>>,
    a: ((i32, i32), Direction),
    b: ((i32, i32), Direction),
    sp: (i32, i32),
    x: i32,
    y: i32,
) -> bool {
    let (n, s) = crossing(cells, a, b, sp, y, x as int);
    let m = if n <= s {
        n
    } else {
        s
    };
    !on_path(cells, a, b, sp, (x, y)) && m % 2 == 1
}

pub open spec fn count_row(
    cells: Seq<Seq<u8>>,
    a: ((i32, i32), Direction),
    b: ((i32, i32), Direction),
    sp: (i32, i32),
    y: i32,
    mnx: int,
    x: int,
) -> int
    decreases x - mnx + 1,
{
    if x < mnx {
        0
    } else {
        count_row(cells, a, b, sp, y, mnx, x - 1) + (if inside(cells, a, b, sp, x as i32, y) {
            1int
        } else {
            0int
        })
    }
}

pub open spec fn count_box(
    cells: Seq<Seq<u8>>,
    a: ((i32, i32), Direction),
    b: ((i32, i32), Direction),
    sp: (i32, i32),
    mnx: int,
    mxx: int,
    mny: int,
    y: int,
) -> int
    decreases y - mny + 1,
{
    if y < mny {
        0
    } else {
        count_box(cells, a, b, sp, mnx, mxx, mny, y - 1) + count_row(cells, a, b, sp, y as i32, mnx, mxx)
    }
}

/// The box the counting scan walks: least coordinates of the loop, and
/// greatest coordinates no smaller than zero.
pub open spec fn bounds_ok(
    cells: Seq<Seq<u8>>,
    a: ((i32, i32), Direction),
    b: ((i32, i32), Direction),
    sp: (i32, i32),
    mnx: int,
    mxx: int,
    mny: int,
    mxy: int,
) -> bool {
    &&& forall|pos: (i32, i32)|
        #[trigger] on_path(cells, a, b, sp, pos) ==> mnx <= pos.0 <= mxx && mny <= pos.1 <= mxy
    &&& exists|pos: (i32, i32)| #[trigger] on_path(cells, a, b, sp, pos) && pos.0 == mnx
    &&& exists|pos: (i32, i32)| #[trigger] on_path(cells, a, b, sp, pos) && pos.1 == mny
    &&& (mxx == 0 || exists|pos: (i32, i32)|
        #[trigger] on_path(cells, a, b, sp, pos) && pos.0 == mxx)
    &&& (mxy == 0 || exists|pos: (i32, i32)|
        #[trigger] on_path(cells, a, b, sp, pos) && pos.1 == mxy)
    &&& mxx >= 0
    &&& mxy >= 0
}

/// The maze with its start and the two loop entrances, as the searches
/// use them.
pub open spec fn spec_setup(cells: Seq<Seq<u8>>) -> Option<
    ((i32, i32), ((i32, i32), Direction), ((i32, i32), Direction)),
> {
    match find_start(cells, cells.len() as int) {
        Some((sx, sy)) => {
            let ns = start_neighbors(cells, (sx as i32, sy as i32), 4);
            if ns.len() != 2 {
                None
            } else {
                Some(((sx as i32, sy as i32), ns[0], ns[1]))
            }
        },
        None => None,
    }
}

/// A cell with a tile lies inside the maze rectangle.
proof fn lemma_tile_in_grid(cells: Seq<Seq<u8>>, x: int, y: int)
    requires
        maze_ok(cells),
        tile_at(cells, x, y) is Some,
    ensures
        0 <= x < 4096 && 0 <= y < 4096,
{
}

/// Loop entrances carry a tile.
proof fn lemma_start_neighbors_tiles(cells: Seq<Seq<u8>>, pos: (i32, i32), i: int)
    requires
        0 <= i <= 4,
    ensures
        forall|t: int|
            0 <= t < start_neighbors(cells, pos, i).len() ==> tile_at(
                cells,
                (#[trigger] start_neighbors(cells, pos, i)[t]).0.0 as int,
                start_neighbors(cells, pos, i)[t].0.1 as int,
            ) is Some,
    decreases i,
{
    if i > 0 {
        lemma_start_neighbors_tiles(cells, pos, i - 1);
    }
}

/// A walker that has stopped stays stopped.
proof fn lemma_walk_none_mono(
    cells: Seq<Seq<u8>>,
    p: (i32, i32),
    f: Direction,
    k: nat,
    k2: nat,
)
    requires
        k <= k2,
        walk(cells, p, f, k) is None,
    ensures
        walk(cells, p, f, k2) is None,
    decreases k2 - k,
{
    if k < k2 {
        lemma_walk_none_mono(cells, p, f, k, (k2 - 1) as nat);
    }
}

/// A walker that started on a tile never leaves the padded rectangle.
proof fn lemma_walk_range(cells: Seq<Seq<u8>>, p: (i32, i32), f: Direction, k: nat)
    requires
        maze_ok(cells),
        tile_at(cells, p.0 as int, p.1 as int) is Some,
    ensures
        walk(cells, p, f, k) matches Some(st) ==> -1 <= st.0.0 <= 4096 && -1 <= st.0.1 <= 4096,
    decreases k,
{
    if k == 0 {
        lemma_tile_in_grid(cells, p.0 as int, p.1 as int);
    } else {
        lemma_walk_range(cells, p, f, (k - 1) as nat);
        match walk(cells, p, f, (k - 1) as nat) {
            Some((q, g)) => {
                match walk(cells, p, f, k) {
                    Some(st) => {
                        lemma_tile_in_grid(cells, q.0 as int, q.1 as int);
                    },
                    None => {},
                }
            },
            None => {},
        }
    }
}

/// The table slot of a padded cell.
pub open spec fn pidx(pos: (i32, i32)) -> int {
    (pos.1 + 1) * 4098 + (pos.0 + 1)
}

proof fn lemma_pidx_range(pos: (i32, i32))
    requires
        -1 <= pos.0 <= 4096,
        -1 <= pos.1 <= 4096,
    ensures
        0 <= pidx(pos) < 4098 * 4098,
{
    assert(0 <= (pos.1 + 1) * 4098 + (pos.0 + 1) < 4098 * 4098) by (nonlinear_arith)
        requires
            0 <= pos.0 + 1 <= 4097,
            0 <= pos.1 + 1 <= 4097,
    ;
}

proof fn lemma_pidx_inj(p1: (i32, i32), p2: (i32, i32))
    requires
        -1 <= p1.0 <= 4096,
        -1 <= p1.1 <= 4096,
        -1 <= p2.0 <= 4096,
        -1 <= p2.1 <= 4096,
        pidx(p1) == pidx(p2),
    ensures
        p1 == p2,
{
    assert(p1.0 == p2.0 && p1.1 == p2.1) by (nonlinear_arith)
        requires
            (p1.1 + 1) * 4098 + (p1.0 + 1) == (p2.1 + 1) * 4098 + (p2.0 + 1),
            0 <= p1.0 + 1 <= 4097,
            0 <= p2.0 + 1 <= 4097,
    ;
}

proof fn lemma_count_row_le(
    cells: Seq<Seq<u8>>,
    a: ((i32, i32), Direction),
    b: ((i32, i32), Direction),
    sp: (i32, i32),
    y: i32,
    mnx: int,
    x: int,
)
    ensures
        0 <= count_row(cells, a, b, sp, y, mnx, x) <= (if x - mnx + 1 >= 0 {
            x - mnx + 1
        } else {
            0
        }),
    decreases x - mnx + 1,
{
    if x >= mnx {
        lemma_count_row_le(cells, a, b, sp, y, mnx, x - 1);
    }
}

proof fn lemma_count_box_le(
    cells: Seq<Seq<u8>>,
    a: ((i32, i32), Direction),
    b: ((i32, i32), Direction),
    sp: (i32, i32),
    mnx: int,
    mxx: int,
    mny: int,
    y: int,
)
    requires
        mxx - mnx + 1 <= 4098,
    ensures
        0 <= count_box(cells, a, b, sp, mnx, mxx, mny, y) <= (if y - mny + 1 >= 0 {
            (y - mny + 1) * 4098
        } else {
            0
        }),
    decreases y - mny + 1,
{
    if y >= mny {
        lemma_count_box_le(cells, a, b, sp, mnx, mxx, mny, y - 1);
        lemma_count_row_le(cells, a, b, sp, y as i32, mnx, mxx);
        assert((y - mny) * 4098 + 4098 == (y - mny + 1) * 4098) by (nonlinear_arith);
    }
}

/// The loop cells found within the first `k` walking steps.
pub open spec fn on_path_upto(
    cells: Seq<Seq<u8>>,
    a: ((i32, i32), Direction),
    b: ((i32, i32), Direction),
    sp: (i32, i32),
    k: int,
    pos: (i32, i32),
) -> bool {
    pos == sp || pos == a.0 || pos == b.0 || exists|kk: nat|
        1 <= kk <= k && ((#[trigger] walk(cells, a.0, a.1, kk)) matches Some(st) && st.0 == pos)
}

proof fn lemma_upto_mono(
    cells: Seq<Seq<u8>>,
    a: ((i32, i32), Direction),
    b: ((i32, i32), Direction),
    sp: (i32, i32),
    k1: int,
    k2: int,
    pos: (i32, i32),
)
    requires
        k1 <= k2,
        on_path_upto(cells, a, b, sp, k1, pos),
    ensures
        on_path_upto(cells, a, b, sp, k2, pos),
{
    if !(pos == sp || pos == a.0 || pos == b.0) {
        let kk = choose|kk: nat|
            1 <= kk <= k1 && ((#[trigger] walk(cells, a.0, a.1, kk)) matches Some(st) && st.0
                == pos);
        assert(1 <= kk <= k2 && ((walk(cells, a.0, a.1, kk)) matches Some(st) && st.0 == pos));
    }
}

fn set_mark(marks: &mut Vec<bool>, pos: (i32, i32))
    requires
        old(marks)@.len() == 4098 * 4098,
        -1 <= pos.0 <= 4096,
        -1 <= pos.1 <= 4096,
    ensures
        final(marks)@.len() == old(marks)@.len(),
        final(marks)@[pidx(pos)] == true,
        forall|q: (i32, i32)|
            -1 <= q.0 <= 4096 && -1 <= q.1 <= 4096 && q != pos ==> final(marks)@[#[trigger] pidx(
                q,
            )] == old(marks)@[pidx(q)],
{
    proof {
        lemma_pidx_range(pos);
    }
    let mi = (((pos.1 as i64) + 1) * 4098 + ((pos.0 as i64) + 1)) as usize;
    proof {
        assert(mi == pidx(pos));
    }
    marks.set(mi, true);
    proof {
        assert forall|q: (i32, i32)|
            -1 <= q.0 <= 4096 && -1 <= q.1 <= 4096 && q != pos implies marks@[#[trigger] pidx(q)]
            == old(marks)@[pidx(q)] by {
            lemma_pidx_range(q);
            if pidx(q) == pidx(pos) {
                lemma_pidx_inj(q, pos);
            }
        }
    }
}

fn inside_exec(
    cells: &Vec<Vec<u8>>,
    marks: &Vec<bool>,
    a: ((i32, i32), Direction),
    b: ((i32, i32), Direction),
    sp: (i32, i32),
    x: i32,
    y: i32,
) -> (r: bool)
    requires
        maze_ok(cells_views(cells@)),
        marks@.len() == 4098 * 4098,
        -1 <= x <= 4096,
        -1 <= y <= 4096,
        forall|pos: (i32, i32)|
            -1 <= pos.0 <= 4096 && -1 <= pos.1 <= 4096 ==> marks@[#[trigger] pidx(pos)]
                == on_path(cells_views(cells@), a, b, sp, pos),
    ensures
        r == inside(cells_views(cells@), a, b, sp, x, y),
{
    let ghost cv = cells_views(cells@);
    proof {
        lemma_pidx_range((x, y));
    }
    let mi = (((y as i64) + 1) * 4098 + ((x as i64) + 1)) as usize;
    proof {
        assert(mi == pidx((x, y)));
    }
    if marks[mi] {
        proof {
            assert(on_path(cv, a, b, sp, (x, y)));
        }
        return false;
    }
    let mut north: u32 = 0;
    let mut south: u32 = 0;
    let mut xx: i32 = 0;
    while xx <= x
        invariant
            0 <= xx,
            xx <= (if x >= 0 {
                x + 1
            } else {
                0
            }),
            -1 <= x <= 4096,
            -1 <= y <= 4096,
            maze_ok(cv),
            cv == cells_views(cells@),
            marks@.len() == 4098 * 4098,
            forall|pos: (i32, i32)|
                -1 <= pos.0 <= 4096 && -1 <= pos.1 <= 4096 ==> marks@[#[trigger] pidx(pos)]
                    == on_path(cv, a, b, sp, pos),
            (north as int, south as int) == crossing(cv, a, b, sp, y, xx - 1),
            north <= 2 * xx,
            south <= 2 * xx,
        decreases x - xx + 1,
    {
        proof {
            lemma_pidx_range((xx, y));
        }
        let mj = (((y as i64) + 1) * 4098 + ((xx as i64) + 1)) as usize;
        proof {
            assert(mj == pidx((xx, y)));
        }
        let (dn, ds): (u32, u32) = if marks[mj] {
            match tile_at_exec(cells, xx, y) {
                Some(t) => {
                    if t == Tile::Start {
                        let d1 = a.1.rev();
                        let d2 = b.1.rev();
                        (
                            (if d1 == Direction::North {
                                1
                            } else {
                                0
                            }) + (if d2 == Direction::North {
                                1
                            } else {
                                0
                            }),
                            (if d1 == Direction::South {
                                1
                            } else {
                                0
                            }) + (if d2 == Direction::South {
                                1
                            } else {
                                0
                            }),
                        )
                    } else {
                        let (c1, c2) = t.connections();
                        (
                            (if c1 == Direction::North {
                                1
                            } else {
                                0
                            }) + (if c2 == Direction::North {
                                1
                            } else {
                                0
                            }),
                            (if c1 == Direction::South {
                                1
                            } else {
                                0
                            }) + (if c2 == Direction::South {
                                1
                            } else {
                                0
                            }),
                        )
                    }
                },
                None => (0, 0),
            }
        } else {
            (0, 0)
        };
        proof {
            assert((dn as int, ds as int) == contribution(cv, a, b, sp, xx, y));
        }
        north = north + dn;
        south = south + ds;
        xx = xx + 1;
    }
    proof {
        if x < 0 {
            assert((north as int, south as int) == crossing(cv, a, b, sp, y, x as int));
        }
    }
    let m = if north <= south {
        north
    } else {
        south
    };
    m % 2 == 1
}

/// How many tiles the loop encloses, scanning the loop's bounding box
/// with the crossing rule; `None` when the maze has no start, the start
/// does not join exactly two pipes, or the walk does not close within
/// the cap.
#[verifier::rlimit(60)]
pub fn part2(input: &Vec<Vec<u8>>) -> (r: Option<usize>)
    requires
        maze_ok(cells_views(input@)),
    ensures
        ({
            let cv = cells_views(input@);
            match r {
                Some(v) => (match spec_setup(cv) {
                    Some(setup) => exists|mnx: int, mxx: int, mny: int, mxy: int|
                        bounds_ok(cv, setup.1, setup.2, setup.0, mnx, mxx, mny, mxy) && v
                            == count_box(cv, setup.1, setup.2, setup.0, mnx, mxx, mny, mxy),
                    None => false,
                }),
                None => (match spec_setup(cv) {
                    Some(setup) => walk(cv, setup.1.0, setup.1.1, walk_cap() as nat) is Some,
                    None => true,
                }),
            }
        }),
{
    let ghost cv = cells_views(input@);
    proof {
        assert(forall|j: int|
            0 <= j < input@.len() ==> (#[trigger] input@[j])@.len() == cv[j].len());
    }
    let (sx, sy) = match find_start_exec(input) {
        Some(p) => p,
        None => {
            return None;
        },
    };
    let sp = (sx, sy);
    let ns = start_neighbors_exec(input, sp);
    if ns.len() != 2 {
        return None;
    }
    let a = ns[0];
    let b = ns[1];
    proof {
        assert(spec_setup(cv) == Some((sp, a, b)));
        lemma_start_neighbors_tiles(cv, sp, 4);
        assert(tile_at(cv, a.0.0 as int, a.0.1 as int) is Some);
        assert(tile_at(cv, b.0.0 as int, b.0.1 as int) is Some);
        lemma_tile_in_grid(cv, a.0.0 as int, a.0.1 as int);
        lemma_tile_in_grid(cv, b.0.0 as int, b.0.1 as int);
        lemma_find_start_range(cv, cv.len() as int);
    }
    let mut marks: Vec<bool> = Vec::new();
    let mut t: usize = 0;
    while t < 16793604
        invariant
            marks@.len() == t,
            t <= 16793604,
            forall|u: int| 0 <= u < t ==> !(#[trigger] marks@[u]),
        decreases 16793604 - t,
    {
        marks.push(false);
        t = t + 1;
    }
    proof {
        assert(16793604 == 4098 * 4098) by (nonlinear_arith);
    }
    let mut mnx: i32 = i32::MAX;
    let mut mxx: i32 = 0;
    let mut mny: i32 = i32::MAX;
    let mut mxy: i32 = 0;
    // the start and the two entrances are on the loop
    proof {
        assert forall|q: (i32, i32)| -1 <= q.0 <= 4096 && -1 <= q.1 <= 4096 implies !marks@[
        #[trigger] pidx(q)] by {
            lemma_pidx_range(q);
        }
    }
    set_mark(&mut marks, sp);
    set_mark(&mut marks, a.0);
    set_mark(&mut marks, b.0);
    if sp.0 < mnx {
        mnx = sp.0;
    }
    if sp.0 > mxx {
        mxx = sp.0;
    }
    if sp.1 < mny {
        mny = sp.1;
    }
    if sp.1 > mxy {
        mxy = sp.1;
    }
    if a.0.0 < mnx {
        mnx = a.0.0;
    }
    if a.0.0 > mxx {
        mxx = a.0.0;
    }
    if a.0.1 < mny {
        mny = a.0.1;
    }
    if a.0.1 > mxy {
        mxy = a.0.1;
    }
    if b.0.0 < mnx {
        mnx = b.0.0;
    }
    if b.0.0 > mxx {
        mxx = b.0.0;
    }
    if b.0.1 < mny {
        mny = b.0.1;
    }
    if b.0.1 > mxy {
        mxy = b.0.1;
    }
    proof {
        assert forall|pos: (i32, i32)| -1 <= pos.0 <= 4096 && -1 <= pos.1 <= 4096 implies marks@[
        #[trigger] pidx(pos)] == on_path_upto(cv, a, b, sp, 0, pos) by {
            lemma_pidx_range(pos);
            if pos != sp && pos != a.0 && pos != b.0 {
                assert(!on_path_upto(cv, a, b, sp, 0, pos));
            }
        }
    }
    let mut pa = a.0;
    let mut fa = a.1;
    let mut k: usize = 0;
    while k < 0x4000002
        invariant
            0 <= k <= 0x4000002,
            cv == cells_views(input@),
            maze_ok(cv),
            marks@.len() == 4098 * 4098,
            spec_setup(cv) == Some((sp, a, b)),
            tile_at(cv, a.0.0 as int, a.0.1 as int) is Some,
            -1 <= sp.0 <= 4096 && -1 <= sp.1 <= 4096,
            -1 <= a.0.0 <= 4096 && -1 <= a.0.1 <= 4096,
            -1 <= b.0.0 <= 4096 && -1 <= b.0.1 <= 4096,
            walk(cv, a.0, a.1, k as nat) == Some((pa, fa)),
            forall|pos: (i32, i32)|
                -1 <= pos.0 <= 4096 && -1 <= pos.1 <= 4096 ==> marks@[#[trigger] pidx(pos)]
                    == on_path_upto(cv, a, b, sp, k as int, pos),
            forall|pos: (i32, i32)|
                #[trigger] on_path_upto(cv, a, b, sp, k as int, pos) ==> mnx <= pos.0 <= mxx
                    && mny <= pos.1 <= mxy,
            exists|pos: (i32, i32)|
                #[trigger] on_path_upto(cv, a, b, sp, k as int, pos) && pos.0 == mnx,
            exists|pos: (i32, i32)|
                #[trigger] on_path_upto(cv, a, b, sp, k as int, pos) && pos.1 == mny,
            mxx == 0 || exists|pos: (i32, i32)|
                #[trigger] on_path_upto(cv, a, b, sp, k as int, pos) && pos.0 == mxx,
            mxy == 0 || exists|pos: (i32, i32)|
                #[trigger] on_path_upto(cv, a, b, sp, k as int, pos) && pos.1 == mxy,
            mxx >= 0 && mxy >= 0,
            -1 <= mnx <= 4096 && -1 <= mny <= 4096 && mxx <= 4096 && mxy <= 4096,
        decreases 0x4000002 - k,
    {
        match follow_step(input, pa, fa) {
            Some((p, f)) => {
                proof {
                    assert(walk(cv, a.0, a.1, (k + 1) as nat) == Some((p, f)));
                    lemma_walk_range(cv, a.0, a.1, (k + 1) as nat);
                }
                let ghost old_marks = marks@;
                let ghost omnx = mnx as int;
                let ghost omxx = mxx as int;
                let ghost omny = mny as int;
                let ghost omxy = mxy as int;
                set_mark(&mut marks, p);
                if p.0 < mnx {
                    mnx = p.0;
                }
                if p.0 > mxx {
                    mxx = p.0;
                }
                if p.1 < mny {
                    mny = p.1;
                }
                if p.1 > mxy {
                    mxy = p.1;
                }
                proof {
                    assert(on_path_upto(cv, a, b, sp, k + 1, p)) by {
                        assert(1 <= (k + 1) as nat <= k + 1 && (walk(cv, a.0, a.1, (k
                            + 1) as nat) matches Some(st) && st.0 == p));
                    }
                    if mnx as int != omnx {
                        assert(mnx == p.0);
                    } else {
                        let pos0 = choose|pos: (i32, i32)|
                            #[trigger] on_path_upto(cv, a, b, sp, k as int, pos) && pos.0
                                == mnx;
                        lemma_upto_mono(cv, a, b, sp, k as int, k + 1, pos0);
                    }
                    if mny as int != omny {
                        assert(mny == p.1);
                    } else {
                        let pos0 = choose|pos: (i32, i32)|
                            #[trigger] on_path_upto(cv, a, b, sp, k as int, pos) && pos.1
                                == mny;
                        lemma_upto_mono(cv, a, b, sp, k as int, k + 1, pos0);
                    }
                    if mxx as int != omxx {
                        assert(mxx == p.0);
                    } else if mxx != 0 {
                        let pos0 = choose|pos: (i32, i32)|
                            #[trigger] on_path_upto(cv, a, b, sp, k as int, pos) && pos.0
                                == mxx;
                        lemma_upto_mono(cv, a, b, sp, k as int, k + 1, pos0);
                    }
                    if mxy as int != omxy {
                        assert(mxy == p.1);
                    } else if mxy != 0 {
                        let pos0 = choose|pos: (i32, i32)|
                            #[trigger] on_path_upto(cv, a, b, sp, k as int, pos) && pos.1
                                == mxy;
                        lemma_upto_mono(cv, a, b, sp, k as int, k + 1, pos0);
                    }
                    assert forall|pos: (i32, i32)|
                        -1 <= pos.0 <= 4096 && -1 <= pos.1 <= 4096 implies marks@[
                    #[trigger] pidx(pos)] == on_path_upto(cv, a, b, sp, k + 1, pos) by {
                        if pos == p {
                            assert(on_path_upto(cv, a, b, sp, k + 1, pos)) by {
                                assert(1 <= (k + 1) as nat <= k + 1 && (walk(
                                    cv,
                                    a.0,
                                    a.1,
                                    (k + 1) as nat,
                                ) matches Some(st) && st.0 == pos));
                            }
                        } else {
                            assert(marks@[pidx(pos)] == old_marks[pidx(pos)]);
                            assert(on_path_upto(cv, a, b, sp, k + 1, pos) == on_path_upto(
                                cv,
                                a,
                                b,
                                sp,
                                k as int,
                                pos,
                            )) by {
                                if on_path_upto(cv, a, b, sp, k + 1, pos) && !on_path_upto(
                                    cv,
                                    a,
                                    b,
                                    sp,
                                    k as int,
                                    pos,
                                ) {
                                    let kk = choose|kk: nat|
                                        1 <= kk <= k + 1 && ((#[trigger] walk(
                                            cv,
                                            a.0,
                                            a.1,
                                            kk,
                                        )) matches Some(st) && st.0 == pos);
                                    assert(kk == k + 1);
                                    assert(pos == p);
                                    assert(false);
                                }
                            }
                        }
                    }
                    assert forall|pos: (i32, i32)|
                        #[trigger] on_path_upto(cv, a, b, sp, k + 1, pos) implies mnx <= pos.0
                        <= mxx && mny <= pos.1 <= mxy by {
                        if pos != p && !on_path_upto(cv, a, b, sp, k as int, pos) {
                            let kk = choose|kk: nat|
                                1 <= kk <= k + 1 && ((#[trigger] walk(cv, a.0, a.1, kk))
                                    matches Some(st) && st.0 == pos);
                            assert(kk == k + 1);
                            assert(false);
                        }
                    }
                }
                pa = p;
                fa = f;
            },
            None => {
                // the loop is closed: every later step also stops
                proof {
                    assert(walk(cv, a.0, a.1, (k + 1) as nat) is None);
                    assert forall|pos: (i32, i32)|
                        #[trigger] on_path(cv, a, b, sp, pos) == on_path_upto(
                        cv,
                        a,
                        b,
                        sp,
                        k as int,
                        pos,
                    ) by {
                        if on_path(cv, a, b, sp, pos) && !on_path_upto(
                            cv,
                            a,
                            b,
                            sp,
                            k as int,
                            pos,
                        ) {
                            let kk = choose|kk: nat|
                                1 <= kk <= walk_cap() && ((#[trigger] walk(cv, a.0, a.1, kk))
                                    matches Some(st) && st.0 == pos);
                            assert(kk > k);
                            lemma_walk_none_mono(cv, a.0, a.1, (k + 1) as nat, kk);
                            assert(false);
                        }
                        if on_path_upto(cv, a, b, sp, k as int, pos) && !on_path(
                            cv,
                            a,
                            b,
                            sp,
                            pos,
                        ) {
                            let kk = choose|kk: nat|
                                1 <= kk <= k && ((#[trigger] walk(cv, a.0, a.1, kk))
                                    matches Some(st) && st.0 == pos);
                            assert(1 <= kk <= walk_cap());
                            assert(false);
                        }
                    }
                    assert(bounds_ok(cv, a, b, sp, mnx as int, mxx as int, mny as int,
                    mxy as int)) by {
                        let p1 = choose|pos: (i32, i32)|
                            #[trigger] on_path_upto(cv, a, b, sp, k as int, pos) && pos.0
                                == mnx;
                        assert(on_path(cv, a, b, sp, p1));
                        let p2 = choose|pos: (i32, i32)|
                            #[trigger] on_path_upto(cv, a, b, sp, k as int, pos) && pos.1
                                == mny;
                        assert(on_path(cv, a, b, sp, p2));
                        if mxx != 0 {
                            let p3 = choose|pos: (i32, i32)|
                                #[trigger] on_path_upto(cv, a, b, sp, k as int, pos) && pos.0
                                    == mxx;
                            assert(on_path(cv, a, b, sp, p3));
                        }
                        if mxy != 0 {
                            let p4 = choose|pos: (i32, i32)|
                                #[trigger] on_path_upto(cv, a, b, sp, k as int, pos) && pos.1
                                    == mxy;
                            assert(on_path(cv, a, b, sp, p4));
                        }
                    }
                }
                // count the enclosed cells of the bounding box
                let mut acc: usize = 0;
                let mut y = mny;
                while y <= mxy
                    invariant
                        mny <= y,
                        y <= mxy + 1,
                        cv == cells_views(input@),
                        maze_ok(cv),
                        marks@.len() == 4098 * 4098,
                        spec_setup(cv) == Some((sp, a, b)),
                        bounds_ok(cv, a, b, sp, mnx as int, mxx as int, mny as int, mxy as int),
                        -1 <= mnx <= 4096 && -1 <= mny <= 4096,
                        0 <= mxx <= 4096 && 0 <= mxy <= 4096,
                        mnx <= mxx,
                        forall|pos: (i32, i32)|
                            -1 <= pos.0 <= 4096 && -1 <= pos.1 <= 4096 ==> marks@[
                            #[trigger] pidx(pos)] == on_path(cv, a, b, sp, pos),
                        acc == count_box(cv, a, b, sp, mnx as int, mxx as int, mny as int, y
                            - 1),
                        acc <= 4098 * (y - mny),
                    decreases mxy + 1 - y,
                {
                    let mut x = mnx;
                    while x <= mxx
                        invariant
                            mnx <= x,
                            x <= mxx + 1,
                            mny <= y <= mxy,
                            cv == cells_views(input@),
                            maze_ok(cv),
                            marks@.len() == 4098 * 4098,
                            spec_setup(cv) == Some((sp, a, b)),
                            bounds_ok(cv, a, b, sp, mnx as int, mxx as int, mny as int,
                            mxy as int),
                            -1 <= mnx <= 4096 && -1 <= mny <= 4096,
                            0 <= mxx <= 4096 && 0 <= mxy <= 4096,
                            forall|pos: (i32, i32)|
                                -1 <= pos.0 <= 4096 && -1 <= pos.1 <= 4096 ==> marks@[
                                #[trigger] pidx(pos)] == on_path(cv, a, b, sp, pos),
                            acc == count_box(cv, a, b, sp, mnx as int, mxx as int, mny as int, y
                                - 1) + count_row(cv, a, b, sp, y, mnx as int, x - 1),
                            acc <= 4098 * (y - mny) + (x - mnx),
                        decreases mxx + 1 - x,
                    {
                        if inside_exec(input, &marks, a, b, sp, x, y) {
                            proof {
                                lemma_count_box_le(
                                    cv,
                                    a,
                                    b,
                                    sp,
                                    mnx as int,
                                    mxx as int,
                                    mny as int,
                                    y - 1,
                                );
                                lemma_count_row_le(cv, a, b, sp, y, mnx as int, x - 1);
                            }
                            acc = acc + 1;
                        }
                        x = x + 1;
                    }
                    y = y + 1;
                }
                proof {
                    let setup = spec_setup(cv).unwrap();
                    assert(setup == (sp, a, b));
                    assert(exists|mnx2: int, mxx2: int, mny2: int, mxy2: int|
                        bounds_ok(cv, setup.1, setup.2, setup.0, mnx2, mxx2, mny2, mxy2) && acc
                            as int == count_box(
                            cv,
                            setup.1,
                            setup.2,
                            setup.0,
                            mnx2,
                            mxx2,
                            mny2,
                            mxy2,
                        )) by {
                        assert(bounds_ok(
                            cv,
                            setup.1,
                            setup.2,
                            setup.0,
                            mnx as int,
                            mxx as int,
                            mny as int,
                            mxy as int,
                        ) && acc as int == count_box(
                            cv,
                            setup.1,
                            setup.2,
                            setup.0,
                            mnx as int,
                            mxx as int,
                            mny as int,
                            mxy as int,
                        ));
                    }
                }
                return Some(acc);
            },
        }
        k = k + 1;
    }
    None
}

proof fn lemma_row_first_s_range(line: Seq<u8>, i: int)
    ensures
        row_first_s(line, i) matches Some(x) ==> 0 <= x < i,
    decreases i,
{
    if i > 0 {
        lemma_row_first_s_range(line, i - 1);
    }
}

proof fn lemma_find_start_range(cells: Seq<Seq<u8>>, j: int)
    requires
        maze_ok(cells),
        j <= cells.len(),
    ensures
        find_start(cells, j) matches Some(p) ==> 0 <= p.0 < 4096 && 0 <= p.1 < 4096,
    decreases j,
{
    if j > 0 {
        lemma_find_start_range(cells, j - 1);
        lemma_row_first_s_range(cells[j - 1], cells[j - 1].len() as int);
    }
}

} // verus!
