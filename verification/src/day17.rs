//! Crucible puzzle: find the cheapest path across a grid of heat losses,
//! where the crucible may run at most a fixed number of steps in one
//! direction before turning, and the heavy one must run at least four
//! before turning or stopping.
//!
//! Stepping is total: a move off the 32-bit rim stays put, so even a
//! degenerate grid gets an answer instead of an error.
use vstd::prelude::*;

use crate::parsing::{byte_views, spec_lines, split_lines};
use vstd::string::StringSliceAdditionalSpecFns;

verus! {

#[derive(Debug, PartialEq, Eq, Structural, Clone, Copy, Hash)]
pub enum Direction {
    Top,
    Left,
    Down,
    Right,
}

/// How far the crucible has already run in one direction; `Still` before
/// the first move.
#[derive(Debug, PartialEq, Eq, Structural, Clone, Copy, Hash)]
pub enum MoveInDirection {
    Still,
    Top(i32),
    Left(i32),
    Down(i32),
    Right(i32),
}

#[derive(Debug, PartialEq, Eq, Structural, Clone, Copy, Hash)]
pub struct Node {
    pub x: i32,
    pub y: i32,
    pub move_in_dir: MoveInDirection,
}

/// The city grid: heat loss per cell, the width of the last line, and the
/// index of the last line.
pub struct CityMap {
    pub rows: Vec<Vec<i32>>,
    pub width: i32,
    pub height: i32,
}

pub open spec fn rows_views(v: Seq<Vec<i32>>) -> Seq<Seq<i32>> {
    Seq::new(v.len(), |i: int| v[i]@)
}

impl MoveInDirection {
    /// The run length so far.
    pub fn count_steps(self) -> (r: i32)
        ensures
            r == spec_count_steps(self),
    {
        match self {
            MoveInDirection::Still => 0,
            MoveInDirection::Top(x) => x,
            MoveInDirection::Left(x) => x,
            MoveInDirection::Down(x) => x,
            MoveInDirection::Right(x) => x,
        }
    }

    /// Whether moving that way would reverse the current run.
    pub fn is_going_back(self, direction: Direction) -> (r: bool)
        ensures
            r == spec_going_back(self, direction),
    {
        match (self, direction) {
            (MoveInDirection::Still, _) => false,
            (MoveInDirection::Top(_), Direction::Down) => true,
            (MoveInDirection::Left(_), Direction::Right) => true,
            (MoveInDirection::Down(_), Direction::Top) => true,
            (MoveInDirection::Right(_), Direction::Left) => true,
            _ => false,
        }
    }
}

pub open spec fn spec_count_steps(m: MoveInDirection) -> i32 {
    match m {
        MoveInDirection::Still => 0,
        MoveInDirection::Top(x) => x,
        MoveInDirection::Left(x) => x,
        MoveInDirection::Down(x) => x,
        MoveInDirection::Right(x) => x,
    }
}

pub open spec fn spec_going_back(m: MoveInDirection, direction: Direction) -> bool {
    match (m, direction) {
        (MoveInDirection::Still, _) => false,
        (MoveInDirection::Top(_), Direction::Down) => true,
        (MoveInDirection::Left(_), Direction::Right) => true,
        (MoveInDirection::Down(_), Direction::Top) => true,
        (MoveInDirection::Right(_), Direction::Left) => true,
        _ => false,
    }
}

pub open spec fn spec_delta(d: Direction) -> (i32, i32) {
    match d {
        Direction::Top => (0i32, -1i32),
        Direction::Left => (-1i32, 0i32),
        Direction::Down => (0i32, 1i32),
        Direction::Right => (1i32, 0i32),
    }
}

pub open spec fn spec_first_move(d: Direction) -> MoveInDirection {
    match d {
        Direction::Top => MoveInDirection::Top(1),
        Direction::Left => MoveInDirection::Left(1),
        Direction::Down => MoveInDirection::Down(1),
        Direction::Right => MoveInDirection::Right(1),
    }
}

impl Direction {
    pub fn delta(self) -> (r: (i32, i32))
        ensures
            r == spec_delta(self),
    {
        match self {
            Direction::Top => (0, -1),
            Direction::Left => (-1, 0),
            Direction::Down => (0, 1),
            Direction::Right => (1, 0),
        }
    }

    pub fn first_move(self) -> (r: MoveInDirection)
        ensures
            r == spec_first_move(self),
    {
        match self {
            Direction::Top => MoveInDirection::Top(1),
            Direction::Left => MoveInDirection::Left(1),
            Direction::Down => MoveInDirection::Down(1),
            Direction::Right => MoveInDirection::Right(1),
        }
    }
}

/// Lengthen a run by one, stopping at the 32-bit rim.
pub open spec fn bump(x: i32) -> i32 {
    if x < i32::MAX {
        (x + 1) as i32
    } else {
        x
    }
}

/// The run after one more step: same direction lengthens the run, a turn
/// starts a fresh one.
pub open spec fn spec_acc_move(m: MoveInDirection, direction: Direction) -> MoveInDirection {
    match (m, direction) {
        (MoveInDirection::Still, dir) => spec_first_move(dir),
        (MoveInDirection::Top(x), Direction::Top) => MoveInDirection::Top(bump(x)),
        (MoveInDirection::Top(_), dir) => spec_first_move(dir),
        (MoveInDirection::Left(x), Direction::Left) => MoveInDirection::Left(bump(x)),
        (MoveInDirection::Left(_), dir) => spec_first_move(dir),
        (MoveInDirection::Down(x), Direction::Down) => MoveInDirection::Down(bump(x)),
        (MoveInDirection::Down(_), dir) => spec_first_move(dir),
        (MoveInDirection::Right(x), Direction::Right) => MoveInDirection::Right(bump(x)),
        (MoveInDirection::Right(_), dir) => spec_first_move(dir),
    }
}

pub fn acc_move_in_dir(move_in_dir: MoveInDirection, direction: Direction) -> (r: MoveInDirection)
    ensures
        r == spec_acc_move(move_in_dir, direction),
{
    match (move_in_dir, direction) {
        (MoveInDirection::Still, dir) => dir.first_move(),
        (MoveInDirection::Top(x), Direction::Top) => MoveInDirection::Top(
            if x < i32::MAX {
                x + 1
            } else {
                x
            },
        ),
        (MoveInDirection::Top(_), dir) => dir.first_move(),
        (MoveInDirection::Left(x), Direction::Left) => MoveInDirection::Left(
            if x < i32::MAX {
                x + 1
            } else {
                x
            },
        ),
        (MoveInDirection::Left(_), dir) => dir.first_move(),
        (MoveInDirection::Down(x), Direction::Down) => MoveInDirection::Down(
            if x < i32::MAX {
                x + 1
            } else {
                x
            },
        ),
        (MoveInDirection::Down(_), dir) => dir.first_move(),
        (MoveInDirection::Right(x), Direction::Right) => MoveInDirection::Right(
            if x < i32::MAX {
                x + 1
            } else {
                x
            },
        ),
        (MoveInDirection::Right(_), dir) => dir.first_move(),
    }
}

/// Step a coordinate by a unit delta, stopping at the 32-bit rim.
pub open spec fn step_coord(v: i32, d: i32) -> i32 {
    if d == 1 {
        if v < i32::MAX {
            (v + 1) as i32
        } else {
            v
        }
    } else if d == -1 {
        if v > i32::MIN {
            (v - 1) as i32
        } else {
            v
        }
    } else {
        v
    }
}

/// The heat loss of the cell, if the grid holds it.
pub open spec fn weight_at(rows: Seq<Seq<i32>>, x: i32, y: i32) -> Option<i32> {
    if 0 <= y < rows.len() && 0 <= x < rows[y as int].len() {
        Some(rows[y as int][x as int])
    } else {
        None
    }
}

/// The node one step onward, with the heat loss it costs; `None` when the
/// move reverses the run, leaves the grid, runs too long, or lands on a
/// cell the grid does not hold.
pub open spec fn spec_new_node(
    rows: Seq<Seq<i32>>,
    width: i32,
    height: i32,
    node: Node,
    direction: Direction,
    max_steps: i32,
) -> Option<(Node, i32)> {
    if spec_going_back(node.move_in_dir, direction) {
        None
    } else {
        let (dx, dy) = spec_delta(direction);
        let nx = step_coord(node.x, dx);
        let ny = step_coord(node.y, dy);
        if nx < 0 || ny < 0 || nx >= width || ny > height {
            None
        } else {
            let m = spec_acc_move(node.move_in_dir, direction);
            if spec_count_steps(m) > max_steps {
                None
            } else {
                match weight_at(rows, nx, ny) {
                    Some(wt) => Some((Node { x: nx, y: ny, move_in_dir: m }, wt)),
                    None => None,
                }
            }
        }
    }
}

pub fn new_node_in_dir(node: &Node, direction: Direction, input: &CityMap, max_steps: i32) -> (r:
    Option<(Node, i32)>)
    ensures
        r == spec_new_node(
            rows_views(input.rows@),
            input.width,
            input.height,
            *node,
            direction,
            max_steps,
        ),
{
    if node.move_in_dir.is_going_back(direction) {
        return None;
    }
    let (dx, dy) = direction.delta();
    let nx: i32 = if dx == 1 {
        if node.x < i32::MAX {
            node.x + 1
        } else {
            node.x
        }
    } else if dx == -1 {
        if node.x > i32::MIN {
            node.x - 1
        } else {
            node.x
        }
    } else {
        node.x
    };
    let ny: i32 = if dy == 1 {
        if node.y < i32::MAX {
            node.y + 1
        } else {
            node.y
        }
    } else if dy == -1 {
        if node.y > i32::MIN {
            node.y - 1
        } else {
            node.y
        }
    } else {
        node.y
    };
    if nx < 0 || ny < 0 || nx >= input.width || ny > input.height {
        return None;
    }
    let m = acc_move_in_dir(node.move_in_dir, direction);
    if m.count_steps() > max_steps {
        return None;
    }
    if (ny as usize) < input.rows.len() && (nx as usize) < input.rows[ny as usize].len() {
        proof {
            assert(rows_views(input.rows@)[ny as int] == input.rows@[ny as int]@);
        }
        let wt = input.rows[ny as usize][nx as usize];
        Some((Node { x: nx, y: ny, move_in_dir: m }, wt))
    } else {
        proof {
            assert(weight_at(rows_views(input.rows@), nx, ny) is None);
        }
        None
    }
}

/// The directions the crucible may try from a node.
pub open spec fn dirs_for(m: MoveInDirection, min_before_turn: bool) -> Seq<Direction> {
    if !min_before_turn {
        seq![Direction::Top, Direction::Left, Direction::Down, Direction::Right]
    } else {
        match m {
            MoveInDirection::Still => seq![Direction::Right, Direction::Down],
            MoveInDirection::Top(x) => if x < 4 {
                seq![Direction::Top]
            } else {
                seq![Direction::Top, Direction::Left, Direction::Down, Direction::Right]
            },
            MoveInDirection::Left(x) => if x < 4 {
                seq![Direction::Left]
            } else {
                seq![Direction::Top, Direction::Left, Direction::Down, Direction::Right]
            },
            MoveInDirection::Down(x) => if x < 4 {
                seq![Direction::Down]
            } else {
                seq![Direction::Top, Direction::Left, Direction::Down, Direction::Right]
            },
            MoveInDirection::Right(x) => if x < 4 {
                seq![Direction::Right]
            } else {
                seq![Direction::Top, Direction::Left, Direction::Down, Direction::Right]
            },
        }
    }
}

pub open spec fn opt_edge(o: Option<(Node, i32)>) -> Seq<(Node, i32)> {
    match o {
        Some(e) => seq![e],
        None => Seq::empty(),
    }
}

/// The outgoing edges of a node, in direction order.
pub open spec fn succ_over(
    rows: Seq<Seq<i32>>,
    width: i32,
    height: i32,
    node: Node,
    dirs: Seq<Direction>,
    max_steps: i32,
) -> Seq<(Node, i32)>
    decreases dirs.len(),
{
    if dirs.len() == 0 {
        Seq::empty()
    } else {
        succ_over(rows, width, height, node, dirs.drop_last(), max_steps) + opt_edge(
            spec_new_node(rows, width, height, node, dirs.last(), max_steps),
        )
    }
}

pub open spec fn spec_successors(
    rows: Seq<Seq<i32>>,
    width: i32,
    height: i32,
    node: Node,
    max_steps: i32,
    min_before_turn: bool,
) -> Seq<(Node, i32)> {
    succ_over(rows, width, height, node, dirs_for(node.move_in_dir, min_before_turn), max_steps)
}

/// The outgoing edges of a node.
pub fn successors(node: &Node, input: &CityMap, max_steps: i32, min_before_turn: bool) -> (r: Vec<
    (Node, i32),
>)
    ensures
        r@ == spec_successors(
            rows_views(input.rows@),
            input.width,
            input.height,
            *node,
            max_steps,
            min_before_turn,
        ),
{
    let ghost rv = rows_views(input.rows@);
    let mut out: Vec<(Node, i32)> = Vec::new();
    let run = node.move_in_dir.count_steps();
    let restricted = min_before_turn && match node.move_in_dir {
        MoveInDirection::Still => false,
        _ => run < 4,
    };
    if min_before_turn && match node.move_in_dir {
        MoveInDirection::Still => true,
        _ => false,
    } {
        // the start may only head right or down
        if let Some(e) = new_node_in_dir(node, Direction::Right, input, max_steps) {
            out.push(e);
        }
        if let Some(e) = new_node_in_dir(node, Direction::Down, input, max_steps) {
            out.push(e);
        }
        proof {
            let dirs = dirs_for(node.move_in_dir, min_before_turn);
            let e1 = spec_new_node(rv, input.width, input.height, *node, Direction::Right,
            max_steps);
            let e2 = spec_new_node(rv, input.width, input.height, *node, Direction::Down,
            max_steps);
            assert(dirs =~= seq![Direction::Right, Direction::Down]);
            assert(dirs.drop_last() =~= seq![Direction::Right]);
            assert(dirs.drop_last().drop_last() =~= Seq::<Direction>::empty());
            assert(dirs.drop_last().last() == Direction::Right);
            assert(dirs.last() == Direction::Down);
            assert(succ_over(rv, input.width, input.height, *node, Seq::<Direction>::empty(),
            max_steps) =~= Seq::<(Node, i32)>::empty());
            assert(succ_over(rv, input.width, input.height, *node, dirs.drop_last(), max_steps)
                =~= opt_edge(e1));
            assert(succ_over(rv, input.width, input.height, *node, dirs, max_steps)
                =~= opt_edge(e1) + opt_edge(e2));
            assert(out@ =~= opt_edge(e1) + opt_edge(e2));
        }
        return out;
    }
    if restricted {
        // keep running straight until four steps are done
        let dir = match node.move_in_dir {
            MoveInDirection::Top(_) => Direction::Top,
            MoveInDirection::Left(_) => Direction::Left,
            MoveInDirection::Down(_) => Direction::Down,
            MoveInDirection::Right(_) => Direction::Right,
            MoveInDirection::Still => Direction::Right,
        };
        if let Some(e) = new_node_in_dir(node, dir, input, max_steps) {
            out.push(e);
        }
        proof {
            let dirs = dirs_for(node.move_in_dir, min_before_turn);
            match node.move_in_dir {
                MoveInDirection::Still => {
                    assert(false);
                },
                MoveInDirection::Top(x) => {
                    assert(dir == Direction::Top && dirs =~= seq![dir]);
                },
                MoveInDirection::Left(x) => {
                    assert(dir == Direction::Left && dirs =~= seq![dir]);
                },
                MoveInDirection::Down(x) => {
                    assert(dir == Direction::Down && dirs =~= seq![dir]);
                },
                MoveInDirection::Right(x) => {
                    assert(dir == Direction::Right && dirs =~= seq![dir]);
                },
            }
            assert(dirs.drop_last() =~= Seq::<Direction>::empty());
            let ed = spec_new_node(rv, input.width, input.height, *node, dir, max_steps);
            assert(succ_over(rv, input.width, input.height, *node, Seq::<Direction>::empty(),
            max_steps) =~= Seq::<(Node, i32)>::empty());
            assert(dirs.last() == dir);
            assert(succ_over(rv, input.width, input.height, *node, dirs, max_steps)
                =~= opt_edge(ed));
            assert(out@ =~= opt_edge(ed));
        }
        return out;
    }
    if let Some(e) = new_node_in_dir(node, Direction::Top, input, max_steps) {
        out.push(e);
    }
    if let Some(e) = new_node_in_dir(node, Direction::Left, input, max_steps) {
        out.push(e);
    }
    if let Some(e) = new_node_in_dir(node, Direction::Down, input, max_steps) {
        out.push(e);
    }
    if let Some(e) = new_node_in_dir(node, Direction::Right, input, max_steps) {
        out.push(e);
    }
    proof {
        let dirs = dirs_for(node.move_in_dir, min_before_turn);
        if min_before_turn {
            match node.move_in_dir {
                MoveInDirection::Still => {
                    assert(false);
                },
                MoveInDirection::Top(x) => {
                    assert(x >= 4);
                },
                MoveInDirection::Left(x) => {
                    assert(x >= 4);
                },
                MoveInDirection::Down(x) => {
                    assert(x >= 4);
                },
                MoveInDirection::Right(x) => {
                    assert(x >= 4);
                },
            }
        }
        let e1 = spec_new_node(rv, input.width, input.height, *node, Direction::Top, max_steps);
        let e2 = spec_new_node(rv, input.width, input.height, *node, Direction::Left, max_steps);
        let e3 = spec_new_node(rv, input.width, input.height, *node, Direction::Down, max_steps);
        let e4 = spec_new_node(rv, input.width, input.height, *node, Direction::Right, max_steps);
        assert(dirs =~= seq![Direction::Top, Direction::Left, Direction::Down, Direction::Right]);
        assert(dirs.drop_last() =~= seq![Direction::Top, Direction::Left, Direction::Down]);
        assert(dirs.drop_last().drop_last() =~= seq![Direction::Top, Direction::Left]);
        assert(dirs.drop_last().drop_last().drop_last() =~= seq![Direction::Top]);
        assert(dirs.drop_last().drop_last().drop_last().drop_last() =~= Seq::<
            Direction,
        >::empty());
        assert(succ_over(rv, input.width, input.height, *node, Seq::<Direction>::empty(),
        max_steps) =~= Seq::<(Node, i32)>::empty());
        assert(dirs.drop_last().drop_last().drop_last().last() == Direction::Top);
        assert(dirs.drop_last().drop_last().last() == Direction::Left);
        assert(dirs.drop_last().last() == Direction::Down);
        assert(dirs.last() == Direction::Right);
        assert(succ_over(rv, input.width, input.height, *node,
        dirs.drop_last().drop_last().drop_last(), max_steps) =~= opt_edge(e1));
        assert(succ_over(rv, input.width, input.height, *node, dirs.drop_last().drop_last(),
        max_steps) =~= opt_edge(e1) + opt_edge(e2));
        assert(succ_over(rv, input.width, input.height, *node, dirs.drop_last(), max_steps)
            =~= opt_edge(e1) + opt_edge(e2) + opt_edge(e3));
        assert(succ_over(rv, input.width, input.height, *node, dirs, max_steps) =~= opt_edge(e1)
            + opt_edge(e2) + opt_edge(e3) + opt_edge(e4));
        assert(out@ =~= opt_edge(e1) + opt_edge(e2) + opt_edge(e3) + opt_edge(e4));
    }
    out
}

pub open spec fn start_node() -> Node {
    Node { x: 0, y: 0, move_in_dir: MoveInDirection::Still }
}

/// The goal: the bottom-right cell, with a long enough run for the heavy
/// crucible.
pub open spec fn spec_is_goal(width: i32, height: i32, node: Node, min_before_turn: bool) -> bool {
    node.x == width - 1 && node.y == height && (!min_before_turn || spec_count_steps(
        node.move_in_dir,
    ) >= 4)
}

pub fn is_goal(node: &Node, input: &CityMap, min_before_turn: bool) -> (r: bool)
    ensures
        r == spec_is_goal(input.width, input.height, *node, min_before_turn),
{
    (node.x as i64) == (input.width as i64) - 1 && node.y == input.height && (!min_before_turn
        || node.move_in_dir.count_steps() >= 4)
}

/// A walk of the crucible: starts at the given node, each step an edge,
/// ending on the goal.
pub open spec fn valid_path(
    rows: Seq<Seq<i32>>,
    width: i32,
    height: i32,
    max_steps: i32,
    min_before_turn: bool,
    start: Node,
    p: Seq<Node>,
) -> bool {
    &&& p.len() >= 1
    &&& p[0] == start
    &&& spec_is_goal(width, height, p.last(), min_before_turn)
    &&& forall|t: int|
        0 <= t < p.len() - 1 ==> spec_successors(
            rows,
            width,
            height,
            #[trigger] p[t],
            max_steps,
            min_before_turn,
        ).contains((p[t + 1], cost_of(rows, p[t + 1])))
}

/// The heat loss an edge into a node costs: the node's cell weight.
pub open spec fn cost_of(rows: Seq<Seq<i32>>, node: Node) -> i32 {
    match weight_at(rows, node.x, node.y) {
        Some(wt) => wt,
        None => 0,
    }
}

/// The summed heat loss along a path, the start cell free.
pub open spec fn path_cost(rows: Seq<Seq<i32>>, p: Seq<Node>, i: int) -> int
    decreases i,
{
    if i <= 1 {
        0
    } else {
        path_cost(rows, p, i - 1) + cost_of(rows, p[i - 1])
    }
}

/// A grid the search is run on: digit weights and a bounded size, so the
/// summed heat loss stays far inside 32 bits.
pub open spec fn map_ok(rows: Seq<Seq<i32>>, width: i32, height: i32) -> bool {
    &&& rows.len() <= 1024
    &&& forall|y: int| 0 <= y < rows.len() ==> (#[trigger] rows[y]).len() <= 1024
    &&& forall|y: int, x: int|
        0 <= y < rows.len() && 0 <= x < rows[y].len() ==> 0 <= #[trigger] rows[y][x] <= 9
}

/// Relies on pathfinding::directed::dijkstra::dijkstra: with non-negative
/// edge costs it returns the cost of a cheapest path from the start to a
/// node accepted by `success`, and `None` exactly when no such path
/// exists. The successor and goal closures only call this module's
/// verified `successors` and `is_goal`.
#[verifier::external_body]
fn run_dijkstra(input: &CityMap, start: &Node, max_steps: i32, min_before_turn: bool) -> (r:
    Option<i32>)
    requires
        map_ok(rows_views(input.rows@), input.width, input.height),
        1 <= max_steps <= 10,
    ensures
        ({
            let rows = rows_views(input.rows@);
            match r {
                Some(c) => (exists|p: Seq<Node>|
                    valid_path(
                        rows,
                        input.width,
                        input.height,
                        max_steps,
                        min_before_turn,
                        *start,
                        p,
                    ) && path_cost(rows, p, p.len() as int) == c) && (forall|p: Seq<Node>|
                    valid_path(
                        rows,
                        input.width,
                        input.height,
                        max_steps,
                        min_before_turn,
                        *start,
                        p,
                    ) ==> path_cost(rows, p, p.len() as int) >= c),
                None => forall|p: Seq<Node>|
                    !valid_path(
                        rows,
                        input.width,
                        input.height,
                        max_steps,
                        min_before_turn,
                        *start,
                        p,
                    ),
            }
        }),
{
    let result = pathfinding::directed::dijkstra::dijkstra(
        start,
        |n: &Node| successors(n, input, max_steps, min_before_turn),
        |n: &Node| is_goal(n, input, min_before_turn),
    );
    result.map(|pc| pc.1)
}

/// The cheapest heat loss with runs of at most three steps.
pub fn part1(input: &CityMap) -> (r: Option<i32>)
    requires
        map_ok(rows_views(input.rows@), input.width, input.height),
    ensures
        ({
            let rows = rows_views(input.rows@);
            match r {
                Some(c) => (exists|p: Seq<Node>|
                    valid_path(rows, input.width, input.height, 3, false, start_node(), p)
                        && path_cost(rows, p, p.len() as int) == c) && (forall|p: Seq<Node>|
                    valid_path(rows, input.width, input.height, 3, false, start_node(), p)
                        ==> path_cost(rows, p, p.len() as int) >= c),
                None => forall|p: Seq<Node>|
                    !valid_path(rows, input.width, input.height, 3, false, start_node(), p),
            }
        }),
{
    let start = Node { x: 0, y: 0, move_in_dir: MoveInDirection::Still };
    proof {
        assert(start == start_node());
    }
    run_dijkstra(input, &start, 3, false)
}

/// The cheapest heat loss with runs of four to ten steps.
pub fn part2(input: &CityMap) -> (r: Option<i32>)
    requires
        map_ok(rows_views(input.rows@), input.width, input.height),
    ensures
        ({
            let rows = rows_views(input.rows@);
            match r {
                Some(c) => (exists|p: Seq<Node>|
                    valid_path(rows, input.width, input.height, 10, true, start_node(), p)
                        && path_cost(rows, p, p.len() as int) == c) && (forall|p: Seq<Node>|
                    valid_path(rows, input.width, input.height, 10, true, start_node(), p)
                        ==> path_cost(rows, p, p.len() as int) >= c),
                None => forall|p: Seq<Node>|
                    !valid_path(rows, input.width, input.height, 10, true, start_node(), p),
            }
        }),
{
    let start = Node { x: 0, y: 0, move_in_dir: MoveInDirection::Still };
    proof {
        assert(start == start_node());
    }
    run_dijkstra(input, &start, 10, true)
}

/// One grid line as weights: each byte minus the zero digit.
pub open spec fn spec_row(line: Seq<u8>) -> Seq<i32> {
    Seq::new(line.len(), |i: int| (line[i] - 48) as i32)
}

pub open spec fn spec_parse(s: Seq<u8>) -> (Seq<Seq<i32>>, int, int) {
    let ls = spec_lines(s);
    (
        Seq::new(ls.len(), |j: int| spec_row(ls[j])),
        if ls.len() == 0 {
            0
        } else {
            ls.last().len() as int
        },
        if ls.len() == 0 {
            0
        } else {
            ls.len() - 1
        },
    )
}

/// The grid; `None` exactly when the line count or a line's width
/// leaves 32-bit coordinates.
pub fn parse(input: &str) -> (r: Option<CityMap>)
    ensures
        match r {
            Some(m) => {
                &&& rows_views(m.rows@) == spec_parse(input.spec_bytes()).0
                &&& m.width == spec_parse(input.spec_bytes()).1
                &&& m.height == spec_parse(input.spec_bytes()).2
            },
            None => spec_lines(input.spec_bytes()).len() > i32::MAX || (exists|j: int|
                0 <= j < spec_lines(input.spec_bytes()).len() && (#[trigger] spec_lines(
                    input.spec_bytes(),
                )[j]).len() > i32::MAX),
        },
{
    let bytes = input.as_bytes();
    let lines = split_lines(bytes);
    let ghost lv = spec_lines(input.spec_bytes());
    proof {
        assert(lv.len() == lines@.len());
    }
    if lines.len() > i32::MAX as usize {
        return None;
    }
    let mut rows: Vec<Vec<i32>> = Vec::new();
    let mut j: usize = 0;
    let mut width: i32 = 0;
    while j < lines.len()
        invariant
            0 <= j <= lines@.len(),
            lines@.len() <= i32::MAX,
            lv == spec_lines(input.spec_bytes()),
            byte_views(lines@) == lv,
            rows@.len() == j,
            forall|t: int| 0 <= t < j ==> #[trigger] rows@[t]@ == spec_row(lv[t]),
            j > 0 ==> width == lv[j - 1].len(),
            j == 0 ==> width == 0,
        decreases lines@.len() - j,
    {
        let line = &lines[j];
        proof {
            assert(lv[j as int] == lines@[j as int]@);
        }
        if line.len() > i32::MAX as usize {
            proof {
                assert(lv[j as int].len() > i32::MAX);
            }
            return None;
        }
        width = line.len() as i32;
        let mut row: Vec<i32> = Vec::new();
        let mut i: usize = 0;
        while i < line.len()
            invariant
                0 <= i <= line@.len(),
                row@.len() == i,
                forall|t: int| 0 <= t < i ==> #[trigger] row@[t] == (line@[t] - 48) as i32,
            decreases line@.len() - i,
        {
            let b = line[i];
            row.push((b as i32) - 48);
            i = i + 1;
        }
        proof {
            assert(row@ =~= spec_row(lv[j as int]));
        }
        rows.push(row);
        j = j + 1;
    }
    let height: i32 = if lines.len() == 0 {
        0
    } else {
        (lines.len() - 1) as i32
    };
    proof {
        assert(rows_views(rows@) =~= spec_parse(input.spec_bytes()).0);
        if lv.len() > 0 {
            assert(lv.last() == lv[lv.len() - 1]);
        }
        if lv.len() > 0 {
            assert(width == lv[lv.len() - 1].len());
            assert(spec_parse(input.spec_bytes()).1 == lv.last().len() as int);
        }
        assert(width as int == spec_parse(input.spec_bytes()).1);
        assert(height as int == spec_parse(input.spec_bytes()).2);
    }
    Some(CityMap { rows, width, height })
}

} // verus!
