//! Rolling-rocks puzzle: round stones roll on a platform until they hit a
//! cube stone or the rim; a spin cycle tilts north, west, south, east, and
//! the billionth cycle is found by spotting when the platform repeats.
//!
//! The model is total: a stone whose lane lies outside the platform rolls
//! nowhere, and counters stop at the machine's edges, so even a degenerate
//! platform gets an answer instead of an error.
use vstd::prelude::*;

use crate::parsing::{byte_views, spec_lines, split_lines};
use crate::sorting::{
    pair_views, spec_sort, sort_pairs, lemma_sort_len, lemma_sort_payload_bound,
};
use vstd::pervasive::VecAdditionalExecFns;
use vstd::string::StringSliceAdditionalSpecFns;

verus! {

#[derive(Debug, PartialEq, Eq, Structural, Clone, Copy)]
pub enum StoneKind {
    Round,
    Cube,
}

#[derive(Debug, PartialEq, Eq, Structural, Clone, Copy)]
pub struct Stone {
    pub x: usize,
    pub y: usize,
    pub kind: StoneKind,
}

pub struct Platform {
    pub width: usize,
    pub height: usize,
    pub stones: Vec<Stone>,
}

#[derive(Clone, Copy)]
enum Dir {
    North,
    West,
    South,
    East,
}

pub open spec fn spec_north() -> int {
    0
}

pub open spec fn spec_west() -> int {
    1
}

pub open spec fn spec_south() -> int {
    2
}

pub open spec fn spec_east() -> int {
    3
}

spec fn dir_code(d: Dir) -> int {
    match d {
        Dir::North => 0,
        Dir::West => 1,
        Dir::South => 2,
        Dir::East => 3,
    }
}

/// The lane a stone rolls in: its column for vertical tilts, its row for
/// horizontal ones.
pub open spec fn lane_of(d: int, st: Stone) -> int {
    if d == 0 || d == 2 {
        st.x as int
    } else {
        st.y as int
    }
}

/// One more, stopping at the machine's edge.
pub open spec fn bump_up(v: usize) -> usize {
    if v < usize::MAX {
        (v + 1) as usize
    } else {
        v
    }
}

/// One less, stopping at zero.
pub open spec fn bump_down(v: usize) -> usize {
    if v >= 1 {
        (v - 1) as usize
    } else {
        0
    }
}

/// The sort key of a stone for one tilt: primary lane, then position
/// along the lane, reversed for south and east.
pub open spec fn spec_key(d: int, st: Stone) -> Seq<u64> {
    if d == 0 {
        seq![st.x as u64, st.y as u64]
    } else if d == 1 {
        seq![st.y as u64, st.x as u64]
    } else if d == 2 {
        seq![st.x as u64, rev_coord(st.y)]
    } else {
        seq![st.y as u64, rev_coord(st.x)]
    }
}

/// Order-reversing encoding of a coordinate: exact for every value.
pub open spec fn rev_coord(v: usize) -> u64 {
    (u64::MAX - v) as u64
}

pub open spec fn spec_keyed(d: int, stones: Seq<Stone>) -> Seq<(Seq<u64>, usize)> {
    Seq::new(stones.len(), |i: int| (spec_key(d, stones[i]), i as usize))
}

/// The stones in rolling order for one tilt: the stable key sort applied.
pub open spec fn spec_sorted_stones(d: int, stones: Seq<Stone>) -> Seq<Stone> {
    let sp = spec_sort(spec_keyed(d, stones));
    Seq::new(sp.len(), |i: int| stones[sp[i].1 as int])
}

/// Where the rolling front of each lane starts.
pub open spec fn obs_init(d: int, w: usize, h: usize) -> Seq<usize> {
    if d == 0 {
        Seq::new(w as nat, |l: int| 0usize)
    } else if d == 1 {
        Seq::new(h as nat, |l: int| 0usize)
    } else if d == 2 {
        Seq::new(w as nat, |l: int| bump_down(h))
    } else {
        Seq::new(h as nat, |l: int| bump_down(w))
    }
}

/// A cube stone blocks its lane just past itself.
pub open spec fn cube_obs(d: int, st: Stone) -> usize {
    if d == 0 {
        bump_up(st.y)
    } else if d == 1 {
        bump_up(st.x)
    } else if d == 2 {
        bump_down(st.y)
    } else {
        bump_down(st.x)
    }
}

pub open spec fn next_obs(d: int, placed: usize) -> usize {
    if d == 0 || d == 1 {
        bump_up(placed)
    } else {
        bump_down(placed)
    }
}

pub open spec fn place_stone(d: int, st: Stone, p: usize) -> Stone {
    if d == 0 || d == 2 {
        Stone { x: st.x, y: p, kind: st.kind }
    } else {
        Stone { x: p, y: st.y, kind: st.kind }
    }
}

/// Roll the first `i` stones of the rolling order, carrying the front of
/// each lane.
pub open spec fn sweep(d: int, s: Seq<Stone>, i: int, w: usize, h: usize) -> (
    Seq<Stone>,
    Seq<usize>,
)
    decreases i,
{
    if i <= 0 {
        (Seq::empty(), obs_init(d, w, h))
    } else {
        let (out, obs) = sweep(d, s, i - 1, w, h);
        let st = s[i - 1];
        let l = lane_of(d, st);
        if !(0 <= l < obs.len()) {
            (out.push(st), obs)
        } else {
            match st.kind {
                StoneKind::Cube => (out.push(st), obs.update(l, cube_obs(d, st))),
                StoneKind::Round => {
                    let p = obs[l];
                    (out.push(place_stone(d, st, p)), obs.update(l, next_obs(d, p)))
                },
            }
        }
    }
}

/// The stones after one tilt, in rolling order.
pub open spec fn spec_tilt(d: int, w: usize, h: usize, stones: Seq<Stone>) -> Seq<Stone> {
    let s = spec_sorted_stones(d, stones);
    sweep(d, s, s.len() as int, w, h).0
}

/// One spin cycle: north, west, south, east.
pub open spec fn spec_cycle(w: usize, h: usize, stones: Seq<Stone>) -> Seq<Stone> {
    spec_tilt(3, w, h, spec_tilt(2, w, h, spec_tilt(1, w, h, spec_tilt(0, w, h, stones))))
}

/// The platform after `n` spin cycles.
pub open spec fn iterate(w: usize, h: usize, stones: Seq<Stone>, n: nat) -> Seq<Stone>
    decreases n,
{
    if n == 0 {
        stones
    } else {
        spec_cycle(w, h, iterate(w, h, stones, (n - 1) as nat))
    }
}

fn key_of(d: Dir, st: &Stone) -> (r: Vec<u64>)
    ensures
        r@ == spec_key(dir_code(d), *st),
{
    let a: u64 = match d {
        Dir::North => st.x as u64,
        Dir::West => st.y as u64,
        Dir::South => st.x as u64,
        Dir::East => st.y as u64,
    };
    let b: u64 = match d {
        Dir::North => st.y as u64,
        Dir::West => st.x as u64,
        Dir::South => u64::MAX - (st.y as u64),
        Dir::East => u64::MAX - (st.x as u64),
    };
    let mut key: Vec<u64> = Vec::new();
    key.push(a);
    key.push(b);
    proof {
        assert(key@ =~= spec_key(dir_code(d), *st));
    }
    key
}

impl Platform {
    fn tilt_dir(&mut self, d: Dir)
        ensures
            final(self).width == old(self).width,
            final(self).height == old(self).height,
            final(self).stones@ == spec_tilt(
                dir_code(d),
                old(self).width,
                old(self).height,
                old(self).stones@,
            ),
    {
        let ghost dc = dir_code(d);
        let ghost stones0 = self.stones@;
        let w = self.width;
        let h = self.height;
        let n = self.stones.len();
        // keyed pairs in input order
        let mut pairs: Vec<(Vec<u64>, usize)> = Vec::new();
        let mut i: usize = 0;
        while i < n
            invariant
                0 <= i <= n,
                n == self.stones@.len(),
                stones0 == self.stones@,
                dc == dir_code(d),
                pairs@.len() == i,
                forall|t: int|
                    0 <= t < i ==> #[trigger] pair_views(pairs@)[t] == spec_keyed(
                        dc,
                        stones0,
                    )[t],
            decreases n - i,
        {
            let key = key_of(d, &self.stones[i]);
            let ghost oldp = pair_views(pairs@);
            pairs.push((key, i));
            proof {
                assert(pair_views(pairs@) =~= oldp.push((key@, i as usize)));
            }
            i = i + 1;
        }
        proof {
            assert(pair_views(pairs@) =~= spec_keyed(dc, stones0));
        }
        let sorted_pairs = sort_pairs(&pairs);
        proof {
            lemma_sort_len(spec_keyed(dc, stones0));
            assert(forall|t: int|
                0 <= t < spec_keyed(dc, stones0).len() ==> (#[trigger] spec_keyed(dc, stones0)[
                t]).1 < n);
            lemma_sort_payload_bound(spec_keyed(dc, stones0), n as int);
        }
        // gather the stones in rolling order
        let ghost srt = spec_sorted_stones(dc, stones0);
        let mut sorted: Vec<Stone> = Vec::new();
        let mut j: usize = 0;
        while j < sorted_pairs.len()
            invariant
                0 <= j <= sorted_pairs@.len(),
                n == self.stones@.len(),
                stones0 == self.stones@,
                dc == dir_code(d),
                pair_views(sorted_pairs@) == spec_sort(spec_keyed(dc, stones0)),
                srt == spec_sorted_stones(dc, stones0),
                sorted_pairs@.len() == n,
                forall|t: int|
                    0 <= t < n ==> (#[trigger] pair_views(sorted_pairs@)[t]).1 < n,
                sorted@.len() == j,
                forall|t: int| 0 <= t < j ==> #[trigger] sorted@[t] == srt[t],
            decreases sorted_pairs@.len() - j,
        {
            let idx = sorted_pairs[j].1;
            proof {
                assert(pair_views(sorted_pairs@)[j as int].1 == idx);
            }
            sorted.push(self.stones[idx]);
            j = j + 1;
        }
        proof {
            assert(sorted@ =~= srt);
        }
        // roll along the lanes
        let lanes: usize = match d {
            Dir::North => w,
            Dir::West => h,
            Dir::South => w,
            Dir::East => h,
        };
        let init: usize = match d {
            Dir::North => 0,
            Dir::West => 0,
            Dir::South => {
                if h >= 1 {
                    h - 1
                } else {
                    0
                }
            },
            Dir::East => {
                if w >= 1 {
                    w - 1
                } else {
                    0
                }
            },
        };
        let mut obs: Vec<usize> = Vec::new();
        let mut l: usize = 0;
        while l < lanes
            invariant
                obs@.len() == l,
                0 <= l <= lanes,
                forall|t: int| 0 <= t < l ==> #[trigger] obs@[t] == init,
            decreases lanes - l,
        {
            obs.push(init);
            l = l + 1;
        }
        proof {
            assert(obs@ =~= obs_init(dc, w, h));
        }
        let mut out: Vec<Stone> = Vec::new();
        let mut k: usize = 0;
        while k < sorted.len()
            invariant
                0 <= k <= sorted@.len(),
                sorted@ == srt,
                dc == dir_code(d),
                w == self.width,
                h == self.height,
                out@ == sweep(dc, srt, k as int, w, h).0,
                obs@ == sweep(dc, srt, k as int, w, h).1,
            decreases sorted@.len() - k,
        {
            let st = sorted[k];
            let lane: usize = match d {
                Dir::North => st.x,
                Dir::West => st.y,
                Dir::South => st.x,
                Dir::East => st.y,
            };
            if lane >= obs.len() {
                out.push(st);
            } else {
                match st.kind {
                    StoneKind::Cube => {
                        let v: usize = match d {
                            Dir::North => {
                                if st.y < usize::MAX {
                                    st.y + 1
                                } else {
                                    st.y
                                }
                            },
                            Dir::West => {
                                if st.x < usize::MAX {
                                    st.x + 1
                                } else {
                                    st.x
                                }
                            },
                            Dir::South => {
                                if st.y >= 1 {
                                    st.y - 1
                                } else {
                                    0
                                }
                            },
                            Dir::East => {
                                if st.x >= 1 {
                                    st.x - 1
                                } else {
                                    0
                                }
                            },
                        };
                        out.push(st);
                        obs.set(lane, v);
                    },
                    StoneKind::Round => {
                        let p = obs[lane];
                        let nst: Stone = match d {
                            Dir::North => Stone { x: st.x, y: p, kind: st.kind },
                            Dir::South => Stone { x: st.x, y: p, kind: st.kind },
                            Dir::West => Stone { x: p, y: st.y, kind: st.kind },
                            Dir::East => Stone { x: p, y: st.y, kind: st.kind },
                        };
                        let v: usize = match d {
                            Dir::North => {
                                if p < usize::MAX {
                                    p + 1
                                } else {
                                    p
                                }
                            },
                            Dir::West => {
                                if p < usize::MAX {
                                    p + 1
                                } else {
                                    p
                                }
                            },
                            Dir::South => {
                                if p >= 1 {
                                    p - 1
                                } else {
                                    0
                                }
                            },
                            Dir::East => {
                                if p >= 1 {
                                    p - 1
                                } else {
                                    0
                                }
                            },
                        };
                        out.push(nst);
                        obs.set(lane, v);
                    },
                }
            }
            proof {
                assert(out@ =~= sweep(dc, srt, k + 1, w, h).0);
                assert(obs@ =~= sweep(dc, srt, k + 1, w, h).1);
            }
            k = k + 1;
        }
        self.stones = out;
    }

    /// Roll every round stone as far north as it goes.
    pub fn tilt_north(&mut self)
        ensures
            final(self).width == old(self).width,
            final(self).height == old(self).height,
            final(self).stones@ == spec_tilt(
                spec_north(),
                old(self).width,
                old(self).height,
                old(self).stones@,
            ),
    {
        self.tilt_dir(Dir::North)
    }

    /// Roll every round stone as far west as it goes.
    pub fn tilt_west(&mut self)
        ensures
            final(self).width == old(self).width,
            final(self).height == old(self).height,
            final(self).stones@ == spec_tilt(
                spec_west(),
                old(self).width,
                old(self).height,
                old(self).stones@,
            ),
    {
        self.tilt_dir(Dir::West)
    }

    /// Roll every round stone as far south as it goes.
    pub fn tilt_south(&mut self)
        ensures
            final(self).width == old(self).width,
            final(self).height == old(self).height,
            final(self).stones@ == spec_tilt(
                spec_south(),
                old(self).width,
                old(self).height,
                old(self).stones@,
            ),
    {
        self.tilt_dir(Dir::South)
    }

    /// Roll every round stone as far east as it goes.
    pub fn tilt_east(&mut self)
        ensures
            final(self).width == old(self).width,
            final(self).height == old(self).height,
            final(self).stones@ == spec_tilt(
                spec_east(),
                old(self).width,
                old(self).height,
                old(self).stones@,
            ),
    {
        self.tilt_dir(Dir::East)
    }

    /// One spin cycle: tilt north, west, south, then east.
    pub fn cycle(&mut self)
        ensures
            final(self).width == old(self).width,
            final(self).height == old(self).height,
            final(self).stones@ == spec_cycle(
                old(self).width,
                old(self).height,
                old(self).stones@,
            ),
    {
        self.tilt_north();
        self.tilt_west();
        self.tilt_south();
        self.tilt_east();
    }

    /// The load on the north beams: each round stone counts its distance
    /// from the south rim. `None` for a stone below the platform or a
    /// load beyond the machine range.
    pub fn load(&self) -> (r: Option<usize>)
        ensures
            r == spec_load(self.height, self.stones@, self.stones@.len() as int),
    {
        let ghost sv = self.stones@;
        let mut acc: usize = 0;
        let mut i: usize = 0;
        while i < self.stones.len()
            invariant
                0 <= i <= sv.len(),
                sv == self.stones@,
                spec_load(self.height, sv, i as int) == Some(acc),
            decreases sv.len() - i,
        {
            let st = self.stones[i];
            match st.kind {
                StoneKind::Round => {
                    if st.y > self.height {
                        proof {
                            lemma_load_none(self.height, sv, i + 1, sv.len() as int);
                        }
                        return None;
                    }
                    match acc.checked_add(self.height - st.y) {
                        Some(x) => {
                            acc = x;
                        },
                        None => {
                            proof {
                                lemma_load_none(self.height, sv, i + 1, sv.len() as int);
                            }
                            return None;
                        },
                    }
                },
                StoneKind::Cube => {},
            }
            i = i + 1;
        }
        Some(acc)
    }
}

/// The load of the first `i` stones; `None` once a round stone lies below
/// the platform or the sum leaves the machine range.
pub open spec fn spec_load(h: usize, stones: Seq<Stone>, i: int) -> Option<usize>
    decreases i,
{
    if i <= 0 {
        Some(0usize)
    } else {
        match spec_load(h, stones, i - 1) {
            Some(acc) => {
                let st = stones[i - 1];
                match st.kind {
                    StoneKind::Round => {
                        if st.y > h || acc + (h - st.y) > usize::MAX {
                            None
                        } else {
                            Some((acc + (h - st.y)) as usize)
                        }
                    },
                    StoneKind::Cube => Some(acc),
                }
            },
            None => None,
        }
    }
}

proof fn lemma_load_none(h: usize, stones: Seq<Stone>, i: int, n: int)
    requires
        0 <= i <= n,
        spec_load(h, stones, i) is None,
    ensures
        spec_load(h, stones, n) is None,
    decreases n - i,
{
    if i < n {
        lemma_load_none(h, stones, i + 1, n);
    }
}

/// Stones of one grid line, left to right.
pub open spec fn row_stones(line: Seq<u8>, y: usize, i: int) -> Option<Seq<Stone>>
    decreases i,
{
    if i <= 0 {
        Some(Seq::empty())
    } else {
        match row_stones(line, y, i - 1) {
            Some(front) => {
                if line[i - 1] == 35 {
                    Some(front.push(Stone { x: (i - 1) as usize, y, kind: StoneKind::Cube }))
                } else if line[i - 1] == 79 {
                    Some(front.push(Stone { x: (i - 1) as usize, y, kind: StoneKind::Round }))
                } else if line[i - 1] == 46 {
                    Some(front)
                } else {
                    None
                }
            },
            None => None,
        }
    }
}

/// Stones of the first `j` grid lines.
pub open spec fn grid_stones(ls: Seq<Seq<u8>>, j: int) -> Option<Seq<Stone>>
    decreases j,
{
    if j <= 0 {
        Some(Seq::empty())
    } else {
        match (grid_stones(ls, j - 1), row_stones(
            ls[j - 1],
            (j - 1) as usize,
            ls[j - 1].len() as int,
        )) {
            (Some(front), Some(row)) => Some(front + row),
            _ => None,
        }
    }
}

/// The platform: each cell ash, a cube stone or a round stone. The width
/// is the length of the last line.
pub open spec fn spec_parse(s: Seq<u8>) -> Option<(usize, usize, Seq<Stone>)> {
    let ls = spec_lines(s);
    if ls.len() > usize::MAX {
        None
    } else {
        match grid_stones(ls, ls.len() as int) {
            Some(stones) => Some(
                (
                    if ls.len() == 0 {
                        0usize
                    } else {
                        ls.last().len() as usize
                    },
                    ls.len() as usize,
                    stones,
                ),
            ),
            None => None,
        }
    }
}

proof fn lemma_grid_none(ls: Seq<Seq<u8>>, j: int, n: int)
    requires
        0 <= j <= n,
        grid_stones(ls, j) is None,
    ensures
        grid_stones(ls, n) is None,
    decreases n - j,
{
    if j < n {
        lemma_grid_none(ls, j + 1, n);
    }
}

pub fn parse(input: &str) -> (r: Option<Platform>)
    ensures
        match r {
            Some(p) => spec_parse(input.spec_bytes()) == Some((p.width, p.height, p.stones@)),
            None => spec_parse(input.spec_bytes()) is None,
        },
{
    let bytes = input.as_bytes();
    let lines = split_lines(bytes);
    let ghost lv = spec_lines(input.spec_bytes());
    let mut width: usize = 0;
    let mut stones: Vec<Stone> = Vec::new();
    let mut j: usize = 0;
    proof {
        assert(lv.len() == lines@.len());
    }
    while j < lines.len()
        invariant
            0 <= j <= lines@.len(),
            lv == spec_lines(input.spec_bytes()),
            byte_views(lines@) == lv,
            grid_stones(lv, j as int) == Some(stones@),
            width == (if j == 0 {
                0int
            } else {
                lv[j - 1].len() as int
            }),
        decreases lines@.len() - j,
    {
        let line = &lines[j];
        proof {
            assert(lv[j as int] == lines@[j as int]@);
        }
        width = line.len();
        let mut i: usize = 0;
        let ghost row0 = stones@;
        while i < line.len()
            invariant
                0 <= i <= line@.len(),
                0 <= j < lines@.len(),
                line@ == lv[j as int],
                lv == spec_lines(input.spec_bytes()),
                byte_views(lines@) == lv,
                grid_stones(lv, j as int) == Some(row0),
                row_stones(line@, j as usize, i as int) matches Some(row) && stones@ == row0
                    + row,
            decreases line@.len() - i,
        {
            let b = line[i];
            if b == 35 {
                stones.push(Stone { x: i, y: j, kind: StoneKind::Cube });
                proof {
                    assert(stones@ =~= row0 + row_stones(line@, j as usize, i + 1).unwrap());
                }
            } else if b == 79 {
                stones.push(Stone { x: i, y: j, kind: StoneKind::Round });
                proof {
                    assert(stones@ =~= row0 + row_stones(line@, j as usize, i + 1).unwrap());
                }
            } else if b == 46 {
            } else {
                proof {
                    assert(row_stones(line@, j as usize, i + 1) is None);
                    lemma_row_none(line@, j as usize, i + 1, line@.len() as int);
                    lemma_grid_none(lv, j + 1, lv.len() as int);
                }
                return None;
            }
            i = i + 1;
        }
        j = j + 1;
    }
    proof {
        if lv.len() > 0 {
            assert(lv.last() == lv[lv.len() - 1]);
        }
    }
    Some(Platform { width, height: lines.len(), stones })
}

proof fn lemma_row_none(line: Seq<u8>, y: usize, i: int, n: int)
    requires
        0 <= i <= n,
        row_stones(line, y, i) is None,
    ensures
        row_stones(line, y, n) is None,
    decreases n - i,
{
    if i < n {
        lemma_row_none(line, y, i + 1, n);
    }
}

fn copy_stones(v: &Vec<Stone>) -> (r: Vec<Stone>)
    ensures
        r@ == v@,
{
    let mut out: Vec<Stone> = Vec::new();
    let mut i: usize = 0;
    while i < v.len()
        invariant
            0 <= i <= v@.len(),
            out@ == v@.take(i as int),
        decreases v@.len() - i,
    {
        out.push(v[i]);
        proof {
            assert(out@ =~= v@.take(i + 1));
        }
        i = i + 1;
    }
    proof {
        assert(v@.take(v@.len() as int) =~= v@);
    }
    out
}

fn stones_eq(a: &Vec<Stone>, b: &Vec<Stone>) -> (r: bool)
    ensures
        r == (a@ == b@),
{
    if a.len() != b.len() {
        return false;
    }
    let mut i: usize = 0;
    while i < a.len()
        invariant
            0 <= i <= a@.len(),
            a@.len() == b@.len(),
            forall|j: int| 0 <= j < i ==> a@[j] == b@[j],
        decreases a@.len() - i,
    {
        let x = a[i];
        let y = b[i];
        if !(x.x == y.x && x.y == y.y && x.kind == y.kind) {
            assert(a@[i as int] != b@[i as int]);
            return false;
        }
        i = i + 1;
    }
    proof {
        assert(a@ =~= b@);
    }
    true
}

/// The load after one tilt north.
pub fn part1(platform: &Platform) -> (r: Option<usize>)
    ensures
        ({
            let tilted = spec_tilt(spec_north(), platform.width, platform.height, platform.stones@);
            r == spec_load(platform.height, tilted, tilted.len() as int)
        }),
{
    let mut p = Platform {
        width: platform.width,
        height: platform.height,
        stones: copy_stones(&platform.stones),
    };
    p.tilt_north();
    p.load()
}

proof fn lemma_iter_shift(w: usize, h: usize, s0: Seq<Stone>, a: nat, b: nat, t: nat)
    requires
        iterate(w, h, s0, a) == iterate(w, h, s0, b),
    ensures
        iterate(w, h, s0, (a + t) as nat) == iterate(w, h, s0, (b + t) as nat),
    decreases t,
{
    if t > 0 {
        lemma_iter_shift(w, h, s0, a, b, (t - 1) as nat);
    }
}

proof fn lemma_iter_period(w: usize, h: usize, s0: Seq<Stone>, a: nat, d: nat, m: nat)
    requires
        iterate(w, h, s0, a) == iterate(w, h, s0, (a + d) as nat),
    ensures
        iterate(w, h, s0, a) == iterate(w, h, s0, (a + m * d) as nat),
    decreases m,
{
    if m > 0 {
        let t = ((m - 1) * d) as nat;
        lemma_iter_period(w, h, s0, a, d, (m - 1) as nat);
        assert(((m - 1) as nat) * d == t);
        assert(iterate(w, h, s0, a) == iterate(w, h, s0, (a + t) as nat));
        lemma_iter_shift(w, h, s0, a, (a + d) as nat, t);
        assert(a + d + t == a + m * d) by (nonlinear_arith)
            requires
                m >= 1,
                d >= 0,
                t == (m - 1) * d,
        ;
        assert(iterate(w, h, s0, (a + t) as nat) == iterate(w, h, s0, (a + d + t) as nat));
    } else {
        assert(m * d == 0) by (nonlinear_arith)
            requires
                m == 0,
        ;
    }
}

/// The load after a billion spin cycles, found by spotting the first
/// repeated platform and jumping ahead by whole periods.
#[verifier::rlimit(50)]
pub fn part2(platform: &Platform) -> (r: Option<usize>)
    ensures
        ({
            let fin = iterate(platform.width, platform.height, platform.stones@, 1000000000nat);
            r == spec_load(platform.height, fin, fin.len() as int)
        }),
{
    let w = platform.width;
    let h = platform.height;
    let ghost s0 = platform.stones@;
    let mut p = Platform { width: w, height: h, stones: copy_stones(&platform.stones) };
    let mut cache: Vec<Vec<Stone>> = Vec::new();
    let mut step: usize = 0;
    while step < 1000000000
        invariant
            0 <= step <= 1000000000,
            w == platform.width,
            h == platform.height,
            s0 == platform.stones@,
            p.width == w,
            p.height == h,
            p.stones@ == iterate(w, h, s0, step as nat),
            cache@.len() == step,
            forall|t: int|
                0 <= t < step ==> #[trigger] cache@[t]@ == iterate(w, h, s0, (t + 1) as nat),
        decreases 1000000000 - step,
    {
        p.cycle();
        proof {
            assert(p.stones@ == iterate(w, h, s0, (step + 1) as nat));
        }
        // look for an earlier occurrence of this platform
        let mut f: usize = 0;
        while f < cache.len()
            invariant
                0 <= f <= cache@.len(),
                cache@.len() == step,
                step < 1000000000,
                w == platform.width,
                h == platform.height,
                s0 == platform.stones@,
                p.width == w,
                p.height == h,
                p.stones@ == iterate(w, h, s0, (step + 1) as nat),
                forall|t: int|
                    0 <= t < step ==> #[trigger] cache@[t]@ == iterate(w, h, s0, (t + 1) as nat),
            decreases cache@.len() - f,
        {
            if stones_eq(&cache[f], &p.stones) {
                // the state after f + 1 cycles equals the one after step + 1;
                // the billionth state repeats inside that loop
                let d = step - f;
                let e = (1000000000 - step - 1) % d;
                let idx = e + f;
                proof {
                    let dd = d as nat;
                    let big = 1000000000 - step - 1;
                    let q = big as int / d as int;
                    vstd::arithmetic::div_mod::lemma_fundamental_div_mod(big as int, d as int);
                    assert(big == q * d + e);
                    assert(q >= 0) by (nonlinear_arith)
                        requires
                            big == q * d + e,
                            big >= 0,
                            d > 0,
                            0 <= e < d,
                    ;
                    lemma_iter_shift(w, h, s0, (f + 1) as nat, (step + 1) as nat, e as nat);
                    lemma_iter_period(
                        w,
                        h,
                        s0,
                        (f + 1 + e) as nat,
                        dd,
                        (q + 1) as nat,
                    );
                    assert(f + 1 + e + (q + 1) * d == 1000000000) by (nonlinear_arith)
                        requires
                            big == q * d + e,
                            big == 1000000000 - step - 1,
                            d == step - f,
                    ;
                    assert(iterate(w, h, s0, (idx + 1) as nat) == iterate(
                        w,
                        h,
                        s0,
                        1000000000nat,
                    ));
                    assert(cache@[idx as int]@ == iterate(w, h, s0, (idx + 1) as nat));
                }
                let target = Platform { width: w, height: h, stones: copy_stones(&cache[idx]) };
                return target.load();
            }
            f = f + 1;
        }
        cache.push(copy_stones(&p.stones));
        step = step + 1;
    }
    p.load()
}

} // verus!
